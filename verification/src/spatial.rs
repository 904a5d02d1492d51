//! The spatial index: a mapping from grid coordinate to cell handle, the
//! only way other components resolve "the cell north of this one".

use std::collections::HashMap;
use vstd::prelude::*;

verus! {

/// A packed map key for a grid coordinate: each signed component is shifted
/// into an unsigned 32-bit half of the key, so distinct coordinates give
/// distinct keys.
pub open spec fn pos_key_spec(p: (i32, i32)) -> u64 {
    (((p.0 as int + 0x8000_0000) * 0x1_0000_0000) + (p.1 as int + 0x8000_0000)) as u64
}

/// Distinct grid coordinates pack to distinct keys.
pub proof fn lemma_pos_key_injective(a: (i32, i32), b: (i32, i32))
    ensures
        pos_key_spec(a) == pos_key_spec(b) ==> a == b,
{
    let ka = (a.0 as int + 0x8000_0000) * 0x1_0000_0000 + (a.1 as int + 0x8000_0000);
    let kb = (b.0 as int + 0x8000_0000) * 0x1_0000_0000 + (b.1 as int + 0x8000_0000);
    assert(0 <= ka < 0x1_0000_0000_0000_0000);
    assert(0 <= kb < 0x1_0000_0000_0000_0000);
    if ka == kb {
        assert(a.0 == b.0 && a.1 == b.1) by (nonlinear_arith)
            requires
                ka == kb,
                ka == (a.0 as int + 0x8000_0000) * 0x1_0000_0000 + (a.1 as int + 0x8000_0000),
                kb == (b.0 as int + 0x8000_0000) * 0x1_0000_0000 + (b.1 as int + 0x8000_0000),
                -0x8000_0000 <= a.0 as int <= 0x7fff_ffff,
                -0x8000_0000 <= a.1 as int <= 0x7fff_ffff,
                -0x8000_0000 <= b.0 as int <= 0x7fff_ffff,
                -0x8000_0000 <= b.1 as int <= 0x7fff_ffff,
        ;
    }
}

/// Executable form of `pos_key_spec`.
pub fn pos_key(p: (i32, i32)) -> (key: u64)
    ensures
        key == pos_key_spec(p),
{
    let x = (p.0 as i64 + 0x8000_0000i64) as u64;
    let z = (p.1 as i64 + 0x8000_0000i64) as u64;
    x * 0x1_0000_0000u64 + z
}

/// Spatial index for cell lookup by grid coordinate. Its invariant against
/// the cell arena — every entry points at the live cell occupying exactly
/// that coordinate, and every live cell is indexed — lives on the engine
/// that owns both.
pub struct CellSpatialIndex {
    /// Maps packed grid coordinates to cell handles.
    pub grid: HashMap<u64, usize>,
}

impl CellSpatialIndex {
    /// Whether coordinate `p` is present in the index.
    pub open spec fn has(self, p: (i32, i32)) -> bool {
        self.grid@.contains_key(pos_key_spec(p))
    }

    /// The handle stored for coordinate `p`.
    pub open spec fn at(self, p: (i32, i32)) -> usize {
        self.grid@[pos_key_spec(p)]
    }

    /// An empty index.
    pub fn new() -> (index: CellSpatialIndex)
        ensures
            index.grid@ == Map::<u64, usize>::empty(),
            forall|p: (i32, i32)| !index.has(p),
    {
        CellSpatialIndex { grid: HashMap::new() }
    }

    /// The number of indexed coordinates.
    pub fn len(&self) -> (n: usize)
        ensures
            n == self.grid@.len(),
    {
        self.grid.len()
    }

    /// Registers handle `handle` for coordinate `p`; every other
    /// coordinate keeps its entry.
    pub fn insert_pos(&mut self, p: (i32, i32), handle: usize)
        ensures
            final(self).grid@ == old(self).grid@.insert(pos_key_spec(p), handle),
            final(self).has(p),
            final(self).at(p) == handle,
            forall|q: (i32, i32)|
                q != p ==> #[trigger] final(self).has(q) == old(self).has(q) && final(self).at(q)
                    == old(self).at(q),
    {
        let key = pos_key(p);
        self.grid.insert(key, handle);
        proof {
            assert forall|q: (i32, i32)| q != p implies #[trigger] final(self).has(q) == old(
                self,
            ).has(q) && final(self).at(q) == old(self).at(q) by {
                lemma_pos_key_injective(q, p);
            }
        }
    }

    /// Removes the entry of coordinate `p`, if any; every other coordinate
    /// keeps its entry.
    pub fn remove_pos(&mut self, p: (i32, i32))
        ensures
            final(self).grid@ == old(self).grid@.remove(pos_key_spec(p)),
            !final(self).has(p),
            forall|q: (i32, i32)|
                q != p ==> #[trigger] final(self).has(q) == old(self).has(q) && final(self).at(q)
                    == old(self).at(q),
    {
        let key = pos_key(p);
        self.grid.remove(&key);
        proof {
            assert forall|q: (i32, i32)| q != p implies #[trigger] final(self).has(q) == old(
                self,
            ).has(q) && final(self).at(q) == old(self).at(q) by {
                lemma_pos_key_injective(q, p);
            }
        }
    }

    /// Looks up the handle of coordinate `p`.
    pub fn get_pos(&self, p: (i32, i32)) -> (handle: Option<usize>)
        ensures
            match handle {
                Option::Some(h) => self.has(p) && self.at(p) == h,
                Option::None => !self.has(p),
            },
    {
        let key = pos_key(p);
        match self.grid.get(&key) {
            Option::Some(h) => Option::Some(*h),
            Option::None => Option::None,
        }
    }

    /// Whether coordinate `p` is present in the index.
    pub fn contains_pos(&self, p: (i32, i32)) -> (present: bool)
        ensures
            present == self.has(p),
    {
        let key = pos_key(p);
        self.grid.contains_key(&key)
    }
}

} // verus!
