//! The collapse engine: picks an uncollapsed cell of globally minimal
//! entropy, resolves it to one tile by weighted random draw, and feeds it
//! back into the propagation queue.

use vstd::prelude::*;

use crate::cell::Cell;
use crate::engine::WfcEngine;
use crate::engine::contains_handle;
use crate::rules::Rules;
use crate::rules::WeightTable;
use crate::tiles::TileType;
use crate::tiles::clone_tiles;

verus! {

/// The summed weight of `tiles` under `weights`.
pub open spec fn total_weight(weights: WeightTable, tiles: Seq<TileType>) -> int
    decreases tiles.len(),
{
    if tiles.len() == 0 {
        0
    } else {
        weights.weight_spec(tiles[0]) + total_weight(weights, tiles.drop_first())
    }
}

/// Under a well-formed table every tile weighs at least one, so the total
/// is bounded by the count on one side and the largest weight times the
/// count on the other.
pub proof fn lemma_total_weight_bounds(weights: WeightTable, tiles: Seq<TileType>)
    requires
        weights.wf(),
    ensures
        tiles.len() <= total_weight(weights, tiles) <= tiles.len() * 0xffffffff,
    decreases tiles.len(),
{
    if tiles.len() > 0 {
        lemma_total_weight_bounds(weights, tiles.drop_first());
        assert(0 <= tiles[0].index_spec() < weights.entries@.len());
    }
}

/// The index of the tile whose cumulative weight bracket holds `x`: walk
/// the list front to back, subtracting each tile's weight from `x` until
/// it no longer covers the tile at hand.
pub open spec fn pick_from(weights: WeightTable, tiles: Seq<TileType>, x: int) -> int
    decreases tiles.len(),
{
    if tiles.len() <= 1 {
        0
    } else if x < weights.weight_spec(tiles[0]) {
        0
    } else {
        1 + pick_from(weights, tiles.drop_first(), x - weights.weight_spec(tiles[0]))
    }
}

/// The picked index is always in range for a non-empty list.
pub proof fn lemma_pick_from_in_range(weights: WeightTable, tiles: Seq<TileType>, x: int)
    requires
        tiles.len() > 0,
    ensures
        0 <= pick_from(weights, tiles, x) < tiles.len(),
    decreases tiles.len(),
{
    if tiles.len() > 1 && x >= weights.weight_spec(tiles[0]) {
        lemma_pick_from_in_range(weights, tiles.drop_first(), x - weights.weight_spec(tiles[0]));
    }
}

/// The cumulative weight of the first `k` tiles of the list.
pub open spec fn cum_weight(weights: WeightTable, tiles: Seq<TileType>, k: int) -> int {
    total_weight(weights, tiles.take(k))
}

/// The weighted-selection law: the tile picked for draw `x` is exactly the
/// one whose cumulative weight bracket holds `x`. The bracket of the tile
/// at index `i` is `weights[i]` wide, so a draw uniform over the total
/// weight selects each tile with probability proportional to its weight.
pub proof fn lemma_pick_from_bracket(weights: WeightTable, tiles: Seq<TileType>, x: int)
    requires
        tiles.len() > 0,
        0 <= x < total_weight(weights, tiles),
    ensures
        cum_weight(weights, tiles, pick_from(weights, tiles, x)) <= x,
        x < cum_weight(weights, tiles, pick_from(weights, tiles, x) + 1),
    decreases tiles.len(),
{
    lemma_pick_from_in_range(weights, tiles, x);
    let i = pick_from(weights, tiles, x);
    assert(tiles.take(0) =~= Seq::<TileType>::empty());
    if tiles.len() == 1 || x < weights.weight_spec(tiles[0]) {
        assert(i == 0);
        assert(cum_weight(weights, tiles, 0) == 0);
        assert(tiles.take(1) =~= seq![tiles[0]]);
        assert(tiles.take(1).drop_first() =~= Seq::<TileType>::empty());
        assert(cum_weight(weights, tiles, 1) == weights.weight_spec(tiles[0]));
        if tiles.len() == 1 {
            assert(tiles.take(1) =~= tiles);
        }
    } else {
        let rest = tiles.drop_first();
        let w0 = weights.weight_spec(tiles[0]);
        assert(i == 1 + pick_from(weights, rest, x - w0));
        lemma_pick_from_bracket(weights, rest, x - w0);
        let j = pick_from(weights, rest, x - w0);
        assert(cum_weight(weights, tiles, j + 1) == w0 + cum_weight(weights, rest, j)) by {
            lemma_cum_weight_shift(weights, tiles, j);
        }
        assert(cum_weight(weights, tiles, j + 2) == w0 + cum_weight(weights, rest, j + 1)) by {
            lemma_cum_weight_shift(weights, tiles, j + 1);
        }
    }
}

/// The cumulative weight of `k + 1` tiles is the first tile's weight plus
/// the cumulative weight of `k` tiles of the remainder.
proof fn lemma_cum_weight_shift(weights: WeightTable, tiles: Seq<TileType>, k: int)
    requires
        tiles.len() > 0,
        0 <= k < tiles.len(),
    ensures
        cum_weight(weights, tiles, k + 1) == weights.weight_spec(tiles[0]) + cum_weight(
            weights,
            tiles.drop_first(),
            k,
        ),
{
    let front = tiles.take(k + 1);
    assert(front.len() > 0);
    assert(front[0] == tiles[0]);
    assert(front.drop_first() =~= tiles.drop_first().take(k));
}

/// Sums the weights of `tiles`.
pub fn total_weight_of(weights: &WeightTable, tiles: &Vec<TileType>) -> (total: u64)
    requires
        weights.wf(),
        tiles@.len() <= 0x7fffffff,
    ensures
        total as int == total_weight(*weights, tiles@),
        total as int >= tiles@.len(),
{
    proof {
        lemma_total_weight_bounds(*weights, tiles@);
        assert(tiles@.skip(0) =~= tiles@);
    }
    let mut acc: u64 = 0;
    let mut i: usize = 0;
    while i < tiles.len()
        invariant
            i <= tiles@.len(),
            weights.wf(),
            tiles@.len() <= 0x7fffffff,
            acc as int + total_weight(*weights, tiles@.skip(i as int)) == total_weight(
                *weights,
                tiles@,
            ),
            acc as int <= i * 0xffffffff,
        decreases tiles@.len() - i,
    {
        let w = weights.weight_of(tiles[i]);
        proof {
            let rest = tiles@.skip(i as int);
            assert(rest[0] == tiles@[i as int]);
            assert(rest.drop_first() =~= tiles@.skip(i as int + 1));
            lemma_total_weight_bounds(*weights, tiles@.skip(i as int + 1));
        }
        acc = acc + w as u64;
        i = i + 1;
    }
    proof {
        assert(tiles@.skip(tiles@.len() as int) =~= Seq::<TileType>::empty());
    }
    acc
}

/// Resolves a weighted draw: returns the tile whose cumulative weight
/// bracket holds `x`.
pub fn pick_weighted(weights: &WeightTable, tiles: &Vec<TileType>, x: u64) -> (tile: TileType)
    requires
        weights.wf(),
        0 < tiles@.len() <= 0x7fffffff,
        (x as int) < total_weight(*weights, tiles@),
    ensures
        tile == tiles@[pick_from(*weights, tiles@, x as int)],
{
    proof {
        lemma_total_weight_bounds(*weights, tiles@);
        assert(tiles@.skip(0) =~= tiles@);
    }
    let mut rem: u64 = x;
    let mut i: usize = 0;
    while i < tiles.len()
        invariant
            i <= tiles@.len(),
            weights.wf(),
            0 < tiles@.len() <= 0x7fffffff,
            (rem as int) < total_weight(*weights, tiles@.skip(i as int)),
            i < tiles@.len() ==> pick_from(*weights, tiles@, x as int) == i + pick_from(
                *weights,
                tiles@.skip(i as int),
                rem as int,
            ),
        decreases tiles@.len() - i,
    {
        let w = weights.weight_of(tiles[i]);
        proof {
            let rest = tiles@.skip(i as int);
            assert(rest[0] == tiles@[i as int]);
            assert(rest.drop_first() =~= tiles@.skip(i as int + 1));
            lemma_total_weight_bounds(*weights, tiles@.skip(i as int + 1));
        }
        if rem < w as u64 {
            proof {
                let rest = tiles@.skip(i as int);
                assert(pick_from(*weights, rest, rem as int) == 0);
                assert(tiles@[pick_from(*weights, tiles@, x as int)] == tiles@[i as int]);
            }
            return tiles[i];
        }
        proof {
            let rest = tiles@.skip(i as int);
            assert(rest.len() > 1);
            assert(pick_from(*weights, rest, rem as int) == 1 + pick_from(
                *weights,
                rest.drop_first(),
                rem as int - weights.weight_spec(rest[0]),
            ));
        }
        rem = rem - w as u64;
        i = i + 1;
    }
    proof {
        assert(tiles@.skip(tiles@.len() as int) =~= Seq::<TileType>::empty());
        assert(false);
    }
    tiles[0]
}

/// Relies on rand::random_range: a uniform draw from the half-open range
/// `0..bound` lies strictly below `bound`; the call panics only on an
/// empty range, which the precondition rules out.
#[verifier::external_body]
fn random_below(bound: u64) -> (r: u64)
    requires
        bound > 0,
    ensures
        r < bound,
{
    rand::random_range(0..bound)
}

/// Draws one tile from `valid_tiles` with probability proportional to its
/// weight; an empty list falls back to the ground tile, as the safest
/// default.
pub fn get_random_tile<R: Rules>(rules: &R, valid_tiles: &Vec<TileType>) -> (tile: TileType)
    requires
        rules.wf(),
        valid_tiles@.len() <= 0x7fffffff,
    ensures
        valid_tiles@.len() == 0 ==> tile == TileType::Ground,
        valid_tiles@.len() > 0 ==> valid_tiles@.contains(tile),
{
    if valid_tiles.len() == 0 {
        return TileType::Ground;
    }
    proof {
        rules.wf_implies();
    }
    let weights = rules.weights();
    let total = total_weight_of(weights, valid_tiles);
    let x = random_below(total);
    let tile = pick_weighted(weights, valid_tiles, x);
    proof {
        lemma_pick_from_in_range(*weights, valid_tiles@, x as int);
    }
    tile
}

/// Whether `h` is a live uncollapsed cell whose entropy no live
/// uncollapsed cell undercuts.
pub open spec fn is_min_entropy(eng: WfcEngine, h: int) -> bool {
    &&& eng.live(h)
    &&& !eng.cell(h).is_collapsed
    &&& forall|x: int|
        #[trigger] eng.live(x) && !eng.cell(x).is_collapsed ==> eng.cell(h).entropy <= eng.cell(
            x,
        ).entropy
}

/// State `b` is state `a` with the cell at `h` committed to tile `t`:
/// flagged, resolved, entropy pinned to zero, candidates and coordinate
/// untouched, and no other slot changed.
pub open spec fn collapse_commit(a: WfcEngine, b: WfcEngine, h: int, t: TileType) -> bool {
    &&& b.cells@.len() == a.cells@.len()
    &&& forall|x: int| 0 <= x < b.cells@.len() && x != h ==> b.cells@[x] == a.cells@[x]
    &&& b.live(h)
    &&& b.cell(h).is_collapsed
    &&& b.cell(h).tile_type == Option::Some(t)
    &&& b.cell(h).entropy == 0
    &&& b.cell(h).valid_tiles@ == a.cell(h).valid_tiles@
    &&& b.cell(h).position == a.cell(h).position
}

/// Whether some live cell is still uncollapsed.
pub open spec fn has_uncollapsed(eng: WfcEngine) -> bool {
    exists|h: int| #[trigger] eng.live(h) && !eng.cell(h).is_collapsed
}

/// Collapses one cell: waits until the propagation queue is empty, then
/// picks, uniformly at random, one of the uncollapsed live cells of
/// globally minimal entropy, resolves it by weighted draw from its own
/// candidates, pins its entropy to zero, and enqueues it for propagation.
/// A grid with no uncollapsed cells, or a pending queue, is left alone.
#[verifier::loop_isolation(false)]
pub fn collapse_lowest_entropy_cell<R: Rules>(engine: &mut WfcEngine, rules: &R)
    requires
        old(engine).wf(),
        rules.wf(),
        old(engine).queue_covers(rules.rule_table()),
    ensures
        final(engine).wf(),
        final(engine).queue_covers(rules.rule_table()),
        old(engine).queue.queue@.len() > 0 ==> *final(engine) == *old(engine),
        old(engine).queue.queue@.len() == 0 && !has_uncollapsed(*old(engine)) ==> *final(engine)
            == *old(engine),
        old(engine).queue.queue@.len() == 0 && has_uncollapsed(*old(engine)) ==> (exists|
            h: usize,
            t: TileType,
        |
            {
                &&& is_min_entropy(*old(engine), h as int)
                &&& old(engine).cell(h as int).valid_tiles@.contains(t)
                &&& collapse_commit(*old(engine), *final(engine), h as int, t)
                &&& final(engine).queue.queue@ == old(engine).queue.queue@.push(h)
            }),
        final(engine).spatial_index == old(engine).spatial_index,
        final(engine).last_create_ms == old(engine).last_create_ms,
        final(engine).last_destroy_ms == old(engine).last_destroy_ms,
{
    let ghost table = rules.rule_table();
    if !engine.queue.is_empty() {
        return ;
    }
    let n = engine.cells.len();
    // gather the uncollapsed live cells
    let mut candidates: Vec<usize> = Vec::new();
    let mut i: usize = 0;
    while i < n
        invariant
            i <= n,
            n == engine.cells@.len(),
            forall|j: int|
                0 <= j < candidates@.len() ==> {
                    let c = #[trigger] candidates@[j] as int;
                    engine.live(c) && !engine.cell(c).is_collapsed
                },
            forall|x: int|
                0 <= x < i && #[trigger] engine.live(x) && !engine.cell(x).is_collapsed
                    ==> contains_handle(candidates@, x),
        decreases n - i,
    {
        let ghost before_push = candidates@;
        let is_candidate = match &engine.cells[i] {
            Option::Some(c) => !c.is_collapsed,
            Option::None => false,
        };
        if is_candidate {
            candidates.push(i);
            proof {
                assert(candidates@[candidates@.len() - 1] as int == i as int);
            }
        }
        proof {
            assert forall|x: int|
                0 <= x < i + 1 && #[trigger] engine.live(x) && !engine.cell(
                    x,
                ).is_collapsed implies contains_handle(candidates@, x) by {
                if x < i {
                    assert(contains_handle(before_push, x));
                    let j = choose|j: int|
                        0 <= j < before_push.len() && before_push[j] as int == x;
                    assert(candidates@[j] as int == x);
                }
            }
        }
        i = i + 1;
    }
    if candidates.len() == 0 {
        proof {
            assert forall|h: int| #[trigger] engine.live(h) implies engine.cell(
                h,
            ).is_collapsed by {
                if !engine.cell(h).is_collapsed {
                    assert(contains_handle(candidates@, h));
                }
            }
        }
        return ;
    }
    // the minimal entropy among them
    let first = candidates[0];
    let mut min_entropy: i32 = match &engine.cells[first] {
        Option::Some(c) => c.entropy,
        Option::None => 0,
    };
    let mut k: usize = 1;
    let ghost mut min_at: int = candidates@[0] as int;
    proof {
        assert(engine.cell(min_at).entropy == min_entropy);
    }
    while k < candidates.len()
        invariant
            1 <= k <= candidates@.len(),
            engine.live(min_at) && !engine.cell(min_at).is_collapsed,
            engine.cell(min_at).entropy == min_entropy,
            forall|j: int|
                0 <= j < k ==> min_entropy <= engine.cell(
                    #[trigger] candidates@[j] as int,
                ).entropy,
        decreases candidates@.len() - k,
    {
        let c = candidates[k];
        let e = match &engine.cells[c] {
            Option::Some(cell) => cell.entropy,
            Option::None => 0,
        };
        if e < min_entropy {
            min_entropy = e;
            proof {
                min_at = candidates@[k as int] as int;
            }
        }
        k = k + 1;
    }
    // restrict the pool to cells at the minimum
    let mut pool: Vec<usize> = Vec::new();
    let mut m: usize = 0;
    while m < candidates.len()
        invariant
            m <= candidates@.len(),
            forall|j: int|
                0 <= j < pool@.len() ==> {
                    let c = #[trigger] pool@[j] as int;
                    engine.live(c) && !engine.cell(c).is_collapsed && engine.cell(c).entropy
                        == min_entropy
                },
            forall|j: int|
                0 <= j < m && engine.cell(#[trigger] candidates@[j] as int).entropy == min_entropy
                    ==> pool@.len() > 0,
        decreases candidates@.len() - m,
    {
        let c = candidates[m];
        let e = match &engine.cells[c] {
            Option::Some(cell) => cell.entropy,
            Option::None => 0,
        };
        if e == min_entropy {
            pool.push(c);
        }
        m = m + 1;
    }
    proof {
        let w = choose|j: int| 0 <= j < candidates@.len() && candidates@[j] as int == min_at;
        assert(engine.cell(candidates@[w] as int).entropy == min_entropy);
        assert(pool@.len() > 0);
    }
    // choose one uniformly at random
    let idx64 = random_below(pool.len() as u64);
    let idx = idx64 as usize;
    let chosen = pool[idx];
    let ghost pre = *engine;
    let (cpos, valid_tiles) = match &engine.cells[chosen] {
        Option::Some(c) => (c.position, clone_tiles(&c.valid_tiles)),
        Option::None => ((0i32, 0i32), Vec::new()),
    };
    proof {
        // an uncollapsed cell of a covered, quiet grid has candidates
        assert(engine.cell(chosen as int).valid_tiles@.len() > 0) by {
            if engine.cell(chosen as int).valid_tiles@.len() == 0 {
                assert(engine.in_queue(chosen as int) || contains_handle(
                    Seq::<usize>::empty(),
                    chosen as int,
                ));
            }
        }
        assert(engine.cell(chosen as int).wf());
    }
    if valid_tiles.len() > 0 {
        let tile = get_random_tile(rules, &valid_tiles);
        let committed = Cell {
            is_collapsed: true,
            tile_type: Option::Some(tile),
            entropy: 0,
            valid_tiles,
            position: cpos,
        };
        let ghost committed_snapshot = committed;
        engine.cells[chosen] = Option::Some(committed);
        engine.queue.push_back(chosen);
        proof {
            pre.lemma_wf_update_cell(*engine, chosen as int, committed_snapshot);
            assert(collapse_commit(pre, *engine, chosen as int, tile));
            assert(engine.queue.queue@[engine.queue.queue@.len() - 1] == chosen);
            assert(is_min_entropy(pre, chosen as int)) by {
                assert forall|x: int|
                    #[trigger] pre.live(x) && !pre.cell(x).is_collapsed implies pre.cell(
                    chosen as int,
                ).entropy <= pre.cell(x).entropy by {
                    assert(contains_handle(candidates@, x));
                    let j = choose|j: int|
                        0 <= j < candidates@.len() && candidates@[j] as int == x;
                    assert(min_entropy <= pre.cell(candidates@[j] as int).entropy);
                }
            }
            assert forall|ch: int, nh: int, dd: crate::tiles::Direction|
                #[trigger] engine.constrained(ch, nh, dd) && !engine.pair_ok(table, ch, nh, dd)
                    implies engine.in_queue(ch) || engine.in_queue(nh) || contains_handle(
                Seq::<usize>::empty(),
                ch,
            ) || contains_handle(Seq::<usize>::empty(), nh) by {
                if ch != chosen as int && nh != chosen as int {
                    assert(engine.cell(ch) == pre.cell(ch));
                    assert(engine.cell(nh) == pre.cell(nh));
                    assert(pre.constrained(ch, nh, dd));
                    assert(!pre.pair_ok(table, ch, nh, dd)) by {
                        if pre.pair_ok(table, ch, nh, dd) {
                            assert(engine.pair_ok(table, ch, nh, dd));
                        }
                    }
                    assert(pre.in_queue(ch) || pre.in_queue(nh) || contains_handle(
                        Seq::<usize>::empty(),
                        ch,
                    ) || contains_handle(Seq::<usize>::empty(), nh));
                    assert(pre.queue.queue@.len() == 0);
                    assert(false);
                } else if ch == chosen as int {
                    assert(!engine.cell(ch).is_collapsed);
                    assert(false);
                } else {
                    assert(engine.in_queue(nh));
                }
            }
            assert forall|x: int|
                #[trigger] engine.live(x) && !engine.cell(x).is_collapsed && engine.cell(
                    x,
                ).valid_tiles@.len() == 0 implies engine.in_queue(x) || contains_handle(
                Seq::<usize>::empty(),
                x,
            ) by {
                assert(x != chosen as int);
                assert(engine.cell(x) == pre.cell(x));
                assert(pre.live(x) && !pre.cell(x).is_collapsed && pre.cell(
                    x,
                ).valid_tiles@.len() == 0);
                assert(pre.in_queue(x) || contains_handle(Seq::<usize>::empty(), x));
                assert(false);
            }
        }
    }
}

} // verus!
