//! The streaming policy: creates cells in a square around the observer's
//! grid cell at a throttled interval, and destroys cells beyond the
//! despawn distance at another.

use vstd::prelude::*;

use crate::cell::Cell;
use crate::engine::WfcEngine;
use crate::engine::contains_handle;
use crate::engine::lemma_contains_handle_push;
use crate::engine::pos_in_bounds;
use crate::rules::RuleTable;
use crate::rules::Rules;
use crate::tiles::TileType;

verus! {

/// How often the creation pass may run, in milliseconds.
pub const UPDATE_INTERVAL_MS: u64 = 200;

/// How often the destruction pass may run, in milliseconds.
pub const DESPAWN_INTERVAL_MS: u64 = 1000;

/// World positions are handed to the engine in thousandths of a world
/// unit, within this bound on each component.
pub const WORLD_LIMIT: i64 = 1000000000000;

/// A throttle timestamp never exceeds this, leaving headroom to add an
/// interval without overflow.
pub const TIME_LIMIT: u64 = 0xffffffffffff0000;

/// The observer's world-space position, each component in thousandths of
/// a world unit.
#[derive(Clone, Copy, PartialEq, Eq, Structural, Debug)]
pub struct WorldPosition {
    /// East-west, in milli-units.
    pub x: i64,
    /// Height, in milli-units.
    pub y: i64,
    /// North-south, in milli-units.
    pub z: i64,
}

impl WorldPosition {
    /// All components within `WORLD_LIMIT`.
    pub open spec fn wf(self) -> bool {
        &&& -(WORLD_LIMIT as int) <= (self.x as int) <= (WORLD_LIMIT as int)
        &&& -(WORLD_LIMIT as int) <= (self.y as int) <= (WORLD_LIMIT as int)
        &&& -(WORLD_LIMIT as int) <= (self.z as int) <= (WORLD_LIMIT as int)
    }
}

/// Global settings for world generation behavior.
pub struct GenerationSettings {
    /// How large each cell is in world units.
    pub cell_edge_length: i32,
    /// How many cells the generated square around the observer has on
    /// each edge.
    pub total_cells_on_edge: i32,
    /// The despawn-distance multiplier, in thousandths: cells farther than
    /// `total_cells_on_edge * cell_edge_length * spawn_distance / 1000`
    /// world units from the observer are destroyed.
    pub spawn_distance: u32,
}

impl GenerationSettings {
    /// The bounds under which the streaming arithmetic cannot overflow.
    pub open spec fn wf(self) -> bool {
        &&& 1 <= self.cell_edge_length <= 100000
        &&& 1 <= self.total_cells_on_edge <= 63
        &&& 0 < self.spawn_distance <= 1000000
    }
}

impl Default for GenerationSettings {
    /// Balanced defaults: medium cells, a square of moderate view
    /// distance, and a despawn zone at seven tenths of its width.
    fn default() -> (settings: Self)
        ensures
            settings.wf(),
            settings.cell_edge_length == 9,
            settings.total_cells_on_edge == 17,
            settings.spawn_distance == 700,
    {
        GenerationSettings { cell_edge_length: 9, total_cells_on_edge: 17, spawn_distance: 700 }
    }
}

/// Rounding division of a milli-unit coordinate by a cell edge: the
/// nearest grid line, halves rounding away from zero.
pub open spec fn grid_round(w: int, e: int) -> int
    recommends
        e >= 1,
{
    if w >= 0 {
        (w + e / 2) / e
    } else {
        -(((-w) + e / 2) / e)
    }
}

/// The grid coordinate of the cell containing world coordinate `w_milli`:
/// `round(w / edge_length)` computed in milli-units.
pub open spec fn world_to_grid_spec(w_milli: int, edge: int) -> int {
    grid_round(w_milli, edge * 1000)
}

/// Executable form of `world_to_grid_spec`, bounded well inside the
/// engine's coordinate range.
pub fn world_to_grid(w_milli: i64, edge: i32) -> (g: i32)
    requires
        -(WORLD_LIMIT as int) <= (w_milli as int) <= (WORLD_LIMIT as int),
        1 <= edge <= 100000,
    ensures
        g as int == world_to_grid_spec(w_milli as int, edge as int),
        -1000050000 <= (g as int) <= 1000050000,
{
    let e: i64 = (edge as i64) * 1000;
    let half: i64 = e / 2;
    if w_milli >= 0 {
        let q = (w_milli + half) / e;
        proof {
            lemma_round_quotient_bound(w_milli as int, e as int, q as int);
        }
        q as i32
    } else {
        let q = ((-w_milli) + half) / e;
        proof {
            lemma_round_quotient_bound((-w_milli) as int, e as int, q as int);
        }
        (-q) as i32
    }
}

/// A rounding quotient of a bounded dividend stays within the grid range.
proof fn lemma_round_quotient_bound(w: int, e: int, q: int)
    requires
        0 <= w <= WORLD_LIMIT as int,
        1000 <= e <= 100000000,
        q == (w + e / 2) / e,
    ensures
        0 <= q <= 1000050000,
{
    let a = w + e / 2;
    assert(0 <= a <= 1000050000000int);
    assert(q == a / e);
    assert(q * e + a % e == a) by {
        vstd::arithmetic::div_mod::lemma_fundamental_div_mod(a, e);
    }
    assert(0 <= a % e < e) by {
        vstd::arithmetic::div_mod::lemma_mod_bound(a, e);
    }
    assert(q >= 0) by (nonlinear_arith)
        requires
            q * e + a % e == a,
            0 <= a % e < e,
            a >= 0,
            e >= 1000,
    ;
    assert(q * 1000 <= q * e) by (nonlinear_arith)
        requires
            q >= 0,
            e >= 1000,
    ;
    assert(q * e <= a);
    assert(q * 1000 <= 1000050000000int);
    assert(q <= 1000050000);
}

/// Moving east by exactly one cell edge advances the grid column by one,
/// for observers on the non-negative side. (At a negative half-cell tie
/// the round-half-away-from-zero convention jumps by two columns, so the
/// negative side is excluded.)
pub proof fn lemma_grid_shift_one_edge(w: int, edge: int)
    requires
        0 <= w,
        1 <= edge,
    ensures
        world_to_grid_spec(w + edge * 1000, edge) == world_to_grid_spec(w, edge) + 1,
{
    let e = edge * 1000;
    vstd::arithmetic::div_mod::lemma_div_plus_one(w + e / 2, e);
    assert(w + e + e / 2 == e + (w + e / 2));
}

/// The streamed-fringe law: when the observer's whole previous square is
/// present and the observer has moved east by exactly one cell edge, a
/// creation pass creates cells only in the new fringe column, one past
/// the square's old right edge; the rest of the pass's contract already
/// says the column is filled and nothing older is touched. (An observer
/// crossing the origin at an exact half-cell tie is excluded: there the
/// rounding convention advances the grid column by two.)
pub proof fn lemma_fringe_column(
    a: WfcEngine,
    b: WfcEngine,
    added: Seq<usize>,
    before_obs: WorldPosition,
    observer: WorldPosition,
    settings: GenerationSettings,
    tiles: Seq<TileType>,
)
    requires
        created_square(a, b, added, observer, settings, tiles),
        settings.wf(),
        0 <= before_obs.x,
        observer.x as int == before_obs.x as int + (settings.cell_edge_length as int) * 1000,
        observer.z == before_obs.z,
        forall|p: (i32, i32)|
            #[trigger] in_square(
                p,
                world_to_grid_spec(before_obs.x as int, settings.cell_edge_length as int),
                world_to_grid_spec(before_obs.z as int, settings.cell_edge_length as int),
                (settings.total_cells_on_edge as int) / 2,
            ) ==> a.spatial_index.has(p),
    ensures
        forall|j: int|
            0 <= j < added.len() ==> (#[trigger] b.cell(added[j] as int).position.0 as int)
                == world_to_grid_spec(before_obs.x as int, settings.cell_edge_length as int) + (
            settings.total_cells_on_edge as int) / 2 + 1,
{
    let e = settings.cell_edge_length as int;
    let g1x = world_to_grid_spec(before_obs.x as int, e);
    let g2x = world_to_grid_spec(observer.x as int, e);
    let gz = world_to_grid_spec(observer.z as int, e);
    let half = (settings.total_cells_on_edge as int) / 2;
    lemma_grid_shift_one_edge(before_obs.x as int, e);
    assert(g2x == g1x + 1);
    assert forall|j: int| 0 <= j < added.len() implies (#[trigger] b.cell(
        added[j] as int,
    ).position.0 as int) == g1x + half + 1 by {
        let p = b.cell(added[j] as int).position;
        assert(in_square(p, g2x, gz, half));
        assert(!a.spatial_index.has(p));
        if (p.0 as int) <= g1x + half {
            assert(in_square(p, g1x, gz, half));
            assert(a.spatial_index.has(p));
        }
    }
}

/// The squared world-space distance, in milli-units, between the observer
/// and the center of the cell at grid coordinate `p`.
pub open spec fn dist_sq_milli(observer: WorldPosition, p: (i32, i32), edge: int) -> int {
    let cx = (p.0 as int) * edge * 1000;
    let cz = (p.1 as int) * edge * 1000;
    let dx = observer.x as int - cx;
    let dy = observer.y as int;
    let dz = observer.z as int - cz;
    dx * dx + dy * dy + dz * dz
}

/// The squared despawn distance, in milli-units.
pub open spec fn despawn_sq_milli(settings: GenerationSettings) -> int {
    let t = (settings.total_cells_on_edge as int) * (settings.cell_edge_length as int) * (
    settings.spawn_distance as int);
    t * t
}

/// Whether the cell at `p` lies beyond the despawn distance from the
/// observer.
pub open spec fn beyond_despawn(
    observer: WorldPosition,
    p: (i32, i32),
    settings: GenerationSettings,
) -> bool {
    dist_sq_milli(observer, p, settings.cell_edge_length as int) > despawn_sq_milli(settings)
}

/// Compares the observer-to-cell distance against the despawn distance,
/// both squared in milli-units.
pub fn is_beyond_despawn(
    observer: WorldPosition,
    p: (i32, i32),
    settings: &GenerationSettings,
) -> (far: bool)
    requires
        observer.wf(),
        settings.wf(),
        pos_in_bounds(p),
    ensures
        far == beyond_despawn(observer, p, *settings),
{
    let edge128: i128 = settings.cell_edge_length as i128;
    let px: i128 = p.0 as i128;
    let pz: i128 = p.1 as i128;
    proof {
        assert((-107374182400000int) <= (px as int) * (edge128 as int) <= 107374182400000int)
            by (nonlinear_arith)
            requires
                -1073741824 <= (px as int) <= 1073741824,
                1 <= (edge128 as int) <= 100000,
        ;
        assert((-107374182400000int) <= (pz as int) * (edge128 as int) <= 107374182400000int)
            by (nonlinear_arith)
            requires
                -1073741824 <= (pz as int) <= 1073741824,
                1 <= (edge128 as int) <= 100000,
        ;
    }
    let cx: i128 = px * edge128 * 1000;
    let cz: i128 = pz * edge128 * 1000;
    let dx: i128 = (observer.x as i128) - cx;
    let dy: i128 = observer.y as i128;
    let dz: i128 = (observer.z as i128) - cz;
    proof {
        lemma_square_bound(dx as int, 108374182400000000int);
        lemma_square_bound(dy as int, 108374182400000000int);
        lemma_square_bound(dz as int, 108374182400000000int);
    }
    let d2: i128 = dx * dx + dy * dy + dz * dz;
    let te: i128 = settings.total_cells_on_edge as i128;
    let sd: i128 = settings.spawn_distance as i128;
    proof {
        assert(0 <= (te as int) * (edge128 as int) <= 6300000int) by (nonlinear_arith)
            requires
                1 <= (te as int) <= 63,
                1 <= (edge128 as int) <= 100000,
        ;
        assert(0 <= (te as int) * (edge128 as int) * (sd as int) <= 6300000000000int)
            by (nonlinear_arith)
            requires
                0 <= (te as int) * (edge128 as int) <= 6300000int,
                0 < (sd as int) <= 1000000,
        ;
    }
    let t: i128 = te * edge128 * sd;
    proof {
        lemma_square_bound(t as int, 6300000000000int);
    }
    let thr2: i128 = t * t;
    d2 > thr2
}

/// Whether grid coordinate `p` lies in the square of half-width `half`
/// around (`gx`, `gz`).
pub open spec fn in_square(p: (i32, i32), gx: int, gz: int, half: int) -> bool {
    &&& gx - half <= (p.0 as int) <= gx + half
    &&& gz - half <= (p.1 as int) <= gz + half
}

/// State `b` extends state `a` by exactly the cells of `added`: fresh
/// uncollapsed cells seeded with `tiles`, one per previously vacant
/// coordinate of the observer's square, everything older untouched.
pub open spec fn created_square(
    a: WfcEngine,
    b: WfcEngine,
    added: Seq<usize>,
    observer: WorldPosition,
    settings: GenerationSettings,
    tiles: Seq<TileType>,
) -> bool {
    let gx = world_to_grid_spec(observer.x as int, settings.cell_edge_length as int);
    let gz = world_to_grid_spec(observer.z as int, settings.cell_edge_length as int);
    let half = (settings.total_cells_on_edge as int) / 2;
    &&& b.cells@.len() >= a.cells@.len()
    &&& forall|h: int| 0 <= h < a.cells@.len() ==> b.cells@[h] == a.cells@[h]
    &&& forall|p: (i32, i32)|
        #[trigger] a.spatial_index.has(p) ==> b.spatial_index.has(p) && b.spatial_index.at(p)
            == a.spatial_index.at(p)
    &&& forall|p: (i32, i32)| #[trigger] in_square(p, gx, gz, half) ==> b.spatial_index.has(p)
    &&& forall|p: (i32, i32)|
        #[trigger] b.spatial_index.has(p) ==> a.spatial_index.has(p) || in_square(p, gx, gz, half)
    &&& added.len() == b.cells@.len() - a.cells@.len()
    &&& forall|j: int|
        0 <= j < added.len() ==> {
            let h = #[trigger] added[j] as int;
            &&& a.cells@.len() <= h < b.cells@.len()
            &&& b.live(h)
            &&& !b.cell(h).is_collapsed
            &&& b.cell(h).tile_type is None
            &&& b.cell(h).valid_tiles@ == tiles
            &&& b.cell(h).entropy == tiles.len()
            &&& in_square(b.cell(h).position, gx, gz, half)
            &&& !a.spatial_index.has(b.cell(h).position)
        }
    &&& forall|h: int| a.cells@.len() <= h < b.cells@.len() ==> contains_handle(added, h)
}

/// The creation pass: no more often than every `UPDATE_INTERVAL_MS`,
/// creates a cell, seeded with the catalog's full tile list, at every
/// coordinate of the observer's square that the spatial index lacks, and
/// registers it there in the same step. Returns the new handles, to be
/// handed to the propagation engine's initialization before this tick
/// propagates.
#[verifier::loop_isolation(false)]
pub fn create_cells<R: Rules>(
    engine: &mut WfcEngine,
    observer: WorldPosition,
    now_ms: u64,
    rules: &R,
    settings: &GenerationSettings,
) -> (added: Vec<usize>)
    requires
        old(engine).wf(),
        rules.wf(),
        settings.wf(),
        observer.wf(),
        old(engine).queue_covers(rules.rule_table()),
        now_ms <= TIME_LIMIT,
    ensures
        final(engine).wf(),
        final(engine).covered_except(rules.rule_table(), added@),
        final(engine).queue == old(engine).queue,
        final(engine).last_destroy_ms == old(engine).last_destroy_ms,
        (now_ms as int) < (old(engine).last_create_ms as int) + (UPDATE_INTERVAL_MS as int) ==> (
        *final(engine) == *old(engine) && added@.len() == 0),
        (now_ms as int) >= (old(engine).last_create_ms as int) + (UPDATE_INTERVAL_MS as int) ==> (
        created_square(*old(engine), *final(engine), added@, observer, *settings, rules.tiles_seq())
            && final(engine).last_create_ms == now_ms),
{
    let ghost table = rules.rule_table();
    if now_ms < UPDATE_INTERVAL_MS || now_ms - UPDATE_INTERVAL_MS < engine.last_create_ms {
        return Vec::new();
    }
    proof {
        rules.wf_implies();
    }
    let gx = world_to_grid(observer.x, settings.cell_edge_length);
    let gz = world_to_grid(observer.z, settings.cell_edge_length);
    let half = settings.total_cells_on_edge / 2;
    engine.last_create_ms = now_ms;
    let ghost base = *engine;
    proof {
        old(engine).lemma_wf_same_cells(*engine);
        assert forall|ch: int, nh: int, dd: crate::tiles::Direction|
            #[trigger] engine.constrained(ch, nh, dd) && !engine.pair_ok(table, ch, nh, dd)
                implies engine.in_queue(ch) || engine.in_queue(nh) by {
            assert(old(engine).constrained(ch, nh, dd));
            assert(!old(engine).pair_ok(table, ch, nh, dd)) by {
                if old(engine).pair_ok(table, ch, nh, dd) {
                    assert(engine.pair_ok(table, ch, nh, dd));
                }
            }
            assert(!contains_handle(Seq::<usize>::empty(), ch));
            assert(!contains_handle(Seq::<usize>::empty(), nh));
        }
        assert forall|x: int|
            #[trigger] engine.live(x) && !engine.cell(x).is_collapsed && engine.cell(
                x,
            ).valid_tiles@.len() == 0 implies engine.in_queue(x) by {
            assert(old(engine).live(x) && !old(engine).cell(x).is_collapsed && old(engine).cell(
                x,
            ).valid_tiles@.len() == 0);
            assert(!contains_handle(Seq::<usize>::empty(), x));
        }
    }
    let mut added: Vec<usize> = Vec::new();
    let mut xi: i64 = (gx as i64) - (half as i64);
    while xi <= (gx as i64) + (half as i64)
        invariant
            (gx as i64) - (half as i64) <= xi <= (gx as i64) + (half as i64) + 1,
            engine.wf(),
            engine.queue == base.queue,
            engine.last_create_ms == now_ms,
            engine.last_destroy_ms == base.last_destroy_ms,
            engine.cells@.len() >= base.cells@.len(),
            forall|h: int| 0 <= h < base.cells@.len() ==> engine.cells@[h] == base.cells@[h],
            forall|p: (i32, i32)|
                #[trigger] base.spatial_index.has(p) ==> engine.spatial_index.has(p)
                    && engine.spatial_index.at(p) == base.spatial_index.at(p),
            forall|p: (i32, i32)|
                #[trigger] engine.spatial_index.has(p) ==> base.spatial_index.has(p) || in_square(
                    p,
                    gx as int,
                    gz as int,
                    half as int,
                ),
            forall|p: (i32, i32)|
                in_square(p, gx as int, gz as int, half as int) && (p.0 as int) < xi as int
                    ==> #[trigger] engine.spatial_index.has(p),
            added@.len() == engine.cells@.len() - base.cells@.len(),
            forall|j: int|
                0 <= j < added@.len() ==> {
                    let h = #[trigger] added@[j] as int;
                    &&& base.cells@.len() <= h < engine.cells@.len()
                    &&& engine.live(h)
                    &&& !engine.cell(h).is_collapsed
                    &&& engine.cell(h).tile_type is None
                    &&& engine.cell(h).valid_tiles@ == rules.tiles_seq()
                    &&& engine.cell(h).entropy == rules.tiles_seq().len()
                    &&& in_square(engine.cell(h).position, gx as int, gz as int, half as int)
                    &&& !base.spatial_index.has(engine.cell(h).position)
                },
            forall|h: int|
                base.cells@.len() <= h < engine.cells@.len() ==> contains_handle(added@, h),
            engine.covered_except(table, added@),
        decreases (gx as i64) + (half as i64) + 1 - xi,
    {
        let mut zi: i64 = (gz as i64) - (half as i64);
        while zi <= (gz as i64) + (half as i64)
            invariant
                (gz as i64) - (half as i64) <= zi <= (gz as i64) + (half as i64) + 1,
                (gx as i64) - (half as i64) <= xi <= (gx as i64) + (half as i64),
                engine.wf(),
                engine.queue == base.queue,
                engine.last_create_ms == now_ms,
                engine.last_destroy_ms == base.last_destroy_ms,
                engine.cells@.len() >= base.cells@.len(),
                forall|h: int| 0 <= h < base.cells@.len() ==> engine.cells@[h] == base.cells@[h],
                forall|p: (i32, i32)|
                    #[trigger] base.spatial_index.has(p) ==> engine.spatial_index.has(p)
                        && engine.spatial_index.at(p) == base.spatial_index.at(p),
                forall|p: (i32, i32)|
                    #[trigger] engine.spatial_index.has(p) ==> base.spatial_index.has(p)
                        || in_square(p, gx as int, gz as int, half as int),
                forall|p: (i32, i32)|
                    in_square(p, gx as int, gz as int, half as int) && (p.0 as int) < xi as int
                        ==> #[trigger] engine.spatial_index.has(p),
                forall|p: (i32, i32)|
                    in_square(p, gx as int, gz as int, half as int) && (p.0 as int) == xi as int
                        && (p.1 as int) < zi as int ==> #[trigger] engine.spatial_index.has(p),
                added@.len() == engine.cells@.len() - base.cells@.len(),
                forall|j: int|
                    0 <= j < added@.len() ==> {
                        let h = #[trigger] added@[j] as int;
                        &&& base.cells@.len() <= h < engine.cells@.len()
                        &&& engine.live(h)
                        &&& !engine.cell(h).is_collapsed
                        &&& engine.cell(h).tile_type is None
                        &&& engine.cell(h).valid_tiles@ == rules.tiles_seq()
                        &&& engine.cell(h).entropy == rules.tiles_seq().len()
                        &&& in_square(engine.cell(h).position, gx as int, gz as int, half as int)
                        &&& !base.spatial_index.has(engine.cell(h).position)
                    },
                forall|h: int|
                    base.cells@.len() <= h < engine.cells@.len() ==> contains_handle(added@, h),
                engine.covered_except(table, added@),
            decreases (gz as i64) + (half as i64) + 1 - zi,
        {
            let p: (i32, i32) = (xi as i32, zi as i32);
            if !engine.spatial_index.contains_pos(p) {
                let ghost before = *engine;
                let ghost before_added = added@;
                let hnew = engine.cells.len();
                let cell = Cell::new(rules.all_tiles().as_slice(), p);
                let ghost cell_snapshot = cell;
                engine.cells.push(Option::Some(cell));
                engine.spatial_index.insert_pos(p, hnew);
                added.push(hnew);
                proof {
                    before.lemma_wf_spawn(*engine, cell_snapshot, hnew);
                    assert(added@[added@.len() - 1] as int == hnew as int);
                    assert forall|j: int| 0 <= j < added@.len() implies {
                        let h = #[trigger] added@[j] as int;
                        &&& base.cells@.len() <= h < engine.cells@.len()
                        &&& engine.live(h)
                        &&& !engine.cell(h).is_collapsed
                        &&& engine.cell(h).tile_type is None
                        &&& engine.cell(h).valid_tiles@ == rules.tiles_seq()
                        &&& engine.cell(h).entropy == rules.tiles_seq().len()
                        &&& in_square(engine.cell(h).position, gx as int, gz as int, half as int)
                        &&& !base.spatial_index.has(engine.cell(h).position)
                    } by {
                        if j < added@.len() - 1 {
                            assert(added@[j] == before_added[j]);
                            assert(before.live(added@[j] as int));
                        }
                    }
                    assert forall|h: int|
                        base.cells@.len() <= h < engine.cells@.len() implies contains_handle(
                        added@,
                        h,
                    ) by {
                        if h < before.cells@.len() {
                            lemma_contains_handle_push(before_added, hnew, h);
                        } else {
                            assert(added@[added@.len() - 1] as int == h);
                        }
                    }
                    assert forall|ch: int, nh: int, dd: crate::tiles::Direction|
                        #[trigger] engine.constrained(ch, nh, dd) && !engine.pair_ok(
                            table,
                            ch,
                            nh,
                            dd,
                        ) implies engine.in_queue(ch) || engine.in_queue(nh) || contains_handle(
                        added@,
                        ch,
                    ) || contains_handle(added@, nh) by {
                        if nh == hnew as int {
                            assert(!engine.cell(nh).is_collapsed);
                            assert(false);
                        } else if ch == hnew as int {
                            assert(contains_handle(added@, ch));
                        } else {
                            assert(engine.cell(ch) == before.cell(ch));
                            assert(engine.cell(nh) == before.cell(nh));
                            assert(before.constrained(ch, nh, dd));
                            assert(!before.pair_ok(table, ch, nh, dd)) by {
                                if before.pair_ok(table, ch, nh, dd) {
                                    assert(engine.pair_ok(table, ch, nh, dd));
                                }
                            }
                            assert(before.in_queue(ch) || before.in_queue(nh) || contains_handle(
                                before_added,
                                ch,
                            ) || contains_handle(before_added, nh));
                            lemma_contains_handle_push(before_added, hnew, ch);
                            lemma_contains_handle_push(before_added, hnew, nh);
                        }
                    }
                    assert forall|x: int|
                        #[trigger] engine.live(x) && !engine.cell(x).is_collapsed && engine.cell(
                            x,
                        ).valid_tiles@.len() == 0 implies engine.in_queue(x) || contains_handle(
                        added@,
                        x,
                    ) by {
                        if x == hnew as int {
                            assert(engine.cell(x).valid_tiles@.len() > 0);
                            assert(false);
                        } else {
                            assert(before.live(x) && !before.cell(x).is_collapsed && before.cell(
                                x,
                            ).valid_tiles@.len() == 0);
                            assert(before.in_queue(x) || contains_handle(before_added, x));
                            lemma_contains_handle_push(before_added, hnew, x);
                        }
                    }
                }
            }
            proof {
                assert forall|q: (i32, i32)|
                    in_square(q, gx as int, gz as int, half as int) && (q.0 as int) == xi as int
                        && (q.1 as int) < zi + 1 implies #[trigger] engine.spatial_index.has(
                    q,
                ) by {
                    if (q.1 as int) == zi as int {
                        assert(q == p);
                    }
                }
            }
            zi = zi + 1;
        }
        proof {
            assert forall|q: (i32, i32)|
                in_square(q, gx as int, gz as int, half as int) && (q.0 as int) < xi + 1
                    implies #[trigger] engine.spatial_index.has(q) by {}
        }
        xi = xi + 1;
    }
    added
}

/// The destruction pass: no more often than every `DESPAWN_INTERVAL_MS`,
/// destroys every live cell whose world-space distance from the observer
/// exceeds the despawn distance, removing it from the spatial index in
/// the same step.
#[verifier::loop_isolation(false)]
pub fn destroy_cells(
    engine: &mut WfcEngine,
    observer: WorldPosition,
    now_ms: u64,
    settings: &GenerationSettings,
)
    requires
        old(engine).wf(),
        settings.wf(),
        observer.wf(),
        now_ms <= TIME_LIMIT,
    ensures
        final(engine).wf(),
        final(engine).queue == old(engine).queue,
        final(engine).last_create_ms == old(engine).last_create_ms,
        final(engine).cells@.len() == old(engine).cells@.len(),
        forall|h: int|
            #[trigger] final(engine).live(h) ==> old(engine).live(h) && final(engine).cells@[h]
                == old(engine).cells@[h],
        forall|table: RuleTable, extra: Seq<usize>|
            old(engine).covered_except(table, extra) ==> final(engine).covered_except(
                table,
                extra,
            ),
        (now_ms as int) < (old(engine).last_destroy_ms as int) + (DESPAWN_INTERVAL_MS as int) ==> (
        *final(engine) == *old(engine)),
        (now_ms as int) >= (old(engine).last_destroy_ms as int) + (DESPAWN_INTERVAL_MS as int)
            ==> (final(engine).last_destroy_ms == now_ms && (forall|h: int|
            #[trigger] old(engine).live(h) ==> (final(engine).live(h) <==> !beyond_despawn(
                observer,
                old(engine).cell(h).position,
                *settings,
            )))),
{
    if now_ms < DESPAWN_INTERVAL_MS || now_ms - DESPAWN_INTERVAL_MS < engine.last_destroy_ms {
        return ;
    }
    engine.last_destroy_ms = now_ms;
    let ghost base = *engine;
    proof {
        old(engine).lemma_wf_same_cells(*engine);
    }
    let n = engine.cells.len();
    let mut h: usize = 0;
    while h < n
        invariant
            h <= n,
            n == engine.cells@.len(),
            n == base.cells@.len(),
            engine.wf(),
            engine.queue == base.queue,
            engine.last_create_ms == base.last_create_ms,
            engine.last_destroy_ms == now_ms,
            forall|x: int|
                #[trigger] engine.live(x) ==> base.live(x) && engine.cells@[x] == base.cells@[x],
            forall|x: int|
                0 <= x < h ==> (#[trigger] engine.live(x) <==> (base.live(x) && !beyond_despawn(
                    observer,
                    base.cell(x).position,
                    *settings,
                ))),
            forall|x: int|
                h <= x < n ==> #[trigger] engine.cells@[x] == base.cells@[x],
        decreases n - h,
    {
        let ghost before = *engine;
        let live_position: Option<(i32, i32)> = match &engine.cells[h] {
            Option::Some(c) => Option::Some(c.position),
            Option::None => Option::None,
        };
        match live_position {
            Option::Some(pos) => {
                proof {
                    assert(engine.live(h as int));
                    assert(crate::engine::pos_in_bounds(pos));
                }
                if is_beyond_despawn(observer, pos, settings) {
                    engine.cells[h] = Option::None;
                    engine.spatial_index.remove_pos(pos);
                    proof {
                        before.lemma_wf_despawn(*engine, h as int);
                    }
                }
            },
            Option::None => {},
        }
        proof {
            assert forall|x: int|
                0 <= x < h + 1 implies (engine.live(x) <==> (base.live(x) && !beyond_despawn(
                observer,
                base.cell(x).position,
                *settings,
            ))) by {
                if x < h {
                    assert(before.live(x) <==> (base.live(x) && !beyond_despawn(
                        observer,
                        base.cell(x).position,
                        *settings,
                    )));
                    if engine.live(x) {
                        assert(before.live(x));
                    }
                    if before.live(x) {
                        assert(engine.cells@[x] == before.cells@[x]);
                    }
                }
            }
        }
        h = h + 1;
    }
    proof {
        assert forall|table: RuleTable, extra: Seq<usize>|
            old(engine).covered_except(table, extra) implies engine.covered_except(
            table,
            extra,
        ) by {
            assert forall|ch: int, nh: int, dd: crate::tiles::Direction|
                #[trigger] engine.constrained(ch, nh, dd) && !engine.pair_ok(table, ch, nh, dd)
                    implies engine.in_queue(ch) || engine.in_queue(nh) || contains_handle(
                extra,
                ch,
            ) || contains_handle(extra, nh) by {
                assert(engine.cells@[ch] == base.cells@[ch]);
                assert(engine.cells@[nh] == base.cells@[nh]);
                assert(old(engine).constrained(ch, nh, dd));
                assert(!old(engine).pair_ok(table, ch, nh, dd)) by {
                    if old(engine).pair_ok(table, ch, nh, dd) {
                        assert(engine.pair_ok(table, ch, nh, dd));
                    }
                }
            }
            assert forall|x: int|
                #[trigger] engine.live(x) && !engine.cell(x).is_collapsed && engine.cell(
                    x,
                ).valid_tiles@.len() == 0 implies engine.in_queue(x) || contains_handle(
                extra,
                x,
            ) by {
                assert(old(engine).live(x) && !old(engine).cell(x).is_collapsed && old(
                    engine,
                ).cell(x).valid_tiles@.len() == 0);
            }
        }
    }
}

/// A square of a bounded value is bounded by the square of the bound.
proof fn lemma_square_bound(a: int, b: int)
    requires
        -b <= a <= b,
        0 <= b,
    ensures
        0 <= a * a <= b * b,
{
    assert(0 <= a * a <= b * b) by (nonlinear_arith)
        requires
            -b <= a <= b,
            0 <= b,
    ;
}

} // verus!
