//! The propagation engine: narrows neighboring cells' candidate sets
//! according to the adjacency rules, queue-driven, until the grid is
//! locally arc-consistent.

use vstd::prelude::*;

use crate::cell::Cell;
use crate::engine::WfcEngine;
use crate::engine::contains_handle;
use crate::engine::is_neighbor;
use crate::rules::RuleTable;
use crate::rules::Rules;
use crate::seq_facts::count_if;
use crate::seq_facts::lemma_count_if_bounds;
use crate::seq_facts::lemma_count_if_update;
use crate::seq_facts::lemma_filter_all_fail;
use crate::seq_facts::lemma_filter_all_pass;
use crate::seq_facts::lemma_filter_contains_iff;
use crate::seq_facts::lemma_filter_in_original;
use crate::seq_facts::lemma_filter_same_len_same_seq;
use crate::seq_facts::lemma_filter_step;
use crate::seq_facts::lemma_retained_all;
use crate::seq_facts::lemma_retained_as_filter;
use crate::seq_facts::lemma_retained_chain_kept;
use crate::seq_facts::retained;
use crate::tiles::Direction;
use crate::tiles::TileType;
use crate::tiles::all_directions;
use crate::tiles::clone_tiles;
use crate::tiles::get_opposite_direction;
use crate::tiles::opposite_spec;

verus! {

broadcast use vstd::seq_lib::group_filter_ensures;

/// Whether `tiles` holds `tile`.
pub fn tiles_contain(tiles: &Vec<TileType>, tile: TileType) -> (found: bool)
    ensures
        found == tiles@.contains(tile),
{
    let mut i: usize = 0;
    while i < tiles.len()
        invariant
            i <= tiles@.len(),
            forall|j: int| 0 <= j < i ==> tiles@[j] != tile,
        decreases tiles@.len() - i,
    {
        if tiles[i] == tile {
            return true;
        }
        i = i + 1;
    }
    false
}

/// The constraint a collapsed `neighbor_tile` puts along `direction`: only
/// the tiles its rule row lists may stay; a missing row keeps everything.
pub open spec fn allowed_by(table: RuleTable, neighbor_tile: TileType, direction: Direction) -> spec_fn(
    TileType,
) -> bool {
    |tile: TileType| table.allows(neighbor_tile, direction, tile)
}

/// Filters `valid_tiles` down to the tiles allowed beside a collapsed
/// neighbor holding `neighbor_tile`, where `direction` points from that
/// neighbor toward the cell being filtered.
pub fn filter_valid_tiles<R: Rules>(
    valid_tiles: &mut Vec<TileType>,
    neighbor_tile: TileType,
    direction: Direction,
    rules: &R,
)
    requires
        rules.wf(),
    ensures
        final(valid_tiles)@ == old(valid_tiles)@.filter(
            allowed_by(rules.rule_table(), neighbor_tile, direction),
        ),
        final(valid_tiles)@.len() <= old(valid_tiles)@.len(),
{
    proof {
        rules.wf_implies();
    }
    let ghost pred = allowed_by(rules.rule_table(), neighbor_tile, direction);
    let table = rules.allowed_neighbors();
    match table.get(neighbor_tile, direction) {
        Option::None => {
            proof {
                lemma_filter_all_pass(valid_tiles@, pred);
            }
        },
        Option::Some(allowed_tiles) => {
            let mut kept: Vec<TileType> = Vec::new();
            let mut i: usize = 0;
            while i < valid_tiles.len()
                invariant
                    i <= valid_tiles@.len(),
                    rules.wf(),
                    *table == rules.rule_table(),
                    rules.rule_table().entry(neighbor_tile, direction) == Option::Some(
                        allowed_tiles@,
                    ),
                    pred == allowed_by(rules.rule_table(), neighbor_tile, direction),
                    kept@ == valid_tiles@.subrange(0, i as int).filter(pred),
                decreases valid_tiles@.len() - i,
            {
                proof {
                    lemma_filter_step(valid_tiles@, pred, i as int);
                }
                if tiles_contain(allowed_tiles, valid_tiles[i]) {
                    kept.push(valid_tiles[i]);
                }
                i = i + 1;
            }
            proof {
                assert(valid_tiles@.subrange(0, valid_tiles@.len() as int) =~= valid_tiles@);
            }
            *valid_tiles = kept;
        },
    }
}

/// Whether the live cell at coordinate `p` shifted by `d` exists and is
/// collapsed.
pub open spec fn has_collapsed_neighbor_at(engine: WfcEngine, p: (i32, i32), d: Direction) -> bool {
    exists|nh: int|
        #[trigger] engine.live(nh) && is_neighbor(p, d, engine.cell(nh).position) && engine.cell(
            nh,
        ).is_collapsed
}

/// Whether the initialization step enqueues the cell at handle `h`: it is
/// live and some neighbor coordinate holds a collapsed live cell.
pub open spec fn wants_enqueue(eng: WfcEngine, h: usize) -> bool {
    eng.live(h as int) && exists|dd: Direction|
        #[trigger] has_collapsed_neighbor_at(eng, eng.cell(h as int).position, dd)
}

/// Having a collapsed neighbor depends only on the cells.
proof fn lemma_neighbor_scan_same_cells(a: WfcEngine, b: WfcEngine, p: (i32, i32), dd: Direction)
    requires
        b.cells@ == a.cells@,
    ensures
        has_collapsed_neighbor_at(a, p, dd) == has_collapsed_neighbor_at(b, p, dd),
{
    if has_collapsed_neighbor_at(a, p, dd) {
        let nh = choose|nh: int|
            #[trigger] a.live(nh) && is_neighbor(p, dd, a.cell(nh).position) && a.cell(
                nh,
            ).is_collapsed;
        assert(b.live(nh) && is_neighbor(p, dd, b.cell(nh).position) && b.cell(nh).is_collapsed);
    }
    if has_collapsed_neighbor_at(b, p, dd) {
        let nh = choose|nh: int|
            #[trigger] b.live(nh) && is_neighbor(p, dd, b.cell(nh).position) && b.cell(
                nh,
            ).is_collapsed;
        assert(a.live(nh) && is_neighbor(p, dd, a.cell(nh).position) && a.cell(nh).is_collapsed);
    }
}

/// The opposite direction's delta is the negation, taking the opposite
/// twice comes back, and equal deltas mean equal directions.
proof fn lemma_direction_facts(d: Direction)
    ensures
        opposite_spec(d).delta_spec().0 == -d.delta_spec().0,
        opposite_spec(d).delta_spec().1 == -d.delta_spec().1,
        opposite_spec(opposite_spec(d)) == d,
        forall|d1: Direction, d2: Direction|
            #[trigger] d1.delta_spec() == #[trigger] d2.delta_spec() ==> d1 == d2,
{
    assert forall|d1: Direction, d2: Direction|
        #[trigger] d1.delta_spec() == #[trigger] d2.delta_spec() implies d1 == d2 by {
        match d1 {
            Direction::Front => {},
            Direction::Back => {},
            Direction::Right => {},
            Direction::Left => {},
        }
    }
}

/// Hands each newly created cell to the propagation engine: a cell with at
/// least one collapsed live neighbor is enqueued, so that it is constrained
/// before it can be collapsed. Cells without collapsed neighbors need no
/// re-evaluation.
pub fn initialize_new_cells<R: Rules>(engine: &mut WfcEngine, added: &Vec<usize>, rules: &R)
    requires
        old(engine).wf(),
        rules.wf(),
        old(engine).covered_except(rules.rule_table(), added@),
        forall|i: int|
            0 <= i < added@.len() ==> {
                let h = #[trigger] added@[i] as int;
                old(engine).live(h) ==> !old(engine).cell(h).is_collapsed && old(engine).cell(
                    h,
                ).valid_tiles@.len() > 0
            },
    ensures
        final(engine).wf(),
        final(engine).queue_covers(rules.rule_table()),
        final(engine).cells@ == old(engine).cells@,
        final(engine).spatial_index == old(engine).spatial_index,
        final(engine).last_create_ms == old(engine).last_create_ms,
        final(engine).last_destroy_ms == old(engine).last_destroy_ms,
        forall|h: int| old(engine).in_queue(h) ==> final(engine).in_queue(h),
        final(engine).queue.queue@ == old(engine).queue.queue@ + added@.filter(
            |hh: usize| wants_enqueue(*old(engine), hh),
        ),
{
    let ghost table = rules.rule_table();
    let ghost enqueue_pred = |hh: usize| wants_enqueue(*old(engine), hh);
    proof {
        assert(added@.skip(0) =~= added@);
        assert(added@.subrange(0, 0).filter(enqueue_pred) =~= Seq::<usize>::empty());
        assert(engine.queue.queue@ =~= old(engine).queue.queue@ + added@.subrange(0, 0).filter(
            enqueue_pred,
        ));
    }
    let directions = all_directions();
    let mut k: usize = 0;
    while k < added.len()
        invariant
            k <= added@.len(),
            engine.wf(),
            rules.wf(),
            directions@ =~= seq![
                Direction::Front,
                Direction::Back,
                Direction::Right,
                Direction::Left,
            ],
            table == rules.rule_table(),
            engine.cells@ == old(engine).cells@,
            engine.spatial_index == old(engine).spatial_index,
            engine.last_create_ms == old(engine).last_create_ms,
            engine.last_destroy_ms == old(engine).last_destroy_ms,
            forall|h: int| old(engine).in_queue(h) ==> engine.in_queue(h),
            enqueue_pred == (|hh: usize| wants_enqueue(*old(engine), hh)),
            engine.queue.queue@ == old(engine).queue.queue@ + added@.subrange(0, k as int).filter(
                enqueue_pred,
            ),
            forall|i: int|
                0 <= i < added@.len() ==> {
                    let h = #[trigger] added@[i] as int;
                    engine.live(h) ==> !engine.cell(h).is_collapsed && engine.cell(
                        h,
                    ).valid_tiles@.len() > 0
                },
            engine.covered_except(table, added@.skip(k as int)),
        decreases added@.len() - k,
    {
        let ghost pre_loop = *engine;
        let h = added[k];
        proof {
            assert(added@[k as int] == h);
        }
        let cell_pos_found: Option<(i32, i32)> = if h < engine.cells.len() {
            match &engine.cells[h] {
                Option::Some(c) => Option::Some(c.position),
                Option::None => Option::None,
            }
        } else {
            Option::None
        };
        if cell_pos_found.is_none() {
            // the cell was destroyed before this tick initialized it
            proof {
                let rest = added@.skip(k as int + 1);
                let prev = added@.skip(k as int);
                assert(!engine.live(h as int));
                assert forall|ch: int, nh: int, dd: Direction|
                    #[trigger] engine.constrained(ch, nh, dd) && !engine.pair_ok(
                        table,
                        ch,
                        nh,
                        dd,
                    ) implies engine.in_queue(ch) || engine.in_queue(nh) || contains_handle(
                    rest,
                    ch,
                ) || contains_handle(rest, nh) by {
                    if !engine.in_queue(ch) && !engine.in_queue(nh) {
                        assert(contains_handle(prev, ch) || contains_handle(prev, nh));
                        let x: int = if contains_handle(prev, ch) {
                            ch
                        } else {
                            nh
                        };
                        let i = choose|i: int| 0 <= i < prev.len() && prev[i] as int == x;
                        if i == 0 {
                            assert(x == h as int);
                            assert(engine.live(x));
                            assert(false);
                        } else {
                            assert(rest[i - 1] == prev[i]);
                            assert(contains_handle(rest, x));
                        }
                    }
                }
                assert forall|x: int|
                    #[trigger] engine.live(x) && !engine.cell(x).is_collapsed && engine.cell(
                        x,
                    ).valid_tiles@.len() == 0 implies engine.in_queue(x) || contains_handle(
                    rest,
                    x,
                ) by {
                    if !engine.in_queue(x) {
                        assert(contains_handle(prev, x));
                        let i = choose|i: int| 0 <= i < prev.len() && prev[i] as int == x;
                        if i == 0 {
                            assert(x == h as int);
                            assert(false);
                        } else {
                            assert(rest[i - 1] == prev[i]);
                            assert(contains_handle(rest, x));
                        }
                    }
                }
            }
            proof {
                assert(!old(engine).live(h as int));
                assert(!enqueue_pred(added@[k as int]));
                lemma_filter_step(added@, enqueue_pred, k as int);
                assert(engine.queue.queue@ == old(engine).queue.queue@ + added@.subrange(
                    0,
                    k as int + 1,
                ).filter(enqueue_pred));
            }
            k = k + 1;
            continue ;
        }
        let cell_pos: (i32, i32) = match cell_pos_found {
            Option::Some(p) => p,
            Option::None => (0i32, 0i32),
        };
        proof {
            assert(engine.live(h as int));
        }
        let mut d: usize = 0;
        let mut enqueued = false;
        while d < directions.len()
            invariant
                d <= directions@.len(),
                directions@ =~= seq![
                    Direction::Front,
                    Direction::Back,
                    Direction::Right,
                    Direction::Left,
                ],
                engine.cells@ == pre_loop.cells@,
                engine.spatial_index == pre_loop.spatial_index,
                engine.last_create_ms == pre_loop.last_create_ms,
                engine.last_destroy_ms == pre_loop.last_destroy_ms,
                pre_loop.wf(),
                engine.wf(),
                !enqueued ==> engine.queue == pre_loop.queue,
                enqueued ==> engine.queue.queue@ == pre_loop.queue.queue@.push(h),
                enqueued ==> (exists|dd: Direction|
                    #[trigger] has_collapsed_neighbor_at(*engine, cell_pos, dd)),
                engine.live(h as int),
                engine.cell(h as int).position == cell_pos,
                !enqueued ==> forall|j: int|
                    0 <= j < d ==> !has_collapsed_neighbor_at(*engine, cell_pos, directions@[j]),
            decreases directions@.len() - d,
        {
            let dir = directions[d];
            let (dx, dz) = dir.delta();
            proof {
                assert(engine.cells_wf());
                assert(engine.live(h as int));
                assert(crate::engine::pos_in_bounds(cell_pos));
            }
            let neighbor_pos = (cell_pos.0 + dx, cell_pos.1 + dz);
            if !enqueued {
                let mut found_nh: Option<usize> = Option::None;
                match engine.spatial_index.get_pos(neighbor_pos) {
                    Option::Some(nh) => {
                        match &engine.cells[nh] {
                            Option::Some(c) => {
                                if c.is_collapsed {
                                    found_nh = Option::Some(nh);
                                }
                            },
                            Option::None => {},
                        }
                    },
                    Option::None => {},
                }
                if found_nh.is_some() {
                    let ghost before_push = *engine;
                    engine.queue.push_back(h);
                    enqueued = true;
                    proof {
                        before_push.lemma_wf_same_cells(*engine);
                        assert(engine.queue.queue@[engine.queue.queue@.len() - 1] == h);
                        let nh = found_nh->0;
                        assert(engine.live(nh as int) && engine.cell(nh as int).is_collapsed);
                        assert(engine.cell(nh as int).position == neighbor_pos);
                        assert(is_neighbor(cell_pos, dir, engine.cell(nh as int).position));
                        assert(has_collapsed_neighbor_at(*engine, cell_pos, dir));
                    }
                } else {
                    proof {
                        assert forall|j: int| 0 <= j < d + 1 implies !has_collapsed_neighbor_at(
                            *engine,
                            cell_pos,
                            directions@[j],
                        ) by {
                            if j == d {
                                assert forall|nh: int|
                                    #[trigger] engine.live(nh) && is_neighbor(
                                        cell_pos,
                                        dir,
                                        engine.cell(nh).position,
                                    ) implies !engine.cell(nh).is_collapsed by {
                                    let q = engine.cell(nh).position;
                                    assert(q.0 == neighbor_pos.0 && q.1 == neighbor_pos.1);
                                    assert(q == neighbor_pos);
                                    assert(engine.spatial_index.has(q));
                                    assert(engine.spatial_index.at(q) as int == nh);
                                }
                            }
                        }
                    }
                }
            }
            d = d + 1;
        }
        proof {
            let rest = added@.skip(k as int + 1);
            assert forall|x: int| old(engine).in_queue(x) implies engine.in_queue(x) by {
                lemma_in_queue_monotone(pre_loop, *engine, x, h, enqueued);
            }
            lemma_filter_step(added@, enqueue_pred, k as int);
            if enqueued {
                let dd = choose|dd: Direction|
                    #[trigger] has_collapsed_neighbor_at(*engine, cell_pos, dd);
                lemma_neighbor_scan_same_cells(*engine, *old(engine), cell_pos, dd);
                assert(old(engine).cell(h as int).position == cell_pos);
                assert(has_collapsed_neighbor_at(*old(engine), cell_pos, dd));
                assert(wants_enqueue(*old(engine), h));
                assert(enqueue_pred(added@[k as int]));
                assert(engine.queue.queue@ == (old(engine).queue.queue@ + added@.subrange(
                    0,
                    k as int,
                ).filter(enqueue_pred)).push(h));
                assert(engine.queue.queue@ =~= old(engine).queue.queue@ + added@.subrange(
                    0,
                    k as int + 1,
                ).filter(enqueue_pred));
            } else {
                assert forall|dd: Direction| !has_collapsed_neighbor_at(
                    *old(engine),
                    cell_pos,
                    dd,
                ) by {
                    lemma_neighbor_scan_same_cells(*engine, *old(engine), cell_pos, dd);
                    match dd {
                        Direction::Front => {
                            assert(directions@[0] == dd);
                        },
                        Direction::Back => {
                            assert(directions@[1] == dd);
                        },
                        Direction::Right => {
                            assert(directions@[2] == dd);
                        },
                        Direction::Left => {
                            assert(directions@[3] == dd);
                        },
                    }
                    assert(!has_collapsed_neighbor_at(*engine, cell_pos, dd));
                }
                assert(!enqueue_pred(added@[k as int])) by {
                    if wants_enqueue(*old(engine), h) {
                        let dd = choose|dd: Direction|
                            #[trigger] has_collapsed_neighbor_at(
                                *old(engine),
                                old(engine).cell(h as int).position,
                                dd,
                            );
                        assert(old(engine).cell(h as int).position == cell_pos);
                        assert(false);
                    }
                }
                assert(engine.queue.queue@ == old(engine).queue.queue@ + added@.subrange(
                    0,
                    k as int + 1,
                ).filter(enqueue_pred));
            }
            assert forall|ch: int, nh: int, dd: Direction|
                #[trigger] engine.constrained(ch, nh, dd) && !engine.pair_ok(table, ch, nh, dd)
                    implies engine.in_queue(ch) || engine.in_queue(nh) || contains_handle(rest, ch)
                || contains_handle(rest, nh) by {
                assert(pre_loop.constrained(ch, nh, dd) && !pre_loop.pair_ok(table, ch, nh, dd));
                let prev = added@.skip(k as int);
                assert(pre_loop.covered_except(table, prev));
                if pre_loop.in_queue(ch) {
                    lemma_in_queue_monotone(pre_loop, *engine, ch, h, enqueued);
                } else if pre_loop.in_queue(nh) {
                    lemma_in_queue_monotone(pre_loop, *engine, nh, h, enqueued);
                } else if contains_handle(prev, ch) || contains_handle(prev, nh) {
                    let x: int = if contains_handle(prev, ch) {
                        ch
                    } else {
                        nh
                    };
                    let i = choose|i: int| 0 <= i < prev.len() && prev[i] as int == x;
                    if i == 0 {
                        // the element handled this iteration
                        assert(prev[0] == added@[k as int]);
                        assert(x == h as int);
                        if x == nh {
                            // h is uncollapsed, nh collapsed: impossible
                            assert(false);
                        } else {
                            assert(x == ch);
                            if enqueued {
                                assert(engine.queue.queue@[engine.queue.queue@.len() - 1] == h);
                                assert(engine.in_queue(h as int));
                            } else {
                                // no collapsed neighbor was found in any
                                // direction, yet nh would be one
                                lemma_direction_facts(dd);
                                let e = opposite_spec(dd);
                                assert(is_neighbor(
                                    cell_pos,
                                    e,
                                    engine.cell(nh).position,
                                ));
                                assert(exists|j: int|
                                    0 <= j < 4 && directions@[j] == e) by {
                                    match e {
                                        Direction::Front => {
                                            assert(directions@[0] == e);
                                        },
                                        Direction::Back => {
                                            assert(directions@[1] == e);
                                        },
                                        Direction::Right => {
                                            assert(directions@[2] == e);
                                        },
                                        Direction::Left => {
                                            assert(directions@[3] == e);
                                        },
                                    }
                                }
                                let j = choose|j: int| 0 <= j < 4 && directions@[j] == e;
                                assert(has_collapsed_neighbor_at(*engine, cell_pos, e));
                                assert(false);
                            }
                        }
                    } else {
                        assert(rest[i - 1] == prev[i]);
                        assert(contains_handle(rest, x));
                    }
                }
            }
            assert forall|x: int|
                #[trigger] engine.live(x) && !engine.cell(x).is_collapsed && engine.cell(
                    x,
                ).valid_tiles@.len() == 0 implies engine.in_queue(x) || contains_handle(rest, x) by {
                let prev = added@.skip(k as int);
                if pre_loop.in_queue(x) {
                    lemma_in_queue_monotone(pre_loop, *engine, x, h, enqueued);
                } else {
                    assert(contains_handle(prev, x));
                    let i = choose|i: int| 0 <= i < prev.len() && prev[i] as int == x;
                    if i == 0 {
                        assert(x == h as int);
                        assert(engine.cell(x).valid_tiles@.len() > 0);
                        assert(false);
                    } else {
                        assert(rest[i - 1] == prev[i]);
                        assert(contains_handle(rest, x));
                    }
                }
            }
        }
        k = k + 1;
    }
    proof {
        assert(added@.skip(added@.len() as int) =~= Seq::<usize>::empty());
        assert(engine.covered_except(table, Seq::<usize>::empty()));
        assert(added@.subrange(0, added@.len() as int) =~= added@);
    }
}

/// Whether every collapsed live cell standing one step from the cell in
/// slot `h` allows `t` beside itself, toward `h`.
pub open spec fn allowed_by_all_neighbors(
    cells: Seq<Option<Cell>>,
    table: RuleTable,
    h: int,
    t: TileType,
) -> bool {
    forall|nh: int, dd: Direction|
        0 <= nh < cells.len() && cells[nh] is Some && (cells[nh]->0).is_collapsed
            && #[trigger] is_neighbor((cells[nh]->0).position, dd, (cells[h]->0).position)
            ==> table.allows((cells[nh]->0).tile_type->0, dd, t)
}

/// The candidates of `old_valid` that every collapsed live neighbor of
/// the cell in slot `h` allows, in their original order: what propagation
/// leaves an uncollapsed cell with.
pub open spec fn consistent_candidates(
    cells: Seq<Option<Cell>>,
    table: RuleTable,
    h: int,
    old_valid: Seq<TileType>,
) -> Seq<TileType> {
    old_valid.filter(|t: TileType| allowed_by_all_neighbors(cells, table, h, t))
}

/// A rejection by a collapsed neighbor persists across a step that leaves
/// collapsed slots and the rejected cell's coordinate alone.
proof fn lemma_rejection_persists(
    before: Seq<Option<Cell>>,
    after: Seq<Option<Cell>>,
    table: RuleTable,
    h: int,
    t: TileType,
)
    requires
        !allowed_by_all_neighbors(before, table, h, t),
        after.len() == before.len(),
        forall|x: int|
            0 <= x < before.len() && before[x] is Some && (#[trigger] before[x]->0).is_collapsed
                ==> after[x] == before[x],
        0 <= h < before.len(),
        (after[h]->0).position == (before[h]->0).position,
    ensures
        !allowed_by_all_neighbors(after, table, h, t),
{
    let (nh, dd) = choose|nh: int, dd: Direction|
        0 <= nh < before.len() && before[nh] is Some && (before[nh]->0).is_collapsed
            && #[trigger] is_neighbor((before[nh]->0).position, dd, (before[h]->0).position)
            && !table.allows((before[nh]->0).tile_type->0, dd, t);
    assert(after[nh] == before[nh]);
    assert(is_neighbor((after[nh]->0).position, dd, (after[h]->0).position));
}

/// A retained list whose surviving membership coincides with what the
/// collapsed neighbors allow is exactly the consistent candidate list.
proof fn lemma_retained_is_consistent(
    cells: Seq<Option<Cell>>,
    table: RuleTable,
    h: int,
    s: Seq<TileType>,
    kept: Seq<TileType>,
)
    requires
        forall|i: int|
            0 <= i < s.len() ==> kept.contains(#[trigger] s[i]) == allowed_by_all_neighbors(
                cells,
                table,
                h,
                s[i],
            ),
    ensures
        retained(s, kept) == consistent_candidates(cells, table, h, s),
    decreases s.len(),
{
    reveal(Seq::filter);
    if s.len() > 0 {
        lemma_retained_is_consistent(cells, table, h, s.drop_last(), kept);
    }
}

/// When every candidate is rejected by some collapsed neighbor, nothing
/// is consistent.
proof fn lemma_no_consistent_candidates(
    cells: Seq<Option<Cell>>,
    table: RuleTable,
    h: int,
    s: Seq<TileType>,
)
    requires
        forall|i: int|
            0 <= i < s.len() ==> !allowed_by_all_neighbors(cells, table, h, #[trigger] s[i]),
    ensures
        consistent_candidates(cells, table, h, s) == Seq::<TileType>::empty(),
{
    lemma_filter_all_fail(s, |t: TileType| allowed_by_all_neighbors(cells, table, h, t));
}

/// The drain's narrowing bookkeeping relative to the arena `orig` it
/// started from: every still-uncollapsed cell holds a membership filter of
/// its original candidates, every dropped candidate is rejected by some
/// collapsed neighbor, and a cell the drain collapsed had every one of its
/// original candidates rejected.
pub open spec fn narrowed_from(
    orig: Seq<Option<Cell>>,
    cells: Seq<Option<Cell>>,
    table: RuleTable,
) -> bool {
    &&& cells.len() == orig.len()
    &&& forall|h: int|
        0 <= h < cells.len() && #[trigger] cells[h] is Some && !(cells[h]->0).is_collapsed ==> (
        cells[h]->0).valid_tiles@ == retained(
            (orig[h]->0).valid_tiles@,
            (cells[h]->0).valid_tiles@,
        )
    &&& forall|h: int, i: int|
        0 <= h < cells.len() && cells[h] is Some && !(cells[h]->0).is_collapsed && 0 <= i < (
        orig[h]->0).valid_tiles@.len() && !(cells[h]->0).valid_tiles@.contains(
            #[trigger] (orig[h]->0).valid_tiles@[i],
        ) ==> !allowed_by_all_neighbors(cells, table, h, (orig[h]->0).valid_tiles@[i])
    &&& forall|h: int, i: int|
        0 <= h < cells.len() && orig[h] is Some && !(orig[h]->0).is_collapsed && cells[h] is Some
            && (cells[h]->0).is_collapsed && 0 <= i < (orig[h]->0).valid_tiles@.len()
            ==> !allowed_by_all_neighbors(
            cells,
            table,
            h,
            #[trigger] (orig[h]->0).valid_tiles@[i],
        )
}

/// An arena narrows from itself.
proof fn lemma_narrowed_refl(cells: Seq<Option<Cell>>, table: RuleTable)
    ensures
        narrowed_from(cells, cells, table),
{
    assert forall|h: int|
        0 <= h < cells.len() && #[trigger] cells[h] is Some && !(
        cells[h]->0).is_collapsed implies (cells[h]->0).valid_tiles@ == retained(
        (cells[h]->0).valid_tiles@,
        (cells[h]->0).valid_tiles@,
    ) by {
        lemma_retained_all((cells[h]->0).valid_tiles@, (cells[h]->0).valid_tiles@);
    }
}

/// One arena update keeps the narrowing bookkeeping, given what the step
/// did to the touched slot: an uncollapsed slot stays a membership filter
/// with every fresh drop rejected, and a collapsed slot has every original
/// candidate rejected.
proof fn lemma_narrowed_step(
    orig: Seq<Option<Cell>>,
    before: Seq<Option<Cell>>,
    after: Seq<Option<Cell>>,
    table: RuleTable,
    j: int,
)
    requires
        narrowed_from(orig, before, table),
        after.len() == before.len(),
        forall|x: int| 0 <= x < before.len() && x != j ==> after[x] == before[x],
        0 <= j < before.len(),
        before[j] is Some,
        !(before[j]->0).is_collapsed,
        after[j] is Some,
        (after[j]->0).position == (before[j]->0).position,
        !(after[j]->0).is_collapsed ==> (after[j]->0).valid_tiles@ == retained(
            (before[j]->0).valid_tiles@,
            (after[j]->0).valid_tiles@,
        ),
        !(after[j]->0).is_collapsed ==> (forall|t: TileType|
            (before[j]->0).valid_tiles@.contains(t) && !(after[j]->0).valid_tiles@.contains(t)
                ==> !allowed_by_all_neighbors(after, table, j, t)),
        (after[j]->0).is_collapsed ==> (forall|i: int|
            0 <= i < (orig[j]->0).valid_tiles@.len() ==> !allowed_by_all_neighbors(
                after,
                table,
                j,
                #[trigger] (orig[j]->0).valid_tiles@[i],
            )),
    ensures
        narrowed_from(orig, after, table),
{
    assert forall|h: int|
        0 <= h < after.len() && #[trigger] after[h] is Some && !(
        after[h]->0).is_collapsed implies (after[h]->0).valid_tiles@ == retained(
        (orig[h]->0).valid_tiles@,
        (after[h]->0).valid_tiles@,
    ) by {
        if h == j {
            lemma_retained_chain_kept(
                (orig[j]->0).valid_tiles@,
                (before[j]->0).valid_tiles@,
                (after[j]->0).valid_tiles@,
            );
        } else {
            assert(after[h] == before[h]);
        }
    }
    assert forall|h: int, i: int|
        0 <= h < after.len() && after[h] is Some && !(after[h]->0).is_collapsed && 0 <= i < (
        orig[h]->0).valid_tiles@.len() && !(after[h]->0).valid_tiles@.contains(
            #[trigger] (orig[h]->0).valid_tiles@[i],
        ) implies !allowed_by_all_neighbors(after, table, h, (orig[h]->0).valid_tiles@[i]) by {
        let t = (orig[h]->0).valid_tiles@[i];
        if h == j {
            if (before[j]->0).valid_tiles@.contains(t) {
                assert(!allowed_by_all_neighbors(after, table, j, t));
            } else {
                assert(!allowed_by_all_neighbors(before, table, j, t));
                lemma_rejection_persists(before, after, table, j, t);
            }
        } else {
            assert(after[h] == before[h]);
            assert(!allowed_by_all_neighbors(before, table, h, t));
            lemma_rejection_persists(before, after, table, h, t);
        }
    }
    assert forall|h: int, i: int|
        0 <= h < after.len() && orig[h] is Some && !(orig[h]->0).is_collapsed && after[h] is Some
            && (after[h]->0).is_collapsed && 0 <= i < (orig[h]->0).valid_tiles@.len()
            implies !allowed_by_all_neighbors(
        after,
        table,
        h,
        #[trigger] (orig[h]->0).valid_tiles@[i],
    ) by {
        let t = (orig[h]->0).valid_tiles@[i];
        if h == j {
            assert(!allowed_by_all_neighbors(after, table, j, t));
        } else {
            assert(after[h] == before[h]);
            assert(!allowed_by_all_neighbors(before, table, h, t));
            lemma_rejection_persists(before, after, table, h, t);
        }
    }
}

/// An arena slot holding a live, not yet collapsed cell.
pub open spec fn uncollapsed_slot() -> spec_fn(Option<Cell>) -> bool {
    |c: Option<Cell>| c is Some && !(c->0).is_collapsed
}

/// A drain bookkeeping flag that is still unset.
pub open spec fn not_processed() -> spec_fn(bool) -> bool {
    |b: bool| !b
}

/// Handle `h` is queued and not yet processed in the running drain, so the
/// drain will still visit it.
pub open spec fn pending(engine: WfcEngine, processed: Seq<bool>, h: int) -> bool {
    engine.in_queue(h) && 0 <= h < processed.len() && !processed[h]
}

/// Every inconsistent pair and every contradiction still has a pending
/// endpoint: the drain's central invariant.
pub open spec fn drain_cover(engine: WfcEngine, processed: Seq<bool>, table: RuleTable) -> bool {
    &&& forall|ch: int, nh: int, dd: Direction|
        #[trigger] engine.constrained(ch, nh, dd) && !engine.pair_ok(table, ch, nh, dd) ==> pending(
            engine,
            processed,
            ch,
        ) || pending(engine, processed, nh)
    &&& forall|x: int|
        #[trigger] engine.live(x) && !engine.cell(x).is_collapsed && engine.cell(
            x,
        ).valid_tiles@.len() == 0 ==> pending(engine, processed, x)
}

/// A collapsed cell whose uncollapsed neighbors already respect its rule
/// rows and still have candidates: dequeuing it re-filters nothing away.
pub open spec fn source_quiet(eng: WfcEngine, table: RuleTable, q: int) -> bool {
    forall|c: int, dd: Direction|
        #[trigger] eng.constrained(c, q, dd) ==> eng.pair_ok(table, c, q, dd) && eng.cell(
            c,
        ).valid_tiles@.len() > 0
}

/// An uncollapsed cell already consistent with all its collapsed
/// neighbors and still holding candidates: dequeuing it recomputes the
/// same candidate list.
pub open spec fn target_quiet(eng: WfcEngine, table: RuleTable, q: int) -> bool {
    &&& forall|n: int, dd: Direction|
        #[trigger] eng.constrained(q, n, dd) ==> eng.pair_ok(table, q, n, dd)
    &&& (eng.live(q) && !eng.cell(q).is_collapsed ==> eng.cell(q).valid_tiles@.len() > 0)
}

/// Whether dequeuing the cell behind handle `q` would change nothing.
pub open spec fn cell_quiet(eng: WfcEngine, table: RuleTable, q: int) -> bool {
    eng.live(q) ==> if eng.cell(q).is_collapsed {
        source_quiet(eng, table, q)
    } else {
        target_quiet(eng, table, q)
    }
}

/// Every queued cell is already consistent: re-running propagation on
/// such a queue is a no-op.
pub open spec fn queue_already_consistent(eng: WfcEngine, table: RuleTable) -> bool {
    forall|q: int| #[trigger] eng.in_queue(q) ==> cell_quiet(eng, table, q)
}

/// Propagation changes no cell's liveness or coordinate, and leaves the
/// index and the timestamps alone.
pub open spec fn footprint_preserved(a: WfcEngine, b: WfcEngine) -> bool {
    &&& b.cells@.len() == a.cells@.len()
    &&& b.spatial_index == a.spatial_index
    &&& b.last_create_ms == a.last_create_ms
    &&& b.last_destroy_ms == a.last_destroy_ms
    &&& forall|h: int| #![trigger a.live(h)] #![trigger b.live(h)] a.live(h) <==> b.live(h)
    &&& forall|h: int| #[trigger] b.live(h) ==> b.cell(h).position == a.cell(h).position
}

/// Collapsed cells never change; a cell that propagation collapses was
/// forced to the fallback tile; a cell that stays uncollapsed only loses
/// candidates.
pub open spec fn narrowing_only(a: WfcEngine, b: WfcEngine, fallback: TileType) -> bool {
    &&& forall|h: int|
        #![trigger b.cell(h)]
        a.live(h) && a.cell(h).is_collapsed ==> b.cell(h) == a.cell(h)
    &&& forall|h: int|
        #![trigger b.cell(h)]
        a.live(h) && !a.cell(h).is_collapsed && b.cell(h).is_collapsed ==> b.cell(h).tile_type
            == Option::Some(fallback)
    &&& forall|h: int, i: int|
        #![trigger b.cell(h).valid_tiles@[i]]
        a.live(h) && !b.cell(h).is_collapsed && 0 <= i < b.cell(h).valid_tiles@.len()
            ==> a.cell(h).valid_tiles@.contains(b.cell(h).valid_tiles@[i])
}

/// `footprint_preserved` composes.
proof fn lemma_footprint_trans(a: WfcEngine, b: WfcEngine, c: WfcEngine)
    requires
        footprint_preserved(a, b),
        footprint_preserved(b, c),
    ensures
        footprint_preserved(a, c),
{
    assert forall|h: int| #[trigger] c.live(h) implies c.cell(h).position == a.cell(h).position by {
        assert(b.live(h));
    }
}

/// `narrowing_only` composes along a preserved footprint.
proof fn lemma_narrowing_trans(a: WfcEngine, b: WfcEngine, c: WfcEngine, fallback: TileType)
    requires
        footprint_preserved(a, b),
        narrowing_only(a, b, fallback),
        narrowing_only(b, c, fallback),
    ensures
        narrowing_only(a, c, fallback),
{
    assert forall|h: int| a.live(h) && a.cell(h).is_collapsed implies #[trigger] c.cell(h) == a.cell(
        h,
    ) by {
        assert(b.cell(h) == a.cell(h));
        assert(b.live(h));
    }
    assert forall|h: int|
        a.live(h) && !a.cell(h).is_collapsed && #[trigger] c.cell(h).is_collapsed implies c.cell(
        h,
    ).tile_type == Option::Some(fallback) by {
        assert(b.live(h));
        if b.cell(h).is_collapsed {
            assert(b.cell(h).tile_type == Option::Some(fallback));
            assert(c.cell(h) == b.cell(h));
        }
    }
    assert forall|h: int, i: int|
        a.live(h) && !c.cell(h).is_collapsed && 0 <= i < c.cell(h).valid_tiles@.len() implies a.cell(
        h,
    ).valid_tiles@.contains(#[trigger] c.cell(h).valid_tiles@[i]) by {
        assert(b.live(h));
        if b.cell(h).is_collapsed {
            assert(c.cell(h) == b.cell(h));
            assert(false);
        }
        assert(b.cell(h).valid_tiles@.contains(c.cell(h).valid_tiles@[i]));
        let j = choose|j: int|
            0 <= j < b.cell(h).valid_tiles@.len() && b.cell(h).valid_tiles@[j] == c.cell(
                h,
            ).valid_tiles@[i];
        assert(a.cell(h).valid_tiles@.contains(b.cell(h).valid_tiles@[j]));
    }
}

/// Being settled depends only on the cells.
proof fn lemma_settled_same_cells(a: WfcEngine, b: WfcEngine, table: RuleTable)
    requires
        a.settled(table),
        b.cells@ == a.cells@,
    ensures
        b.settled(table),
{
    assert forall|ch: int, nh: int, dd: Direction| #[trigger] b.constrained(ch, nh, dd) implies b.pair_ok(
        table,
        ch,
        nh,
        dd,
    ) by {
        assert(a.constrained(ch, nh, dd));
        assert(a.pair_ok(table, ch, nh, dd));
    }
    assert forall|x: int| #[trigger] b.live(x) && !b.cell(x).is_collapsed implies b.cell(
        x,
    ).valid_tiles@.len() > 0 by {
        assert(a.live(x));
    }
}

/// Removing the front element keeps every other handle queued.
proof fn lemma_pop_front_contains(q: Seq<usize>, x: int)
    requires
        q.len() > 0,
    ensures
        contains_handle(q.subrange(1, q.len() as int), x) ==> contains_handle(q, x),
        contains_handle(q, x) && q[0] as int != x ==> contains_handle(
            q.subrange(1, q.len() as int),
            x,
        ),
{
    let rest = q.subrange(1, q.len() as int);
    if contains_handle(rest, x) {
        let i = choose|i: int| 0 <= i < rest.len() && rest[i] as int == x;
        assert(q[i + 1] as int == x);
    }
    if contains_handle(q, x) && q[0] as int != x {
        let i = choose|i: int| 0 <= i < q.len() && q[i] as int == x;
        assert(rest[i - 1] as int == x);
    }
}

/// Drains the Propagation Queue: repeatedly dequeues a cell and either
/// narrows its uncollapsed neighbors (if it is collapsed) or recomputes its
/// own candidates from its collapsed neighbors (if it is not), re-enqueuing
/// whatever changed, with a processed-set guard against cycles that is
/// lifted again whenever a contradiction forces a cell to the fallback
/// tile. When the queue is empty the grid is locally arc-consistent:
/// every live uncollapsed cell's candidates respect every collapsed live
/// neighbor's rule row, and no live uncollapsed cell is out of candidates.
/// Re-running it on an already-settled grid changes no cell.
#[verifier::loop_isolation(false)]
pub fn propagate_constraints<R: Rules>(engine: &mut WfcEngine, rules: &R, fallback: TileType)
    requires
        old(engine).wf(),
        rules.wf(),
        old(engine).queue_covers(rules.rule_table()),
    ensures
        final(engine).wf(),
        final(engine).queue.queue@.len() == 0,
        final(engine).settled(rules.rule_table()),
        final(engine).queue_covers(rules.rule_table()),
        footprint_preserved(*old(engine), *final(engine)),
        narrowing_only(*old(engine), *final(engine), fallback),
        old(engine).settled(rules.rule_table()) ==> final(engine).cells@ == old(engine).cells@,
        // a queue holding only already-consistent cells drains away
        // without changing any cell
        queue_already_consistent(*old(engine), rules.rule_table()) ==> final(engine).cells@ == old(
            engine,
        ).cells@,
        // an uncollapsed cell ends with exactly those of its previous
        // candidates that every finally-collapsed neighbor allows, in order
        forall|h: int|
            #[trigger] final(engine).live(h) && !final(engine).cell(h).is_collapsed
                ==> final(engine).cell(h).valid_tiles@ == consistent_candidates(
                final(engine).cells@,
                rules.rule_table(),
                h,
                old(engine).cell(h).valid_tiles@,
            ),
        // a cell is forced only when none of its previous candidates
        // survives its finally-collapsed neighbors
        forall|h: int|
            old(engine).live(h) && !old(engine).cell(h).is_collapsed
                && #[trigger] final(engine).cell(h).is_collapsed ==> consistent_candidates(
                final(engine).cells@,
                rules.rule_table(),
                h,
                old(engine).cell(h).valid_tiles@,
            ) == Seq::<TileType>::empty(),
{
    let ghost table = rules.rule_table();
    let n = engine.cells.len();
    let mut processed: Vec<bool> = Vec::new();
    while processed.len() < n
        invariant
            processed@.len() <= n,
            forall|j: int| 0 <= j < processed@.len() ==> !processed@[j],
        decreases n - processed@.len(),
    {
        processed.push(false);
    }
    proof {
        lemma_narrowing_refl(*engine, fallback);
        lemma_narrowed_refl(engine.cells@, table);
        assert(drain_cover(*engine, processed@, table)) by {
            assert forall|ch: int, nh: int, dd: Direction|
                #[trigger] engine.constrained(ch, nh, dd) && !engine.pair_ok(table, ch, nh, dd)
                    implies pending(*engine, processed@, ch) || pending(
                *engine,
                processed@,
                nh,
            ) by {
                assert(!contains_handle(Seq::<usize>::empty(), ch));
                assert(!contains_handle(Seq::<usize>::empty(), nh));
            }
            assert forall|x: int|
                #[trigger] engine.live(x) && !engine.cell(x).is_collapsed && engine.cell(
                    x,
                ).valid_tiles@.len() == 0 implies pending(*engine, processed@, x) by {
                assert(!contains_handle(Seq::<usize>::empty(), x));
            }
        }
    }
    while engine.queue.len() != 0
        invariant
            engine.wf(),
            engine.cells@.len() == n,
            processed@.len() == n,
            footprint_preserved(*old(engine), *engine),
            narrowing_only(*old(engine), *engine, fallback),
            narrowed_from(old(engine).cells@, engine.cells@, table),
            drain_cover(*engine, processed@, table),
            old(engine).settled(table) ==> engine.cells@ == old(engine).cells@,
            queue_already_consistent(*old(engine), table) ==> engine.cells@ == old(
                engine,
            ).cells@,
            queue_already_consistent(*old(engine), table) ==> (forall|x: int|
                #[trigger] engine.in_queue(x) ==> old(engine).in_queue(x)),
        decreases
            count_if(engine.cells@, uncollapsed_slot()),
            count_if(processed@, not_processed()),
            engine.queue.queue@.len(),
    {
        let ghost pre_iter = *engine;
        let ghost pre_p = processed@;
        let popped = engine.queue.pop_front();
        let h = popped.unwrap();
        proof {
            pre_iter.lemma_wf_same_cells(*engine);
            assert forall|x: int|
                pending(pre_iter, pre_p, x) && x != h as int implies pending(
                *engine,
                processed@,
                x,
            ) by {
                lemma_pop_front_contains(pre_iter.queue.queue@, x);
            }
            if queue_already_consistent(*old(engine), table) {
                assert forall|x: int| #[trigger] engine.in_queue(x) implies old(engine).in_queue(
                    x,
                ) by {
                    lemma_pop_front_contains(pre_iter.queue.queue@, x);
                    assert(pre_iter.in_queue(x));
                }
                assert(pre_iter.queue.queue@[0] == h);
                assert(pre_iter.in_queue(h as int));
                assert(old(engine).in_queue(h as int));
                assert(cell_quiet(*old(engine), table, h as int));
            }
        }
        if h < engine.cells.len() && !processed[h] {
            processed[h] = true;
            proof {
                lemma_count_if_update(pre_p, not_processed(), h as int, true);
                lemma_count_if_bounds(pre_p, not_processed());
            }
            let ghost mark_eng = *engine;
            let ghost mark_p = processed@;
            let info: Option<(bool, Option<TileType>, (i32, i32))> = match &engine.cells[h] {
                Option::Some(c) => Option::Some((c.is_collapsed, c.tile_type, c.position)),
                Option::None => Option::None,
            };
            match info {
                Option::None => {
                    proof {
                        // a destroyed handle: no pair involves it
                        assert forall|ch: int, nh: int, dd: Direction|
                            #[trigger] engine.constrained(ch, nh, dd) && !engine.pair_ok(
                                table,
                                ch,
                                nh,
                                dd,
                            ) implies pending(*engine, processed@, ch) || pending(
                            *engine,
                            processed@,
                            nh,
                        ) by {
                            assert(ch != h as int && nh != h as int);
                            assert(pre_iter.constrained(ch, nh, dd));
                            assert(!pre_iter.pair_ok(table, ch, nh, dd)) by {
                                if pre_iter.pair_ok(table, ch, nh, dd) {
                                    assert(engine.pair_ok(table, ch, nh, dd));
                                }
                            }
                            assert(pending(pre_iter, pre_p, ch) || pending(pre_iter, pre_p, nh));
                        }
                        assert forall|x: int|
                            #[trigger] engine.live(x) && !engine.cell(x).is_collapsed
                                && engine.cell(x).valid_tiles@.len() == 0 implies pending(
                            *engine,
                            processed@,
                            x,
                        ) by {
                            assert(x != h as int);
                            assert(pre_iter.live(x) && !pre_iter.cell(x).is_collapsed
                                && pre_iter.cell(x).valid_tiles@.len() == 0);
                            assert(pending(pre_iter, pre_p, x));
                        }
                    }
                },
                Option::Some((true, tile_opt, cpos)) => {
                    proof {
                        assert(engine.live(h as int));
                        assert(engine.cell(h as int).wf());
                    }
                    let tile = match tile_opt {
                        Option::Some(t) => t,
                        Option::None => fallback,
                    };
                    proof {
                        assert forall|ch: int, nh: int, dd: Direction|
                            #[trigger] engine.constrained(ch, nh, dd) && !engine.pair_ok(
                                table,
                                ch,
                                nh,
                                dd,
                            ) implies pending(*engine, processed@, ch) || pending(
                            *engine,
                            processed@,
                            nh,
                        ) || nh == h as int by {
                            assert(ch != h as int);
                            if nh != h as int {
                                assert(pre_iter.constrained(ch, nh, dd));
                                assert(!pre_iter.pair_ok(table, ch, nh, dd)) by {
                                    if pre_iter.pair_ok(table, ch, nh, dd) {
                                        assert(engine.pair_ok(table, ch, nh, dd));
                                    }
                                }
                                assert(pending(pre_iter, pre_p, ch) || pending(
                                    pre_iter,
                                    pre_p,
                                    nh,
                                ));
                            }
                        }
                        assert forall|x: int|
                            #[trigger] engine.live(x) && !engine.cell(x).is_collapsed
                                && engine.cell(x).valid_tiles@.len() == 0 implies pending(
                            *engine,
                            processed@,
                            x,
                        ) by {
                            assert(x != h as int);
                            assert(pre_iter.live(x) && !pre_iter.cell(x).is_collapsed
                                && pre_iter.cell(x).valid_tiles@.len() == 0);
                            assert(pending(pre_iter, pre_p, x));
                        }
                    }
                    proof {
                        if queue_already_consistent(*old(engine), table) {
                            assert(engine.cells@ == old(engine).cells@);
                            assert forall|c: int, dd: Direction|
                                #[trigger] engine.constrained(c, h as int, dd) implies engine.pair_ok(
                                table,
                                c,
                                h as int,
                                dd,
                            ) && engine.cell(c).valid_tiles@.len() > 0 by {
                                assert(old(engine).constrained(c, h as int, dd));
                                assert(old(engine).live(h as int));
                                assert(old(engine).cell(h as int).is_collapsed);
                                assert(old(engine).pair_ok(table, c, h as int, dd));
                                assert(old(engine).cell(c).valid_tiles@.len() > 0);
                            }
                            assert(source_quiet(*engine, table, h as int));
                        }
                    }
                    process_collapsed_cell(
                        engine,
                        &mut processed,
                        rules,
                        fallback,
                        h,
                        tile,
                        cpos,
                        Ghost(old(engine).cells@),
                    );
                    proof {
                        lemma_footprint_trans(*old(engine), mark_eng, *engine);
                        lemma_narrowing_trans(*old(engine), mark_eng, *engine, fallback);
                        if old(engine).settled(table) {
                            lemma_settled_same_cells(*old(engine), mark_eng, table);
                        }
                        if queue_already_consistent(*old(engine), table) {
                            assert(engine.queue == mark_eng.queue);
                            assert forall|x: int| #[trigger] engine.in_queue(x) implies old(
                                engine,
                            ).in_queue(x) by {
                                assert(mark_eng.in_queue(x));
                            }
                        }
                    }
                },
                Option::Some((false, _, cpos)) => {
                    proof {
                        assert forall|ch: int, nh: int, dd: Direction|
                            #[trigger] engine.constrained(ch, nh, dd) && !engine.pair_ok(
                                table,
                                ch,
                                nh,
                                dd,
                            ) implies pending(*engine, processed@, ch) || pending(
                            *engine,
                            processed@,
                            nh,
                        ) || ch == h as int by {
                            assert(nh != h as int);
                            if ch != h as int {
                                assert(pre_iter.constrained(ch, nh, dd));
                                assert(!pre_iter.pair_ok(table, ch, nh, dd)) by {
                                    if pre_iter.pair_ok(table, ch, nh, dd) {
                                        assert(engine.pair_ok(table, ch, nh, dd));
                                    }
                                }
                                assert(pending(pre_iter, pre_p, ch) || pending(
                                    pre_iter,
                                    pre_p,
                                    nh,
                                ));
                            }
                        }
                    }
                    proof {
                        if queue_already_consistent(*old(engine), table) {
                            assert(engine.cells@ == old(engine).cells@);
                            assert(old(engine).live(h as int));
                            assert(!old(engine).cell(h as int).is_collapsed);
                            assert forall|n: int, dd: Direction|
                                #[trigger] engine.constrained(h as int, n, dd) implies engine.pair_ok(
                                table,
                                h as int,
                                n,
                                dd,
                            ) by {
                                assert(old(engine).constrained(h as int, n, dd));
                                assert(old(engine).pair_ok(table, h as int, n, dd));
                            }
                            assert(old(engine).cell(h as int).valid_tiles@.len() > 0);
                            assert(target_quiet(*engine, table, h as int));
                        }
                    }
                    process_uncollapsed_cell(
                        engine,
                        &mut processed,
                        rules,
                        fallback,
                        h,
                        cpos,
                        Ghost(old(engine).cells@),
                    );
                    proof {
                        lemma_footprint_trans(*old(engine), mark_eng, *engine);
                        lemma_narrowing_trans(*old(engine), mark_eng, *engine, fallback);
                        if old(engine).settled(table) {
                            lemma_settled_same_cells(*old(engine), mark_eng, table);
                        }
                        if queue_already_consistent(*old(engine), table) {
                            assert(engine.queue == mark_eng.queue);
                            assert forall|x: int| #[trigger] engine.in_queue(x) implies old(
                                engine,
                            ).in_queue(x) by {
                                assert(mark_eng.in_queue(x));
                            }
                        }
                    }
                },
            }
        } else {
            proof {
                assert forall|ch: int, nh: int, dd: Direction|
                    #[trigger] engine.constrained(ch, nh, dd) && !engine.pair_ok(
                        table,
                        ch,
                        nh,
                        dd,
                    ) implies pending(*engine, processed@, ch) || pending(
                    *engine,
                    processed@,
                    nh,
                ) by {
                    assert(pre_iter.constrained(ch, nh, dd));
                    assert(!pre_iter.pair_ok(table, ch, nh, dd)) by {
                        if pre_iter.pair_ok(table, ch, nh, dd) {
                            assert(engine.pair_ok(table, ch, nh, dd));
                        }
                    }
                    if pending(pre_iter, pre_p, ch) {
                        assert(ch != h as int);
                    } else {
                        assert(pending(pre_iter, pre_p, nh));
                        assert(nh != h as int);
                    }
                }
                assert forall|x: int|
                    #[trigger] engine.live(x) && !engine.cell(x).is_collapsed && engine.cell(
                        x,
                    ).valid_tiles@.len() == 0 implies pending(*engine, processed@, x) by {
                    assert(pre_iter.live(x) && !pre_iter.cell(x).is_collapsed && pre_iter.cell(
                        x,
                    ).valid_tiles@.len() == 0);
                    assert(pending(pre_iter, pre_p, x));
                    assert(x != h as int);
                }
            }
        }
        proof {
            lemma_count_if_bounds(engine.cells@, uncollapsed_slot());
            lemma_count_if_bounds(processed@, not_processed());
            lemma_count_if_bounds(pre_iter.cells@, uncollapsed_slot());
            lemma_count_if_bounds(pre_p, not_processed());
        }
    }
    proof {
        assert forall|ch: int, nh: int, dd: Direction|
            #[trigger] engine.constrained(ch, nh, dd) implies engine.pair_ok(table, ch, nh, dd) by {
            if !engine.pair_ok(table, ch, nh, dd) {
                assert(pending(*engine, processed@, ch) || pending(*engine, processed@, nh));
                assert(false);
            }
        }
        assert forall|x: int| #[trigger] engine.live(x) && !engine.cell(x).is_collapsed implies engine.cell(
            x,
        ).valid_tiles@.len() > 0 by {
            if engine.cell(x).valid_tiles@.len() == 0 {
                assert(pending(*engine, processed@, x));
                assert(false);
            }
        }
        assert(engine.settled(table));
        assert(engine.queue_covers(table));
        assert forall|h: int|
            #[trigger] engine.live(h) && !engine.cell(h).is_collapsed implies engine.cell(
            h,
        ).valid_tiles@ == consistent_candidates(
            engine.cells@,
            table,
            h,
            old(engine).cell(h).valid_tiles@,
        ) by {
            let s = old(engine).cell(h).valid_tiles@;
            let kept = engine.cell(h).valid_tiles@;
            assert(kept == retained(s, kept));
            assert forall|i: int| 0 <= i < s.len() implies kept.contains(#[trigger] s[i])
                == allowed_by_all_neighbors(engine.cells@, table, h, s[i]) by {
                let t = s[i];
                if kept.contains(t) {
                    assert forall|nh: int, dd: Direction|
                        0 <= nh < engine.cells@.len() && engine.cells@[nh] is Some && (
                        engine.cells@[nh]->0).is_collapsed && #[trigger] is_neighbor(
                            (engine.cells@[nh]->0).position,
                            dd,
                            (engine.cells@[h]->0).position,
                        ) implies table.allows(
                        (engine.cells@[nh]->0).tile_type->0,
                        dd,
                        t,
                    ) by {
                        assert(engine.constrained(h, nh, dd));
                        assert(engine.pair_ok(table, h, nh, dd));
                        let j = choose|j: int| 0 <= j < kept.len() && kept[j] == t;
                        assert(table.allows(engine.cell(nh).tile_type->0, dd, kept[j]));
                    }
                    assert(allowed_by_all_neighbors(engine.cells@, table, h, t));
                } else {
                    assert(!allowed_by_all_neighbors(engine.cells@, table, h, t));
                }
            }
            lemma_retained_is_consistent(engine.cells@, table, h, s, kept);
        }
        assert forall|h: int|
            old(engine).live(h) && !old(engine).cell(h).is_collapsed && #[trigger] engine.cell(
                h,
            ).is_collapsed implies consistent_candidates(
            engine.cells@,
            table,
            h,
            old(engine).cell(h).valid_tiles@,
        ) == Seq::<TileType>::empty() by {
            assert(engine.live(h));
            let s = old(engine).cell(h).valid_tiles@;
            assert forall|i: int| 0 <= i < s.len() implies !allowed_by_all_neighbors(
                engine.cells@,
                table,
                h,
                #[trigger] s[i],
            ) by {}
            lemma_no_consistent_candidates(engine.cells@, table, h, s);
        }
    }
}

/// Pushing one handle keeps every queued handle queued.
proof fn lemma_in_queue_monotone(
    before: WfcEngine,
    after: WfcEngine,
    x: int,
    h: usize,
    pushed: bool,
)
    requires
        before.in_queue(x),
        !pushed ==> after.queue == before.queue,
        pushed ==> after.queue.queue@ == before.queue.queue@.push(h),
    ensures
        after.in_queue(x),
{
    let i = choose|i: int|
        0 <= i < before.queue.queue@.len() && before.queue.queue@[i] as int == x;
    assert(after.queue.queue@[i] as int == x);
}

/// Two live cells at the same coordinate are the same cell.
proof fn lemma_unique_live_at(eng: WfcEngine, a: int, b: int)
    requires
        eng.wf(),
        eng.live(a),
        eng.live(b),
        eng.cell(a).position == eng.cell(b).position,
    ensures
        a == b,
{
    assert(eng.spatial_index.at(eng.cell(a).position) as int == a);
    assert(eng.spatial_index.at(eng.cell(b).position) as int == b);
}

/// A direction other than the one just handled that still lies in the
/// exception window stays in the shrunken window.
proof fn lemma_exception_shrinks(d: int, ds: Seq<Direction>, dd: Direction, dir: Direction)
    requires
        0 <= d < 4,
        ds.len() == 4,
        ds[d] == dir,
        dd != dir,
    ensures
        (exists|j: int| d <= j < 4 && ds[j as int] == dd) ==> (exists|j: int|
            d + 1 <= j < 4 && ds[j as int] == dd),
{
    if exists|j: int| d <= j < 4 && ds[j as int] == dd {
        let j = choose|j: int| d <= j < 4 && ds[j as int] == dd;
        assert(j != d);
    }
}

/// Forcing one uncollapsed cell to the collapsed fallback keeps the drain
/// a narrowing of the original state.
proof fn lemma_narrowing_step_force(
    pre: WfcEngine,
    step: WfcEngine,
    now: WfcEngine,
    j: int,
    fallback: TileType,
)
    requires
        footprint_preserved(pre, step),
        narrowing_only(pre, step, fallback),
        now.cells@.len() == step.cells@.len(),
        now.spatial_index == step.spatial_index,
        now.last_create_ms == step.last_create_ms,
        now.last_destroy_ms == step.last_destroy_ms,
        step.live(j),
        !step.cell(j).is_collapsed,
        forall|x: int| 0 <= x < now.cells@.len() && x != j ==> now.cells@[x] == step.cells@[x],
        now.live(j),
        now.cell(j).is_collapsed,
        now.cell(j).tile_type == Option::Some(fallback),
        now.cell(j).position == step.cell(j).position,
    ensures
        narrowing_only(pre, now, fallback),
        footprint_preserved(pre, now),
{
    assert(footprint_preserved(step, now)) by {
        assert forall|x: int| #![trigger step.live(x)] #![trigger now.live(x)] step.live(x)
            <==> now.live(x) by {
            if 0 <= x < now.cells@.len() && x != j {
                assert(now.cells@[x] == step.cells@[x]);
            }
        }
        assert forall|x: int| #[trigger] now.live(x) implies now.cell(x).position == step.cell(
            x,
        ).position by {
            if x != j {
                assert(now.cells@[x] == step.cells@[x]);
            }
        }
    }
    lemma_footprint_trans(pre, step, now);
    assert(narrowing_only(step, now, fallback)) by {
        assert forall|x: int| step.live(x) && step.cell(x).is_collapsed implies #[trigger] now.cell(
            x,
        ) == step.cell(x) by {
            assert(x != j);
        }
        assert forall|x: int, i: int|
            step.live(x) && !now.cell(x).is_collapsed && 0 <= i < now.cell(
                x,
            ).valid_tiles@.len() implies step.cell(x).valid_tiles@.contains(
            #[trigger] now.cell(x).valid_tiles@[i],
        ) by {
            assert(x != j);
            assert(now.cell(x) == step.cell(x));
        }
    }
    lemma_narrowing_trans(pre, step, now, fallback);
}

/// Narrowing one uncollapsed cell's candidates keeps the drain a
/// narrowing of the original state.
proof fn lemma_narrowing_step_narrow(
    pre: WfcEngine,
    step: WfcEngine,
    now: WfcEngine,
    j: int,
    fallback: TileType,
)
    requires
        footprint_preserved(pre, step),
        narrowing_only(pre, step, fallback),
        now.cells@.len() == step.cells@.len(),
        now.spatial_index == step.spatial_index,
        now.last_create_ms == step.last_create_ms,
        now.last_destroy_ms == step.last_destroy_ms,
        step.live(j),
        !step.cell(j).is_collapsed,
        forall|x: int| 0 <= x < now.cells@.len() && x != j ==> now.cells@[x] == step.cells@[x],
        now.live(j),
        !now.cell(j).is_collapsed,
        now.cell(j).position == step.cell(j).position,
        forall|i: int|
            0 <= i < now.cell(j).valid_tiles@.len() ==> step.cell(j).valid_tiles@.contains(
                #[trigger] now.cell(j).valid_tiles@[i],
            ),
    ensures
        narrowing_only(pre, now, fallback),
        footprint_preserved(pre, now),
{
    assert(footprint_preserved(step, now)) by {
        assert forall|x: int| #![trigger step.live(x)] #![trigger now.live(x)] step.live(x)
            <==> now.live(x) by {
            if 0 <= x < now.cells@.len() && x != j {
                assert(now.cells@[x] == step.cells@[x]);
            }
        }
        assert forall|x: int| #[trigger] now.live(x) implies now.cell(x).position == step.cell(
            x,
        ).position by {
            if x != j {
                assert(now.cells@[x] == step.cells@[x]);
            }
        }
    }
    lemma_footprint_trans(pre, step, now);
    assert(narrowing_only(step, now, fallback)) by {
        assert forall|x: int| step.live(x) && step.cell(x).is_collapsed implies #[trigger] now.cell(
            x,
        ) == step.cell(x) by {
            assert(x != j);
        }
        assert forall|x: int|
            step.live(x) && !step.cell(x).is_collapsed && #[trigger] now.cell(
                x,
            ).is_collapsed implies now.cell(x).tile_type == Option::Some(fallback) by {
            assert(x != j);
            assert(now.cell(x) == step.cell(x));
        }
        assert forall|x: int, i: int|
            step.live(x) && !now.cell(x).is_collapsed && 0 <= i < now.cell(
                x,
            ).valid_tiles@.len() implies step.cell(x).valid_tiles@.contains(
            #[trigger] now.cell(x).valid_tiles@[i],
        ) by {
            if x != j {
                assert(now.cell(x) == step.cell(x));
            }
        }
    }
    lemma_narrowing_trans(pre, step, now, fallback);
}

/// Re-establishes the drain cover after one neighbor was filtered: either
/// it was forced (and is pending), or its survivors all satisfy the row of
/// the collapsed cell being processed.
#[verifier::rlimit(30)]
proof fn lemma_cover_case_mutated(
    pre: WfcEngine,
    step: WfcEngine,
    now: WfcEngine,
    step_p: Seq<bool>,
    now_p: Seq<bool>,
    table: RuleTable,
    h: int,
    nh: int,
    dir: Direction,
    d: int,
    ds: Seq<Direction>,
    ch2: int,
    nh2: int,
    dd: Direction,
)
    requires
        step.wf(),
        now.wf(),
        now.spatial_index == step.spatial_index,
        now.cells@.len() == step.cells@.len(),
        forall|x: int| 0 <= x < now.cells@.len() && x != nh ==> now.cells@[x] == step.cells@[x],
        step.live(nh),
        !step.cell(nh).is_collapsed,
        now.live(nh),
        now.cell(nh).position == step.cell(nh).position,
        step.live(h),
        h != nh,
        step.cell(h).is_collapsed,
        is_neighbor(step.cell(h).position, dir, step.cell(nh).position),
        // what the filtering step guarantees of the touched neighbor
        now.cell(nh).is_collapsed ==> pending(now, now_p, nh),
        !now.cell(nh).is_collapsed ==> (forall|i: int|
            0 <= i < now.cell(nh).valid_tiles@.len() ==> table.allows(
                step.cell(h).tile_type->0,
                dir,
                #[trigger] now.cell(nh).valid_tiles@[i],
            )),
        !now.cell(nh).is_collapsed ==> (forall|i: int|
            0 <= i < now.cell(nh).valid_tiles@.len() ==> step.cell(nh).valid_tiles@.contains(
                #[trigger] now.cell(nh).valid_tiles@[i],
            )),
        // the cover carried into this step
        forall|c: int, s: int, e: Direction|
            #[trigger] step.constrained(c, s, e) && !step.pair_ok(table, c, s, e) ==> pending(
                step,
                step_p,
                c,
            ) || pending(step, step_p, s) || (s == h && exists|j: int|
                d <= j < 4 && ds[j as int] == e),
        forall|x: int| pending(step, step_p, x) ==> pending(now, now_p, x),
        0 <= d < 4,
        ds.len() == 4,
        ds[d] == dir,
    ensures
        now.constrained(ch2, nh2, dd) && !now.pair_ok(table, ch2, nh2, dd) ==> pending(
            now,
            now_p,
            ch2,
        ) || pending(now, now_p, nh2) || (nh2 == h && exists|j: int|
            d + 1 <= j < 4 && ds[j as int] == dd),
{
    if now.constrained(ch2, nh2, dd) && !now.pair_ok(table, ch2, nh2, dd) {
        if nh2 == nh {
            // the touched neighbor constrains others only if it was forced
            assert(now.cell(nh).is_collapsed);
            assert(pending(now, now_p, nh));
        } else if ch2 == nh {
            assert(!now.cell(nh).is_collapsed);
            if nh2 == h && dd == dir {
                // its survivors satisfy exactly this row
                assert(now.cell(nh2) == step.cell(nh2));
                assert forall|i: int|
                    0 <= i < now.cell(ch2).valid_tiles@.len() implies table.allows(
                    now.cell(nh2).tile_type->0,
                    dd,
                    #[trigger] now.cell(ch2).valid_tiles@[i],
                ) by {}
                assert(now.pair_ok(table, ch2, nh2, dd));
                assert(false);
            } else {
                assert(now.cell(nh2) == step.cell(nh2));
                assert(step.constrained(ch2, nh2, dd));
                if step.pair_ok(table, ch2, nh2, dd) {
                    assert forall|i: int|
                        0 <= i < now.cell(ch2).valid_tiles@.len() implies table.allows(
                        now.cell(nh2).tile_type->0,
                        dd,
                        #[trigger] now.cell(ch2).valid_tiles@[i],
                    ) by {
                        assert(step.cell(nh).valid_tiles@.contains(
                            now.cell(ch2).valid_tiles@[i],
                        ));
                        let j = choose|j: int|
                            0 <= j < step.cell(nh).valid_tiles@.len() && step.cell(
                                nh,
                            ).valid_tiles@[j] == now.cell(ch2).valid_tiles@[i];
                        assert(table.allows(
                            step.cell(nh2).tile_type->0,
                            dd,
                            step.cell(nh).valid_tiles@[j],
                        ));
                    }
                    assert(now.pair_ok(table, ch2, nh2, dd));
                    assert(false);
                } else {
                    if nh2 == h && dd != dir {
                        lemma_exception_shrinks(d, ds, dd, dir);
                    }
                }
            }
        } else {
            // a pair the step did not touch
            assert(now.cell(ch2) == step.cell(ch2));
            assert(now.cell(nh2) == step.cell(nh2));
            assert(step.constrained(ch2, nh2, dd));
            assert(!step.pair_ok(table, ch2, nh2, dd)) by {
                if step.pair_ok(table, ch2, nh2, dd) {
                    assert(now.pair_ok(table, ch2, nh2, dd));
                }
            }
            if nh2 == h {
                if dd == dir {
                    // the cell constrained along `dir` is the touched one
                    assert(is_neighbor(step.cell(h).position, dir, now.cell(ch2).position));
                    assert(now.cell(ch2).position == now.cell(nh).position);
                    lemma_unique_live_at(now, ch2, nh);
                    assert(false);
                } else {
                    lemma_exception_shrinks(d, ds, dd, dir);
                }
            }
        }
    }
}

/// Every tile of `valid` is allowed beside `source` in direction `e`.
pub open spec fn all_allowed(
    table: RuleTable,
    source: TileType,
    e: Direction,
    valid: Seq<TileType>,
) -> bool {
    forall|i: int| 0 <= i < valid.len() ==> table.allows(source, e, #[trigger] valid[i])
}

/// The candidate list `valid` respects every collapsed live neighbor one
/// step along `dj` from coordinate `p`.
pub open spec fn dir_scanned_ok(
    eng: WfcEngine,
    table: RuleTable,
    p: (i32, i32),
    dj: Direction,
    valid: Seq<TileType>,
) -> bool {
    forall|nh: int|
        #[trigger] eng.live(nh) && eng.cell(nh).is_collapsed && is_neighbor(
            p,
            dj,
            eng.cell(nh).position,
        ) ==> all_allowed(table, eng.cell(nh).tile_type->0, opposite_spec(dj), valid)
}

/// A sublist of an allowed list is allowed.
proof fn lemma_all_allowed_subset(
    table: RuleTable,
    source: TileType,
    e: Direction,
    bigger: Seq<TileType>,
    smaller: Seq<TileType>,
)
    requires
        all_allowed(table, source, e, bigger),
        forall|i: int| 0 <= i < smaller.len() ==> bigger.contains(#[trigger] smaller[i]),
    ensures
        all_allowed(table, source, e, smaller),
{
    assert forall|i: int| 0 <= i < smaller.len() implies table.allows(
        source,
        e,
        #[trigger] smaller[i],
    ) by {
        let j = choose|j: int| 0 <= j < bigger.len() && bigger[j] == smaller[i];
        assert(table.allows(source, e, bigger[j]));
    }
}

/// A state is a narrowing of itself.
proof fn lemma_narrowing_refl(a: WfcEngine, fallback: TileType)
    ensures
        footprint_preserved(a, a),
        narrowing_only(a, a, fallback),
{
    assert forall|h: int, i: int|
        a.live(h) && !a.cell(h).is_collapsed && 0 <= i < a.cell(
            h,
        ).valid_tiles@.len() implies a.cell(h).valid_tiles@.contains(
        #[trigger] a.cell(h).valid_tiles@[i],
    ) by {
        assert(a.cell(h).valid_tiles@[i] == a.cell(h).valid_tiles@[i]);
    }
}

/// An uncollapsed cell whose candidates respect the scan of all four
/// directions respects every collapsed live neighbor.
proof fn lemma_uncollapsed_pairs_ok(
    eng: WfcEngine,
    table: RuleTable,
    h: int,
    cpos: (i32, i32),
    ds: Seq<Direction>,
)
    requires
        eng.wf(),
        eng.live(h),
        !eng.cell(h).is_collapsed,
        eng.cell(h).position == cpos,
        ds.len() == 4,
        ds[0] == Direction::Front,
        ds[1] == Direction::Back,
        ds[2] == Direction::Right,
        ds[3] == Direction::Left,
        forall|j: int|
            0 <= j < 4 ==> dir_scanned_ok(eng, table, cpos, ds[j as int], eng.cell(h).valid_tiles@),
    ensures
        forall|nh2: int, e: Direction|
            #[trigger] eng.constrained(h, nh2, e) ==> eng.pair_ok(table, h, nh2, e),
{
    assert forall|nh2: int, e: Direction| #[trigger] eng.constrained(h, nh2, e) implies eng.pair_ok(
        table,
        h,
        nh2,
        e,
    ) by {
        lemma_direction_facts(e);
        let dir0 = opposite_spec(e);
        assert(is_neighbor(cpos, dir0, eng.cell(nh2).position));
        let j: int = match dir0 {
            Direction::Front => 0,
            Direction::Back => 1,
            Direction::Right => 2,
            Direction::Left => 3,
        };
        assert(ds[j] == dir0);
        assert(dir_scanned_ok(eng, table, cpos, dir0, eng.cell(h).valid_tiles@));
        lemma_direction_facts(dir0);
        assert(opposite_spec(dir0) == e);
        assert(all_allowed(table, eng.cell(nh2).tile_type->0, e, eng.cell(h).valid_tiles@));
    }
}

/// One drain step for an uncollapsed cell at `cpos`: recomputes its
/// candidates against every collapsed live neighbor, commits the result if
/// it shrank, and if the candidates ran out forces the cell to the
/// fallback tile, collapsed, queued so the forced resolution propagates.
#[verifier::loop_isolation(false)]
fn process_uncollapsed_cell<R: Rules>(
    engine: &mut WfcEngine,
    processed: &mut Vec<bool>,
    rules: &R,
    fallback: TileType,
    h: usize,
    cpos: (i32, i32),
    Ghost(orig_cells): Ghost<Seq<Option<Cell>>>,
)
    requires
        old(engine).wf(),
        rules.wf(),
        narrowed_from(orig_cells, old(engine).cells@, rules.rule_table()),
        old(processed)@.len() == old(engine).cells@.len(),
        old(engine).live(h as int),
        !old(engine).cell(h as int).is_collapsed,
        old(engine).cell(h as int).position == cpos,
        old(processed)@[h as int],
        forall|ch: int, nh: int, dd: Direction|
            #[trigger] old(engine).constrained(ch, nh, dd) && !old(engine).pair_ok(
                rules.rule_table(),
                ch,
                nh,
                dd,
            ) ==> pending(*old(engine), old(processed)@, ch) || pending(
                *old(engine),
                old(processed)@,
                nh,
            ) || ch == h as int,
        forall|x: int|
            #[trigger] old(engine).live(x) && !old(engine).cell(x).is_collapsed && old(
                engine,
            ).cell(x).valid_tiles@.len() == 0 ==> pending(*old(engine), old(processed)@, x) || x
                == h as int,
    ensures
        final(engine).wf(),
        final(processed)@.len() == old(processed)@.len(),
        footprint_preserved(*old(engine), *final(engine)),
        narrowing_only(*old(engine), *final(engine), fallback),
        drain_cover(*final(engine), final(processed)@, rules.rule_table()),
        old(engine).settled(rules.rule_table()) ==> final(engine).cells@ == old(engine).cells@
            && final(engine).queue == old(engine).queue && final(processed)@ == old(processed)@,
        target_quiet(*old(engine), rules.rule_table(), h as int) ==> final(engine).cells@ == old(
            engine,
        ).cells@ && final(engine).queue == old(engine).queue && final(processed)@ == old(
            processed,
        )@,
        count_if(final(engine).cells@, uncollapsed_slot()) < count_if(
            old(engine).cells@,
            uncollapsed_slot(),
        ) || (count_if(final(engine).cells@, uncollapsed_slot()) == count_if(
            old(engine).cells@,
            uncollapsed_slot(),
        ) && final(processed)@ == old(processed)@),
        narrowed_from(orig_cells, final(engine).cells@, rules.rule_table()),
{
    let ghost table = rules.rule_table();
    let ghost pre = *old(engine);
    let ghost pre_p = old(processed)@;
    let ghost quiet = pre.settled(table) || target_quiet(pre, table, h as int);
    let directions = all_directions();
    let mut new_valid = match &engine.cells[h] {
        Option::Some(c) => clone_tiles(&c.valid_tiles),
        Option::None => Vec::new(),
    };
    let prev_total = new_valid.len();
    let ghost v0 = new_valid@;
    proof {
        assert(v0 == pre.cell(h as int).valid_tiles@);
        assert(pre.cell(h as int).wf());
    }
    proof {
        lemma_retained_all(v0, v0);
    }
    let mut d: usize = 0;
    while d < 4
        invariant
            d <= 4,
            new_valid@.len() <= v0.len(),
            forall|i: int| 0 <= i < new_valid@.len() ==> v0.contains(#[trigger] new_valid@[i]),
            new_valid@.len() == v0.len() ==> new_valid@ == v0,
            new_valid@ == retained(v0, new_valid@),
            forall|t: TileType|
                v0.contains(t) && !new_valid@.contains(t) ==> !allowed_by_all_neighbors(
                    engine.cells@,
                    table,
                    h as int,
                    t,
                ),
            quiet == (pre.settled(table) || target_quiet(pre, table, h as int)),
            forall|j: int|
                0 <= j < d ==> dir_scanned_ok(
                    *engine,
                    table,
                    cpos,
                    directions@[j as int],
                    new_valid@,
                ),
            quiet ==> new_valid@ == v0,
        decreases 4 - d,
    {
        let ghost valid_before = new_valid@;
        let dir = directions[d];
        let (dx, dz) = dir.delta();
        proof {
            assert(engine.live(h as int));
            assert(crate::engine::pos_in_bounds(engine.cell(h as int).position));
            assert(engine.cell(h as int).position == cpos);
        }
        let npos = (cpos.0 + dx, cpos.1 + dz);
        let mut filtered_against: Option<usize> = Option::None;
        match engine.spatial_index.get_pos(npos) {
            Option::Some(nh) => {
                let ninfo: Option<Option<TileType>> = match &engine.cells[nh] {
                    Option::Some(c) => {
                        if c.is_collapsed {
                            Option::Some(c.tile_type)
                        } else {
                            Option::None
                        }
                    },
                    Option::None => Option::None,
                };
                match ninfo {
                    Option::Some(neighbor_tile_opt) => {
                        proof {
                            assert(engine.live(nh as int));
                            assert(engine.cell(nh as int).wf());
                        }
                        let neighbor_tile = match neighbor_tile_opt {
                            Option::Some(t) => t,
                            Option::None => fallback,
                        };
                        let opp = get_opposite_direction(dir);
                        filter_valid_tiles(&mut new_valid, neighbor_tile, opp, rules);
                        filtered_against = Option::Some(nh);
                        proof {
                            lemma_filter_in_original(
                                valid_before,
                                allowed_by(table, neighbor_tile, opp),
                            );
                            assert(neighbor_tile_opt is Some);
                            assert(neighbor_tile == engine.cell(nh as int).tile_type->0);
                            assert forall|i: int| 0 <= i < valid_before.len() implies allowed_by(
                                table,
                                neighbor_tile,
                                opp,
                            )(#[trigger] valid_before[i]) == new_valid@.contains(
                                valid_before[i],
                            ) by {
                                lemma_filter_contains_iff(
                                    valid_before,
                                    allowed_by(table, neighbor_tile, opp),
                                    valid_before[i],
                                );
                            }
                            lemma_retained_as_filter(
                                valid_before,
                                new_valid@,
                                allowed_by(table, neighbor_tile, opp),
                            );
                            lemma_retained_chain_kept(v0, valid_before, new_valid@);
                            lemma_direction_facts(dir);
                            assert forall|t: TileType|
                                v0.contains(t) && !new_valid@.contains(
                                    t,
                                ) implies !allowed_by_all_neighbors(
                                engine.cells@,
                                table,
                                h as int,
                                t,
                            ) by {
                                if valid_before.contains(t) {
                                    lemma_filter_contains_iff(
                                        valid_before,
                                        allowed_by(table, neighbor_tile, opp),
                                        t,
                                    );
                                    assert(!table.allows(neighbor_tile, opp, t));
                                    assert((engine.cells@[h as int]->0).position == cpos);
                                    assert(is_neighbor(
                                        (engine.cells@[nh as int]->0).position,
                                        opp,
                                        (engine.cells@[h as int]->0).position,
                                    ));
                                }
                            }
                            if new_valid@.len() == valid_before.len() {
                                lemma_filter_same_len_same_seq(
                                    valid_before,
                                    allowed_by(table, neighbor_tile, opp),
                                );
                            }
                            if quiet {
                                // the pair is already consistent, so the
                                // filter keeps everything
                                lemma_direction_facts(dir);
                                assert(is_neighbor(
                                    engine.cell(nh as int).position,
                                    opposite_spec(dir),
                                    cpos,
                                ));
                                assert(engine.constrained(
                                    h as int,
                                    nh as int,
                                    opposite_spec(dir),
                                ));
                                if pre.settled(table) {
                                    lemma_settled_same_cells(pre, *engine, table);
                                } else {
                                    assert(pre.constrained(h as int, nh as int, opposite_spec(dir)));
                                }
                                assert(engine.pair_ok(table, h as int, nh as int, opposite_spec(dir)));
                                assert forall|i: int| 0 <= i < valid_before.len() implies allowed_by(
                                    table,
                                    neighbor_tile,
                                    opp,
                                )(#[trigger] valid_before[i]) by {
                                    assert(valid_before[i] == engine.cell(
                                        h as int,
                                    ).valid_tiles@[i]);
                                }
                                lemma_filter_all_pass(
                                    valid_before,
                                    allowed_by(table, neighbor_tile, opp),
                                );
                            }
                        }
                    },
                    Option::None => {},
                }
            },
            Option::None => {},
        }
        proof {
            // the scanned directions stay respected by the shrunken list
            assert forall|j: int| 0 <= j < d + 1 implies dir_scanned_ok(
                *engine,
                table,
                cpos,
                directions@[j as int],
                new_valid@,
            ) by {
                if j < d {
                    assert(dir_scanned_ok(
                        *engine,
                        table,
                        cpos,
                        directions@[j as int],
                        valid_before,
                    ));
                    assert forall|nh2: int|
                        #[trigger] engine.live(nh2) && engine.cell(nh2).is_collapsed
                            && is_neighbor(
                            cpos,
                            directions@[j as int],
                            engine.cell(nh2).position,
                        ) implies all_allowed(
                        table,
                        engine.cell(nh2).tile_type->0,
                        opposite_spec(directions@[j as int]),
                        new_valid@,
                    ) by {
                        lemma_all_allowed_subset(
                            table,
                            engine.cell(nh2).tile_type->0,
                            opposite_spec(directions@[j as int]),
                            valid_before,
                            new_valid@,
                        );
                    }
                } else {
                    // the direction handled this iteration
                    assert forall|nh2: int|
                        #[trigger] engine.live(nh2) && engine.cell(nh2).is_collapsed
                            && is_neighbor(cpos, dir, engine.cell(nh2).position) implies all_allowed(
                        table,
                        engine.cell(nh2).tile_type->0,
                        opposite_spec(dir),
                        new_valid@,
                    ) by {
                        assert(engine.cell(nh2).position == npos);
                        assert(engine.spatial_index.has(npos));
                        assert(engine.spatial_index.at(npos) as int == nh2);
                        match filtered_against {
                            Option::Some(nh) => {
                                assert(nh2 == nh as int);
                                assert(new_valid@ == valid_before.filter(
                                    allowed_by(
                                        table,
                                        engine.cell(nh2).tile_type->0,
                                        opposite_spec(dir),
                                    ),
                                ));
                            },
                            Option::None => {
                                assert(false);
                            },
                        }
                    }
                }
            }
        }
        d = d + 1;
    }
    let ghost vfinal = new_valid@;
    let new_total = new_valid.len();
    if new_total == 0 {
        // contradiction: force the designated fallback, collapsed, and
        // queue the cell so the forced resolution itself propagates
        proof {
            lemma_narrowing_refl(pre, fallback);
        }
        let mut forced_tiles: Vec<TileType> = Vec::new();
        forced_tiles.push(fallback);
        let forced_cell = Cell {
            is_collapsed: true,
            tile_type: Option::Some(fallback),
            entropy: 0,
            valid_tiles: forced_tiles,
            position: cpos,
        };
        let ghost forced_snapshot = forced_cell;
        let ghost step = *engine;
        let ghost step_p = processed@;
        engine.cells[h] = Option::Some(forced_cell);
        engine.queue.push_back(h);
        processed[h] = false;
        proof {
            step.lemma_wf_update_cell(*engine, h as int, forced_snapshot);
            lemma_count_if_update(
                step.cells@,
                uncollapsed_slot(),
                h as int,
                Option::Some(forced_snapshot),
            );
            lemma_count_if_bounds(step.cells@, uncollapsed_slot());
            assert forall|i: int|
                0 <= i < (orig_cells[h as int]->0).valid_tiles@.len()
                    implies !allowed_by_all_neighbors(
                engine.cells@,
                table,
                h as int,
                #[trigger] (orig_cells[h as int]->0).valid_tiles@[i],
            ) by {
                let t = (orig_cells[h as int]->0).valid_tiles@[i];
                assert(!vfinal.contains(t));
                if v0.contains(t) {
                    assert(!allowed_by_all_neighbors(step.cells@, table, h as int, t));
                } else {
                    assert(!step.cell(h as int).valid_tiles@.contains(t));
                    assert(!allowed_by_all_neighbors(step.cells@, table, h as int, t));
                }
                lemma_rejection_persists(step.cells@, engine.cells@, table, h as int, t);
            }
            lemma_narrowed_step(orig_cells, step.cells@, engine.cells@, table, h as int);
            assert(engine.queue.queue@[engine.queue.queue@.len() - 1] == h);
            assert(pending(*engine, processed@, h as int));
            assert forall|x: int| pending(step, step_p, x) implies pending(
                *engine,
                processed@,
                x,
            ) by {
                lemma_in_queue_monotone(step, *engine, x, h, true);
            }
            lemma_narrowing_step_force(pre, step, *engine, h as int, fallback);
            assert forall|ch2: int, nh2: int, dd: Direction|
                #[trigger] engine.constrained(ch2, nh2, dd) && !engine.pair_ok(table, ch2, nh2, dd)
                    implies pending(*engine, processed@, ch2) || pending(
                *engine,
                processed@,
                nh2,
            ) by {
                if ch2 == h as int {
                    assert(!engine.cell(ch2).is_collapsed);
                    assert(false);
                } else if nh2 == h as int {
                    assert(pending(*engine, processed@, nh2));
                } else {
                    assert(engine.cell(ch2) == step.cell(ch2));
                    assert(engine.cell(nh2) == step.cell(nh2));
                    assert(step.constrained(ch2, nh2, dd));
                    assert(!step.pair_ok(table, ch2, nh2, dd)) by {
                        if step.pair_ok(table, ch2, nh2, dd) {
                            assert(engine.pair_ok(table, ch2, nh2, dd));
                        }
                    }
                }
            }
            assert forall|x: int|
                #[trigger] engine.live(x) && !engine.cell(x).is_collapsed && engine.cell(
                    x,
                ).valid_tiles@.len() == 0 implies pending(*engine, processed@, x) by {
                assert(x != h as int);
                assert(engine.cell(x) == step.cell(x));
            }
            if quiet {
                assert(new_valid@ == v0);
                assert(v0.len() > 0);
                assert(false);
            }
        }
    } else if new_total != prev_total {
        // the candidate set shrank: commit it and its entropy
        proof {
            lemma_narrowing_refl(pre, fallback);
        }
        let narrowed_cell = Cell {
            is_collapsed: false,
            tile_type: Option::None,
            entropy: new_total as i32,
            valid_tiles: new_valid,
            position: cpos,
        };
        let ghost narrowed_snapshot = narrowed_cell;
        let ghost step = *engine;
        engine.cells[h] = Option::Some(narrowed_cell);
        proof {
            step.lemma_wf_update_cell(*engine, h as int, narrowed_snapshot);
            lemma_count_if_update(
                step.cells@,
                uncollapsed_slot(),
                h as int,
                Option::Some(narrowed_snapshot),
            );
            lemma_narrowing_step_narrow(pre, step, *engine, h as int, fallback);
            assert(engine.cell(h as int).valid_tiles@ == vfinal);
            assert(step.cell(h as int).valid_tiles@ == v0);
            assert forall|t: TileType|
                v0.contains(t) && !vfinal.contains(t) implies !allowed_by_all_neighbors(
                engine.cells@,
                table,
                h as int,
                t,
            ) by {
                assert(!allowed_by_all_neighbors(step.cells@, table, h as int, t));
                lemma_rejection_persists(step.cells@, engine.cells@, table, h as int, t);
            }
            lemma_narrowed_step(orig_cells, step.cells@, engine.cells@, table, h as int);
            assert forall|j: int| 0 <= j < 4 implies dir_scanned_ok(
                *engine,
                table,
                cpos,
                directions@[j as int],
                engine.cell(h as int).valid_tiles@,
            ) by {
                assert(dir_scanned_ok(step, table, cpos, directions@[j as int], vfinal));
                assert forall|nh2: int|
                    #[trigger] engine.live(nh2) && engine.cell(nh2).is_collapsed && is_neighbor(
                        cpos,
                        directions@[j as int],
                        engine.cell(nh2).position,
                    ) implies all_allowed(
                    table,
                    engine.cell(nh2).tile_type->0,
                    opposite_spec(directions@[j as int]),
                    engine.cell(h as int).valid_tiles@,
                ) by {
                    assert(nh2 != h as int);
                    assert(engine.cell(nh2) == step.cell(nh2));
                    assert(step.live(nh2));
                }
            }
            lemma_uncollapsed_pairs_ok(*engine, table, h as int, cpos, directions@);
            assert forall|ch2: int, nh2: int, dd: Direction|
                #[trigger] engine.constrained(ch2, nh2, dd) && !engine.pair_ok(table, ch2, nh2, dd)
                    implies pending(*engine, processed@, ch2) || pending(
                *engine,
                processed@,
                nh2,
            ) by {
                if ch2 == h as int {
                    assert(false);
                } else if nh2 == h as int {
                    assert(!engine.cell(nh2).is_collapsed);
                    assert(false);
                } else {
                    assert(engine.cell(ch2) == step.cell(ch2));
                    assert(engine.cell(nh2) == step.cell(nh2));
                    assert(step.constrained(ch2, nh2, dd));
                    assert(!step.pair_ok(table, ch2, nh2, dd)) by {
                        if step.pair_ok(table, ch2, nh2, dd) {
                            assert(engine.pair_ok(table, ch2, nh2, dd));
                        }
                    }
                }
            }
            assert forall|x: int|
                #[trigger] engine.live(x) && !engine.cell(x).is_collapsed && engine.cell(
                    x,
                ).valid_tiles@.len() == 0 implies pending(*engine, processed@, x) by {
                if x == h as int {
                    assert(engine.cell(x).valid_tiles@.len() == new_total);
                    assert(false);
                } else {
                    assert(engine.cell(x) == step.cell(x));
                }
            }
            if quiet {
                assert(vfinal == v0);
                assert(false);
            }
        }
    } else {
        // nothing shrank, so the committed candidates already equal the
        // recomputed ones, and every neighboring constraint holds of them
        proof {
            assert(vfinal.len() == v0.len());
            assert(vfinal == v0);
            assert(engine.cell(h as int).valid_tiles@ == vfinal);
            lemma_uncollapsed_pairs_ok(*engine, table, h as int, cpos, directions@);
            assert forall|ch2: int, nh2: int, dd: Direction|
                #[trigger] engine.constrained(ch2, nh2, dd) && !engine.pair_ok(table, ch2, nh2, dd)
                    implies pending(*engine, processed@, ch2) || pending(
                *engine,
                processed@,
                nh2,
            ) by {
                if ch2 == h as int {
                    assert(false);
                }
            }
            assert forall|x: int|
                #[trigger] engine.live(x) && !engine.cell(x).is_collapsed && engine.cell(
                    x,
                ).valid_tiles@.len() == 0 implies pending(*engine, processed@, x) by {
                if x == h as int {
                    assert(engine.cell(x).valid_tiles@ == v0);
                    assert(false);
                }
            }
        }
    }
}

/// One drain step for a collapsed cell holding `tile` at `cpos`: filters
/// every uncollapsed live neighbor against `tile`'s rule rows, re-enqueues
/// neighbors that shrank, and forces a neighbor whose candidates ran out to
/// the fallback tile, collapsed, queued for re-processing.
#[verifier::rlimit(60)]
#[verifier::loop_isolation(false)]
fn process_collapsed_cell<R: Rules>(
    engine: &mut WfcEngine,
    processed: &mut Vec<bool>,
    rules: &R,
    fallback: TileType,
    h: usize,
    tile: TileType,
    cpos: (i32, i32),
    Ghost(orig_cells): Ghost<Seq<Option<Cell>>>,
)
    requires
        old(engine).wf(),
        rules.wf(),
        narrowed_from(orig_cells, old(engine).cells@, rules.rule_table()),
        old(processed)@.len() == old(engine).cells@.len(),
        old(engine).live(h as int),
        old(engine).cell(h as int).is_collapsed,
        old(engine).cell(h as int).tile_type == Option::Some(tile),
        old(engine).cell(h as int).position == cpos,
        old(processed)@[h as int],
        forall|ch: int, nh: int, dd: Direction|
            #[trigger] old(engine).constrained(ch, nh, dd) && !old(engine).pair_ok(
                rules.rule_table(),
                ch,
                nh,
                dd,
            ) ==> pending(*old(engine), old(processed)@, ch) || pending(
                *old(engine),
                old(processed)@,
                nh,
            ) || nh == h as int,
        forall|x: int|
            #[trigger] old(engine).live(x) && !old(engine).cell(x).is_collapsed && old(
                engine,
            ).cell(x).valid_tiles@.len() == 0 ==> pending(*old(engine), old(processed)@, x),
    ensures
        final(engine).wf(),
        final(processed)@.len() == old(processed)@.len(),
        footprint_preserved(*old(engine), *final(engine)),
        narrowing_only(*old(engine), *final(engine), fallback),
        drain_cover(*final(engine), final(processed)@, rules.rule_table()),
        old(engine).settled(rules.rule_table()) ==> final(engine).cells@ == old(engine).cells@
            && final(engine).queue == old(engine).queue && final(processed)@ == old(processed)@,
        source_quiet(*old(engine), rules.rule_table(), h as int) ==> final(engine).cells@ == old(
            engine,
        ).cells@ && final(engine).queue == old(engine).queue && final(processed)@ == old(
            processed,
        )@,
        count_if(final(engine).cells@, uncollapsed_slot()) < count_if(
            old(engine).cells@,
            uncollapsed_slot(),
        ) || (count_if(final(engine).cells@, uncollapsed_slot()) == count_if(
            old(engine).cells@,
            uncollapsed_slot(),
        ) && final(processed)@ == old(processed)@),
        narrowed_from(orig_cells, final(engine).cells@, rules.rule_table()),
{
    let ghost table = rules.rule_table();
    let ghost pre = *old(engine);
    let ghost pre_p = old(processed)@;
    let ghost quiet = pre.settled(table) || source_quiet(pre, table, h as int);
    let directions = all_directions();
    let mut d: usize = 0;
    while d < 4
        invariant
            d <= 4,
            engine.wf(),
            engine.cells@.len() == pre.cells@.len(),
            processed@.len() == pre_p.len(),
            footprint_preserved(pre, *engine),
            narrowing_only(pre, *engine, fallback),
            narrowed_from(orig_cells, engine.cells@, table),
            engine.live(h as int),
            engine.cell(h as int) == pre.cell(h as int),
            forall|x: int| pending(pre, pre_p, x) ==> pending(*engine, processed@, x),
            forall|ch: int, nh: int, dd: Direction|
                #[trigger] engine.constrained(ch, nh, dd) && !engine.pair_ok(table, ch, nh, dd)
                    ==> pending(*engine, processed@, ch) || pending(*engine, processed@, nh) || (nh
                    == h as int && exists|j: int| d <= j < 4 && directions@[j as int] == dd),
            forall|x: int|
                #[trigger] engine.live(x) && !engine.cell(x).is_collapsed && engine.cell(
                    x,
                ).valid_tiles@.len() == 0 ==> pending(*engine, processed@, x),
            quiet == (pre.settled(table) || source_quiet(pre, table, h as int)),
            quiet ==> engine.cells@ == pre.cells@ && engine.queue == pre.queue && processed@
                == pre_p,
            count_if(engine.cells@, uncollapsed_slot()) < count_if(pre.cells@, uncollapsed_slot())
                || (count_if(engine.cells@, uncollapsed_slot()) == count_if(
                pre.cells@,
                uncollapsed_slot(),
            ) && processed@ == pre_p),
        decreases 4 - d,
    {
        let dir = directions[d];
        let (dx, dz) = dir.delta();
        proof {
            assert(engine.live(h as int));
            assert(crate::engine::pos_in_bounds(engine.cell(h as int).position));
            assert(engine.cell(h as int).position == cpos);
        }
        let npos = (cpos.0 + dx, cpos.1 + dz);
        let ghost step = *engine;
        let ghost step_p = processed@;
        match engine.spatial_index.get_pos(npos) {
            Option::Some(nh) => {
                let ninfo: Option<bool> = match &engine.cells[nh] {
                    Option::Some(c) => Option::Some(c.is_collapsed),
                    Option::None => Option::None,
                };
                proof {
                    assert(engine.live(nh as int));
                    assert(engine.cell(nh as int).position == npos);
                }
                match ninfo {
                    Option::Some(false) => {
                        // an uncollapsed live neighbor: narrow it
                        let mut new_valid = match &engine.cells[nh] {
                            Option::Some(c) => clone_tiles(&c.valid_tiles),
                            Option::None => Vec::new(),
                        };
                        let prev_len = new_valid.len();
                        filter_valid_tiles(&mut new_valid, tile, dir, rules);
                        let new_len = new_valid.len();
                        proof {
                            assert(nh as int != h as int);
                            assert(new_valid@ == step.cell(nh as int).valid_tiles@.filter(
                                allowed_by(table, tile, dir),
                            ));
                            lemma_filter_in_original(
                                step.cell(nh as int).valid_tiles@,
                                allowed_by(table, tile, dir),
                            );
                            assert(step.cell(nh as int).wf());
                            if quiet {
                                // a quiet source filters nothing away
                                assert(step.constrained(nh as int, h as int, dir));
                                if pre.settled(table) {
                                    lemma_settled_same_cells(pre, step, table);
                                    assert(step.pair_ok(table, nh as int, h as int, dir));
                                } else {
                                    assert(pre.constrained(nh as int, h as int, dir));
                                    assert(pre.pair_ok(table, nh as int, h as int, dir));
                                    assert(pre.cell(nh as int).valid_tiles@.len() > 0);
                                    assert(step.pair_ok(table, nh as int, h as int, dir));
                                }
                                assert forall|i: int|
                                    0 <= i < step.cell(nh as int).valid_tiles@.len()
                                        implies allowed_by(table, tile, dir)(
                                    #[trigger] step.cell(nh as int).valid_tiles@[i],
                                ) by {}
                                lemma_filter_all_pass(
                                    step.cell(nh as int).valid_tiles@,
                                    allowed_by(table, tile, dir),
                                );
                                assert(new_len == prev_len);
                                assert(prev_len > 0);
                            }
                        }
                        if new_len == 0 {
                            // contradiction: force the designated fallback
                            let mut forced_tiles: Vec<TileType> = Vec::new();
                            forced_tiles.push(fallback);
                            let forced_cell = Cell {
                                is_collapsed: true,
                                tile_type: Option::Some(fallback),
                                entropy: 0,
                                valid_tiles: forced_tiles,
                                position: npos,
                            };
                            let ghost forced_snapshot = forced_cell;
                            engine.cells[nh] = Option::Some(forced_cell);
                            engine.queue.push_back(nh);
                            processed[nh] = false;
                            proof {
                                step.lemma_wf_update_cell(*engine, nh as int, forced_snapshot);
                                lemma_count_if_update(
                                    step.cells@,
                                    uncollapsed_slot(),
                                    nh as int,
                                    Option::Some(forced_snapshot),
                                );
                                lemma_count_if_bounds(step.cells@, uncollapsed_slot());
                                assert forall|i: int|
                                    0 <= i < (orig_cells[nh as int]->0).valid_tiles@.len()
                                        implies !allowed_by_all_neighbors(
                                    engine.cells@,
                                    table,
                                    nh as int,
                                    #[trigger] (orig_cells[nh as int]->0).valid_tiles@[i],
                                ) by {
                                    let t = (orig_cells[nh as int]->0).valid_tiles@[i];
                                    if step.cell(nh as int).valid_tiles@.contains(t) {
                                        lemma_filter_contains_iff(
                                            step.cell(nh as int).valid_tiles@,
                                            allowed_by(table, tile, dir),
                                            t,
                                        );
                                        assert(!table.allows(tile, dir, t));
                                        assert(engine.cells@[h as int] == step.cells@[h as int]);
                                        assert(is_neighbor(
                                            (engine.cells@[h as int]->0).position,
                                            dir,
                                            (engine.cells@[nh as int]->0).position,
                                        ));
                                    } else {
                                        assert(!allowed_by_all_neighbors(
                                            step.cells@,
                                            table,
                                            nh as int,
                                            t,
                                        ));
                                        lemma_rejection_persists(
                                            step.cells@,
                                            engine.cells@,
                                            table,
                                            nh as int,
                                            t,
                                        );
                                    }
                                }
                                lemma_narrowed_step(
                                    orig_cells,
                                    step.cells@,
                                    engine.cells@,
                                    table,
                                    nh as int,
                                );
                                assert(engine.queue.queue@[engine.queue.queue@.len() - 1] == nh);
                                assert(pending(*engine, processed@, nh as int));
                                assert forall|x: int| pending(step, step_p, x) implies pending(
                                    *engine,
                                    processed@,
                                    x,
                                ) by {
                                    lemma_in_queue_monotone(step, *engine, x, nh, true);
                                }
                                assert(footprint_preserved(pre, *engine));
                                assert(narrowing_only(pre, *engine, fallback)) by {
                                    lemma_narrowing_step_force(
                                        pre,
                                        step,
                                        *engine,
                                        nh as int,
                                        fallback,
                                    );
                                }
                                assert forall|ch2: int, nh2: int, dd: Direction|
                                    #[trigger] engine.constrained(ch2, nh2, dd)
                                        && !engine.pair_ok(table, ch2, nh2, dd) implies pending(
                                    *engine,
                                    processed@,
                                    ch2,
                                ) || pending(*engine, processed@, nh2) || (nh2 == h as int
                                    && exists|j: int|
                                    d + 1 <= j < 4 && directions@[j as int] == dd) by {
                                    lemma_cover_case_mutated(
                                        pre,
                                        step,
                                        *engine,
                                        step_p,
                                        processed@,
                                        table,
                                        h as int,
                                        nh as int,
                                        dir,
                                        d as int,
                                        directions@,
                                        ch2,
                                        nh2,
                                        dd,
                                    );
                                }
                            }
                        } else if new_len != prev_len {
                            let narrowed_cell = Cell {
                                is_collapsed: false,
                                tile_type: Option::None,
                                entropy: new_len as i32,
                                valid_tiles: new_valid,
                                position: npos,
                            };
                            let ghost narrowed_snapshot = narrowed_cell;
                            engine.cells[nh] = Option::Some(narrowed_cell);
                            engine.queue.push_back(nh);
                            proof {
                                step.lemma_wf_update_cell(*engine, nh as int, narrowed_snapshot);
                                lemma_count_if_update(
                                    step.cells@,
                                    uncollapsed_slot(),
                                    nh as int,
                                    Option::Some(narrowed_snapshot),
                                );
                                let cur = step.cell(nh as int).valid_tiles@;
                                assert forall|i: int| 0 <= i < cur.len() implies allowed_by(
                                    table,
                                    tile,
                                    dir,
                                )(#[trigger] cur[i]) == engine.cell(
                                    nh as int,
                                ).valid_tiles@.contains(cur[i]) by {
                                    lemma_filter_contains_iff(
                                        cur,
                                        allowed_by(table, tile, dir),
                                        cur[i],
                                    );
                                }
                                lemma_retained_as_filter(
                                    cur,
                                    engine.cell(nh as int).valid_tiles@,
                                    allowed_by(table, tile, dir),
                                );
                                assert forall|t: TileType|
                                    cur.contains(t) && !engine.cell(
                                        nh as int,
                                    ).valid_tiles@.contains(t) implies !allowed_by_all_neighbors(
                                    engine.cells@,
                                    table,
                                    nh as int,
                                    t,
                                ) by {
                                    lemma_filter_contains_iff(
                                        cur,
                                        allowed_by(table, tile, dir),
                                        t,
                                    );
                                    assert(!table.allows(tile, dir, t));
                                    assert(engine.cells@[h as int] == step.cells@[h as int]);
                                    assert(is_neighbor(
                                        (engine.cells@[h as int]->0).position,
                                        dir,
                                        (engine.cells@[nh as int]->0).position,
                                    ));
                                }
                                lemma_narrowed_step(
                                    orig_cells,
                                    step.cells@,
                                    engine.cells@,
                                    table,
                                    nh as int,
                                );
                                assert(engine.queue.queue@[engine.queue.queue@.len() - 1] == nh);
                                assert forall|x: int| pending(step, step_p, x) implies pending(
                                    *engine,
                                    processed@,
                                    x,
                                ) by {
                                    lemma_in_queue_monotone(step, *engine, x, nh, true);
                                }
                                assert(footprint_preserved(pre, *engine));
                                assert(narrowing_only(pre, *engine, fallback)) by {
                                    lemma_narrowing_step_narrow(
                                        pre,
                                        step,
                                        *engine,
                                        nh as int,
                                        fallback,
                                    );
                                }
                                assert forall|ch2: int, nh2: int, dd: Direction|
                                    #[trigger] engine.constrained(ch2, nh2, dd)
                                        && !engine.pair_ok(table, ch2, nh2, dd) implies pending(
                                    *engine,
                                    processed@,
                                    ch2,
                                ) || pending(*engine, processed@, nh2) || (nh2 == h as int
                                    && exists|j: int|
                                    d + 1 <= j < 4 && directions@[j as int] == dd) by {
                                    lemma_cover_case_mutated(
                                        pre,
                                        step,
                                        *engine,
                                        step_p,
                                        processed@,
                                        table,
                                        h as int,
                                        nh as int,
                                        dir,
                                        d as int,
                                        directions@,
                                        ch2,
                                        nh2,
                                        dd,
                                    );
                                }
                            }
                        } else {
                            proof {
                                lemma_filter_same_len_same_seq(
                                    step.cell(nh as int).valid_tiles@,
                                    allowed_by(table, tile, dir),
                                );
                                assert(engine.cell(nh as int).valid_tiles@ == engine.cell(
                                    nh as int,
                                ).valid_tiles@.filter(allowed_by(table, tile, dir)));
                                assert forall|ch2: int, nh2: int, dd: Direction|
                                    #[trigger] engine.constrained(ch2, nh2, dd)
                                        && !engine.pair_ok(table, ch2, nh2, dd) implies pending(
                                    *engine,
                                    processed@,
                                    ch2,
                                ) || pending(*engine, processed@, nh2) || (nh2 == h as int
                                    && exists|j: int|
                                    d + 1 <= j < 4 && directions@[j as int] == dd) by {
                                    if nh2 == h as int && dd == dir {
                                        // the cell here already satisfies the row
                                        lemma_unique_live_at(*engine, ch2, nh as int);
                                        assert(ch2 == nh as int);
                                        assert forall|i: int|
                                            0 <= i < engine.cell(ch2).valid_tiles@.len()
                                                implies table.allows(
                                            tile,
                                            dir,
                                            #[trigger] engine.cell(ch2).valid_tiles@[i],
                                        ) by {
                                            let s = engine.cell(ch2).valid_tiles@;
                                            assert(s.filter(allowed_by(table, tile, dir))[i]
                                                == s[i]);
                                            assert(allowed_by(table, tile, dir)(s[i]));
                                        }
                                        assert(engine.pair_ok(table, ch2, nh2, dd));
                                    } else {
                                        if dd != dir {
                                            lemma_exception_shrinks(
                                                d as int,
                                                directions@,
                                                dd,
                                                dir,
                                            );
                                        }
                                    }
                                }
                            }
                        }
                    },
                    _ => {
                        // destroyed handle in the index cannot happen; a
                        // collapsed neighbor is not constrained by this cell
                        proof {
                            assert forall|ch2: int, nh2: int, dd: Direction|
                                #[trigger] engine.constrained(ch2, nh2, dd) && !engine.pair_ok(
                                    table,
                                    ch2,
                                    nh2,
                                    dd,
                                ) implies pending(*engine, processed@, ch2) || pending(
                                *engine,
                                processed@,
                                nh2,
                            ) || (nh2 == h as int && exists|j: int|
                                d + 1 <= j < 4 && directions@[j as int] == dd) by {
                                if nh2 == h as int && dd == dir {
                                    lemma_unique_live_at(*engine, ch2, nh as int);
                                    assert(ch2 == nh as int);
                                    assert(!engine.cell(ch2).is_collapsed);
                                    assert(false);
                                } else {
                                    if dd != dir {
                                        lemma_exception_shrinks(d as int, directions@, dd, dir);
                                    }
                                }
                            }
                        }
                    },
                }
            },
            Option::None => {
                proof {
                    assert forall|ch2: int, nh2: int, dd: Direction|
                        #[trigger] engine.constrained(ch2, nh2, dd) && !engine.pair_ok(
                            table,
                            ch2,
                            nh2,
                            dd,
                        ) implies pending(*engine, processed@, ch2) || pending(
                        *engine,
                        processed@,
                        nh2,
                    ) || (nh2 == h as int && exists|j: int|
                        d + 1 <= j < 4 && directions@[j as int] == dd) by {
                        if nh2 == h as int && dd == dir {
                            // a constrained cell would stand at the looked-up
                            // coordinate, which the index lacks
                            assert(engine.cell(ch2).position == npos);
                            assert(engine.spatial_index.has(npos));
                            assert(false);
                        } else {
                            if dd != dir {
                                lemma_exception_shrinks(d as int, directions@, dd, dir);
                            }
                        }
                    }
                }
            },
        }
        d = d + 1;
    }
    proof {
        assert forall|ch: int, nh: int, dd: Direction|
            #[trigger] engine.constrained(ch, nh, dd) && !engine.pair_ok(table, ch, nh, dd)
                implies pending(*engine, processed@, ch) || pending(*engine, processed@, nh) by {
            assert(!(exists|j: int| 4 <= j < 4 && directions@[j as int] == dd));
        }
    }
}

} // verus!
