//! One generation tick, in the fixed order the engine relies on:
//! streaming creation and destruction, initialization of newly created
//! cells, draining the propagation queue, and one entropy-driven collapse.

use vstd::prelude::*;

use crate::collapse::collapse_lowest_entropy_cell;
use crate::collapse::has_uncollapsed;
use crate::engine::WfcEngine;
use crate::propagate::initialize_new_cells;
use crate::propagate::propagate_constraints;
use crate::rules::Rules;
use crate::streaming::DESPAWN_INTERVAL_MS;
use crate::streaming::GenerationSettings;
use crate::streaming::TIME_LIMIT;
use crate::streaming::UPDATE_INTERVAL_MS;
use crate::streaming::WorldPosition;
use crate::streaming::beyond_despawn;
use crate::streaming::create_cells;
use crate::streaming::destroy_cells;
use crate::streaming::in_square;
use crate::streaming::world_to_grid_spec;
use crate::tiles::TileType;

verus! {

/// Every coordinate of the observer's square is indexed, except — when
/// the destruction pass ran — coordinates beyond the despawn distance.
pub open spec fn observer_square_present(
    eng: WfcEngine,
    observer: WorldPosition,
    settings: GenerationSettings,
    destroy_ran: bool,
) -> bool {
    forall|p: (i32, i32)|
        #[trigger] in_square(
            p,
            world_to_grid_spec(observer.x as int, settings.cell_edge_length as int),
            world_to_grid_spec(observer.z as int, settings.cell_edge_length as int),
            (settings.total_cells_on_edge as int) / 2,
        ) ==> eng.spatial_index.has(p) || (destroy_ran && beyond_despawn(observer, p, settings))
}

/// Runs one full generation tick for the observer at `observer`, at
/// elapsed time `now_ms`: cells are created around and destroyed far from
/// the observer (each pass throttled by its own interval), new cells with
/// collapsed neighbors are queued, the queue is drained to local
/// arc-consistency with contradictions forced to `fallback`, and then one
/// cell of minimal entropy is collapsed and queued for the next tick. So
/// the tick returns with at most that one handle queued; if nothing was
/// left to collapse, the grid is settled outright.
pub fn tick<R: Rules>(
    engine: &mut WfcEngine,
    rules: &R,
    settings: &GenerationSettings,
    observer: WorldPosition,
    now_ms: u64,
    fallback: TileType,
)
    requires
        old(engine).wf(),
        rules.wf(),
        settings.wf(),
        observer.wf(),
        old(engine).queue_covers(rules.rule_table()),
        now_ms <= TIME_LIMIT,
    ensures
        final(engine).wf(),
        final(engine).queue_covers(rules.rule_table()),
        final(engine).queue.queue@.len() <= 1,
        final(engine).queue.queue@.len() == 0 ==> final(engine).settled(rules.rule_table()),
        // the creation pass, when its interval has elapsed, leaves the
        // observer's whole square populated (up to what destruction took)
        (now_ms as int) >= (old(engine).last_create_ms as int) + (UPDATE_INTERVAL_MS as int)
            ==> final(engine).last_create_ms == now_ms && observer_square_present(
            *final(engine),
            observer,
            *settings,
            (now_ms as int) >= (old(engine).last_destroy_ms as int) + (
            DESPAWN_INTERVAL_MS as int),
        ),
        (now_ms as int) < (old(engine).last_create_ms as int) + (UPDATE_INTERVAL_MS as int)
            ==> final(engine).last_create_ms == old(engine).last_create_ms,
        // the destruction pass, when its interval has elapsed, keeps a
        // previously live cell exactly when it is within despawn distance
        (now_ms as int) >= (old(engine).last_destroy_ms as int) + (DESPAWN_INTERVAL_MS as int)
            ==> final(engine).last_destroy_ms == now_ms && (forall|h: int|
            #[trigger] old(engine).live(h) ==> (final(engine).live(h) <==> !beyond_despawn(
                observer,
                old(engine).cell(h).position,
                *settings,
            ))),
        (now_ms as int) < (old(engine).last_destroy_ms as int) + (DESPAWN_INTERVAL_MS as int)
            ==> final(engine).last_destroy_ms == old(engine).last_destroy_ms && (forall|h: int|
            #[trigger] old(engine).live(h) ==> final(engine).live(h)),
{
    let ghost table = rules.rule_table();
    let ghost gx = world_to_grid_spec(observer.x as int, settings.cell_edge_length as int);
    let ghost gz = world_to_grid_spec(observer.z as int, settings.cell_edge_length as int);
    let ghost half = (settings.total_cells_on_edge as int) / 2;
    let ghost create_ran = (now_ms as int) >= (old(engine).last_create_ms as int) + (
    UPDATE_INTERVAL_MS as int);
    let ghost destroy_ran = (now_ms as int) >= (old(engine).last_destroy_ms as int) + (
    DESPAWN_INTERVAL_MS as int);
    proof {
        rules.wf_implies();
    }
    let added = create_cells(engine, observer, now_ms, rules, settings);
    let ghost created = *engine;
    destroy_cells(engine, observer, now_ms, settings);
    let ghost destroyed = *engine;
    proof {
        assert(engine.covered_except(table, added@));
        assert forall|i: int|
            0 <= i < added@.len() implies {
            let h = #[trigger] added@[i] as int;
            engine.live(h) ==> !engine.cell(h).is_collapsed && engine.cell(
                h,
            ).valid_tiles@.len() > 0
        } by {
            let h = added@[i] as int;
            if engine.live(h) {
                assert(engine.cells@[h] == created.cells@[h]);
                assert(created.live(h));
                assert(!created.cell(h).is_collapsed);
                assert(created.cell(h).valid_tiles@.len() > 0);
            }
        }
        // coordinates of the square survive destruction unless far
        if create_ran {
            assert forall|p: (i32, i32)| #[trigger] in_square(p, gx, gz, half)
                implies destroyed.spatial_index.has(p) || (destroy_ran && beyond_despawn(
                observer,
                p,
                *settings,
            )) by {
                assert(created.spatial_index.has(p));
                let hp = created.spatial_index.at(p) as int;
                assert(created.live(hp) && created.cell(hp).position == p);
                if destroy_ran {
                    if !beyond_despawn(observer, p, *settings) {
                        assert(destroyed.live(hp));
                        assert(destroyed.cells@[hp] == created.cells@[hp]);
                        assert(destroyed.spatial_index.has(destroyed.cell(hp).position));
                    }
                } else {
                    assert(destroyed == created);
                }
            }
        }
        // previously live cells pass through creation unchanged
        assert forall|h: int| #[trigger] old(engine).live(h) implies created.live(h)
            && created.cell(h).position == old(engine).cell(h).position by {
            assert(created.cells@[h] == old(engine).cells@[h]);
        }
    }
    initialize_new_cells(engine, &added, rules);
    propagate_constraints(engine, rules, fallback);
    let ghost drained = *engine;
    collapse_lowest_entropy_cell(engine, rules);
    proof {
        // liveness and the index pass unchanged through initialization,
        // propagation, and collapse
        assert forall|h: int|
            #![trigger destroyed.live(h)]
            #![trigger engine.live(h)]
            destroyed.live(h) <==> engine.live(h) by {
            assert(drained.live(h) <==> destroyed.live(h));
            if drained.queue.queue@.len() == 0 && has_uncollapsed(drained) {
                let (ch, t) = choose|ch: usize, t: TileType|
                    {
                        &&& crate::collapse::is_min_entropy(drained, ch as int)
                        &&& drained.cell(ch as int).valid_tiles@.contains(t)
                        &&& crate::collapse::collapse_commit(drained, *engine, ch as int, t)
                        &&& engine.queue.queue@ == drained.queue.queue@.push(ch)
                    };
                if h != ch as int && 0 <= h < engine.cells@.len() {
                    assert(engine.cells@[h] == drained.cells@[h]);
                }
            }
        }
        assert(engine.spatial_index == destroyed.spatial_index);
        if create_ran {
            assert forall|p: (i32, i32)| #[trigger] in_square(p, gx, gz, half)
                implies engine.spatial_index.has(p) || (destroy_ran && beyond_despawn(
                observer,
                p,
                *settings,
            )) by {}
        }
        if destroy_ran {
            assert forall|h: int| #[trigger] old(engine).live(h) implies (engine.live(h)
                <==> !beyond_despawn(observer, old(engine).cell(h).position, *settings)) by {
                assert(created.live(h));
                assert(destroyed.live(h) <==> !beyond_despawn(
                    observer,
                    created.cell(h).position,
                    *settings,
                ));
            }
        } else {
            assert forall|h: int| #[trigger] old(engine).live(h) implies engine.live(h) by {
                assert(created.live(h));
                assert(destroyed == created);
            }
        }
        // at most the one collapsed handle is queued, and an empty queue
        // means the grid is settled
        assert(drained.queue.queue@.len() == 0);
        if drained.queue.queue@.len() == 0 && has_uncollapsed(drained) {
            let (ch, t) = choose|ch: usize, t: TileType|
                {
                    &&& crate::collapse::is_min_entropy(drained, ch as int)
                    &&& drained.cell(ch as int).valid_tiles@.contains(t)
                    &&& crate::collapse::collapse_commit(drained, *engine, ch as int, t)
                    &&& engine.queue.queue@ == drained.queue.queue@.push(ch)
                };
            assert(engine.queue.queue@.len() == 1);
        } else {
            assert(*engine == drained);
            assert(engine.settled(table));
        }
    }
}

} // verus!
