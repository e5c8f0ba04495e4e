//! Runs of operations on an afterlife, and what holds over a whole run.
//!
//! Each operation's contract fixes the afterlife after it as one of the
//! `after_*` functions; a run applies them in turn.
use vstd::prelude::*;
use crate::afterlife::{
    active_tiles, after_add_ghost, after_harvest, after_prune, after_query, after_tick,
    find_tile, harvested_tiles, lemma_active_complete, lemma_active_members,
    lemma_after_add_ghost_wf, lemma_after_harvest_wf, lemma_after_prune_wf, lemma_after_query_wf,
    lemma_after_tick_wf, query_fits, AfterlifeView,
};
use crate::ghost_tile::GhostTileView;
use crate::tombstone::TombstoneView;

verus! {

/// One operation that changes an afterlife.
pub enum Step {
    /// `harvest` of these lessons from this tombstone.
    Harvest { tombstone: TombstoneView, lessons: Seq<Seq<char>> },
    /// `add_ghost` with this content and source.
    AddGhost { content: Seq<char>, source_vessel: u32, source_name: Seq<char> },
    /// `tick`.
    Tick,
    /// `query` with this text and minimum relevance.
    Query { query: Seq<char>, min: u64 },
    /// `prune_forgotten`.
    Prune,
}

/// The operation's `requires` holds in `v` (beyond well-formedness).
pub open spec fn allowed(v: AfterlifeView, s: Step) -> bool {
    match s {
        Step::Harvest { tombstone, lessons } => v.total_harvested + lessons.len() <= u32::MAX,
        Step::AddGhost { .. } => v.total_harvested < u32::MAX,
        Step::Tick => v.current_period < u32::MAX,
        Step::Query { query, min } => query_fits(v, query, min),
        Step::Prune => true,
    }
}

/// The afterlife after the operation.
pub open spec fn apply(v: AfterlifeView, s: Step) -> AfterlifeView {
    match s {
        Step::Harvest { tombstone, lessons } => after_harvest(v, tombstone, lessons),
        Step::AddGhost { content, source_vessel, source_name } => after_add_ghost(
            v,
            content,
            source_vessel,
            source_name,
        ),
        Step::Tick => after_tick(v),
        Step::Query { query, min } => after_query(v, query, min),
        Step::Prune => after_prune(v),
    }
}

/// The afterlife after the operations in turn.
pub open spec fn run(v: AfterlifeView, steps: Seq<Step>) -> AfterlifeView
    decreases steps.len(),
{
    if steps.len() == 0 {
        v
    } else {
        apply(run(v, steps.drop_last()), steps.last())
    }
}

/// Every operation of the run is allowed where it comes.
pub open spec fn allowed_run(v: AfterlifeView, steps: Seq<Step>) -> bool
    decreases steps.len(),
{
    if steps.len() == 0 {
        true
    } else {
        allowed_run(v, steps.drop_last()) && allowed(run(v, steps.drop_last()), steps.last())
    }
}

/// How many ticks the run holds.
pub open spec fn ticks(steps: Seq<Step>) -> nat
    decreases steps.len(),
{
    if steps.len() == 0 {
        0
    } else {
        ticks(steps.drop_last()) + if steps.last() is Tick {
            1nat
        } else {
            0nat
        }
    }
}

/// How many tiles the run creates: one per harvested lesson and one per
/// added ghost.
pub open spec fn created(steps: Seq<Step>) -> nat
    decreases steps.len(),
{
    if steps.len() == 0 {
        0
    } else {
        created(steps.drop_last()) + match steps.last() {
            Step::Harvest { lessons, .. } => lessons.len(),
            Step::AddGhost { .. } => 1nat,
            _ => 0nat,
        }
    }
}

/// How many tiles the run's prunes remove, each prune counting what it
/// returns.
pub open spec fn pruned(v: AfterlifeView, steps: Seq<Step>) -> nat
    decreases steps.len(),
{
    if steps.len() == 0 {
        0
    } else {
        let before = run(v, steps.drop_last());
        pruned(v, steps.drop_last()) + if steps.last() is Prune {
            (before.tiles.len() - active_tiles(before.tiles).len()) as nat
        } else {
            0nat
        }
    }
}

/// The ids of the forgotten tiles in `tiles`.
pub open spec fn forgotten_ids(tiles: Seq<GhostTileView>) -> Set<u64> {
    Set::new(
        |id: u64| exists|i: int| 0 <= i < tiles.len() && #[trigger] tiles[i].id == id && tiles[i].forgotten,
    )
}

/// The ids of the tiles the run's prunes remove.
pub open spec fn pruned_ids(v: AfterlifeView, steps: Seq<Step>) -> Set<u64>
    decreases steps.len(),
{
    if steps.len() == 0 {
        Set::empty()
    } else {
        let before = run(v, steps.drop_last());
        if steps.last() is Prune {
            pruned_ids(v, steps.drop_last()).union(forgotten_ids(before.tiles))
        } else {
            pruned_ids(v, steps.drop_last())
        }
    }
}

/// An id whose tile is in `tiles`.
pub open spec fn has_id(tiles: Seq<GhostTileView>, id: u64) -> bool {
    exists|i: int| 0 <= i < tiles.len() && #[trigger] tiles[i].id == id
}

/// Over an allowed run from a well-formed afterlife: the afterlife stays
/// well-formed; the period counts the ticks; the creation count and the
/// next id count the created tiles; the tiles are those there at the start
/// and those created, less those pruned; the resurrection count never goes
/// down, and only queries change it.
pub proof fn law_run(v: AfterlifeView, steps: Seq<Step>)
    requires
        v.wf(),
        allowed_run(v, steps),
    ensures
        run(v, steps).wf(),
        run(v, steps).current_period == v.current_period + ticks(steps),
        run(v, steps).total_harvested == v.total_harvested + created(steps),
        run(v, steps).next_id == v.next_id + created(steps),
        run(v, steps).tiles.len() + pruned(v, steps) == v.tiles.len() + created(steps),
        run(v, steps).total_resurrections >= v.total_resurrections,
        forall|i: int|
            0 <= i <= steps.len() ==> (#[trigger] run(v, steps.take(i))).total_resurrections
                <= run(v, steps).total_resurrections,
    decreases steps.len(),
{
    if steps.len() > 0 {
        let init = steps.drop_last();
        law_run(v, init);
        let pre = run(v, init);
        let s = steps.last();
        match s {
            Step::Harvest { tombstone, lessons } => {
                lemma_after_harvest_wf(pre, tombstone, lessons);
            },
            Step::AddGhost { content, source_vessel, source_name } => {
                lemma_after_add_ghost_wf(pre, content, source_vessel, source_name);
            },
            Step::Tick => {
                lemma_after_tick_wf(pre);
            },
            Step::Query { query, min } => {
                lemma_after_query_wf(pre, query, min);
            },
            Step::Prune => {
                lemma_after_prune_wf(pre);
                lemma_active_len_le(pre.tiles);
            },
        }
        assert forall|i: int| 0 <= i <= steps.len() implies (#[trigger] run(
            v,
            steps.take(i),
        )).total_resurrections <= run(v, steps).total_resurrections by {
            if i == steps.len() {
                assert(steps.take(i) =~= steps);
            } else {
                assert(steps.take(i) =~= init.take(i));
                assert(run(v, init.take(i)).total_resurrections <= pre.total_resurrections);
            }
        }
    } else {
        assert forall|i: int| 0 <= i <= steps.len() implies (#[trigger] run(
            v,
            steps.take(i),
        )).total_resurrections <= run(v, steps).total_resurrections by {
            assert(steps.take(i) =~= steps);
        }
    }
}

/// Only a tick changes the period, only a query changes the resurrection
/// count, and only a harvest or an added ghost changes the creation count.
pub proof fn law_step_counters(v: AfterlifeView, s: Step)
    requires
        v.wf(),
        allowed(v, s),
    ensures
        !(s is Tick) ==> apply(v, s).current_period == v.current_period,
        s is Tick ==> apply(v, s).current_period == v.current_period + 1,
        !(s is Query) ==> apply(v, s).total_resurrections == v.total_resurrections,
        !(s is Harvest || s is AddGhost) ==> apply(v, s).total_harvested == v.total_harvested,
{
}

proof fn lemma_active_len_le(s: Seq<GhostTileView>)
    ensures
        active_tiles(s).len() <= s.len(),
    decreases s.len(),
{
    if s.len() > 0 {
        lemma_active_len_le(s.drop_last());
    }
}

/// What one operation does to the set of ids whose tiles are present.
proof fn lemma_step_ids(pre: AfterlifeView, s: Step, id: u64)
    requires
        pre.wf(),
        allowed(pre, s),
    ensures
        apply(pre, s).next_id >= pre.next_id,
        has_id(pre.tiles, id) ==> id < pre.next_id,
        s is Prune ==> (has_id(apply(pre, s).tiles, id) <==> (has_id(pre.tiles, id)
            && !forgotten_ids(pre.tiles).contains(id))),
        !(s is Prune) ==> (has_id(apply(pre, s).tiles, id) <==> (has_id(pre.tiles, id) || (
        pre.next_id <= id < apply(pre, s).next_id))),
        forall|x: u64| #[trigger] forgotten_ids(pre.tiles).contains(x) ==> x < pre.next_id,
{
    let post = apply(pre, s);
    if has_id(pre.tiles, id) {
        let i = choose|i: int| 0 <= i < pre.tiles.len() && #[trigger] pre.tiles[i].id == id;
    }
    assert forall|x: u64| #[trigger] forgotten_ids(pre.tiles).contains(x) implies x < pre.next_id by {
        let j = choose|j: int|
            0 <= j < pre.tiles.len() && #[trigger] pre.tiles[j].id == x && pre.tiles[j].forgotten;
    }
        match s {
            Step::Harvest { tombstone, lessons } => {
                let h = harvested_tiles(
                    tombstone,
                    lessons,
                    pre.next_id,
                    pre.current_period,
                    pre.ghost_weight,
                );
                let n = pre.tiles.len();
                if has_id(post.tiles, id) {
                    let i = choose|i: int| 0 <= i < post.tiles.len() && #[trigger] post.tiles[i].id == id;
                    if i < n {
                        assert(post.tiles[i] == pre.tiles[i]);
                    } else {
                        assert(post.tiles[i] == h[i - n]);
                    }
                }
                if id < pre.next_id {
                    if has_id(pre.tiles, id) {
                        let i = choose|i: int| 0 <= i < pre.tiles.len() && #[trigger] pre.tiles[i].id == id;
                        assert(post.tiles[i] == pre.tiles[i]);
                    }
                } else if id < post.next_id {
                    let k = id - pre.next_id;
                    assert(post.tiles[n + k] == h[k]);
                    assert(post.tiles[n + k].id == id);
                }
            },
            Step::AddGhost { content, source_vessel, source_name } => {
                let n = pre.tiles.len();
                if has_id(post.tiles, id) {
                    let i = choose|i: int| 0 <= i < post.tiles.len() && #[trigger] post.tiles[i].id == id;
                    if i < n {
                        assert(post.tiles[i] == pre.tiles[i]);
                    }
                }
                if has_id(pre.tiles, id) {
                    let i = choose|i: int| 0 <= i < pre.tiles.len() && #[trigger] pre.tiles[i].id == id;
                    assert(post.tiles[i] == pre.tiles[i]);
                }
                if id == pre.next_id {
                    assert(post.tiles[n as int].id == id);
                }
            },
            Step::Tick => {
                if has_id(post.tiles, id) {
                    let i = choose|i: int| 0 <= i < post.tiles.len() && #[trigger] post.tiles[i].id == id;
                    assert(pre.tiles[i].id == id);
                }
                if has_id(pre.tiles, id) {
                    let i = choose|i: int| 0 <= i < pre.tiles.len() && #[trigger] pre.tiles[i].id == id;
                    assert(post.tiles[i].id == id);
                }
            },
            Step::Query { query, min } => {
                if has_id(post.tiles, id) {
                    let i = choose|i: int| 0 <= i < post.tiles.len() && #[trigger] post.tiles[i].id == id;
                    assert(pre.tiles[i].id == id);
                }
                if has_id(pre.tiles, id) {
                    let i = choose|i: int| 0 <= i < pre.tiles.len() && #[trigger] pre.tiles[i].id == id;
                    assert(post.tiles[i].id == id);
                }
            },
            Step::Prune => {
                lemma_active_members(pre.tiles);
                lemma_active_complete(pre.tiles);
                let a = active_tiles(pre.tiles);
                assert(post.tiles == a);
                if has_id(post.tiles, id) {
                    let k = choose|k: int| 0 <= k < a.len() && #[trigger] a[k].id == id;
                    let j = choose|j: int| 0 <= j < pre.tiles.len() && pre.tiles[j] == a[k];
                    assert(pre.tiles[j].id == id);
                    if forgotten_ids(pre.tiles).contains(id) {
                        let j2 = choose|j2: int|
                            0 <= j2 < pre.tiles.len() && #[trigger] pre.tiles[j2].id == id
                                && pre.tiles[j2].forgotten;
                        if j2 < j {
                            assert(pre.tiles[j2].id < pre.tiles[j].id);
                        } else if j < j2 {
                            assert(pre.tiles[j].id < pre.tiles[j2].id);
                        }
                    }
                }
                if has_id(pre.tiles, id) && !forgotten_ids(pre.tiles).contains(id) {
                    let j = choose|j: int| 0 <= j < pre.tiles.len() && #[trigger] pre.tiles[j].id == id;
                    assert(!pre.tiles[j].forgotten);
                    let k = choose|k: int| 0 <= k < a.len() && a[k] == pre.tiles[j];
                    assert(a[k].id == id);
                }
            },
        }
}

/// Over an allowed run from a well-formed afterlife, a tile is found by
/// `id` exactly when the id was there at the start or was given out during
/// the run, and no prune has removed it; every removed id was given out
/// before.
pub proof fn law_found_ids(v: AfterlifeView, steps: Seq<Step>, id: u64)
    requires
        v.wf(),
        allowed_run(v, steps),
    ensures
        (find_tile(run(v, steps).tiles, id) is Some) <==> ((has_id(v.tiles, id) || (v.next_id <= id
            < run(v, steps).next_id)) && !pruned_ids(v, steps).contains(id)),
        forall|x: u64| #[trigger] pruned_ids(v, steps).contains(x) ==> x < run(v, steps).next_id,
    decreases steps.len(),
{
    law_run(v, steps);
    if steps.len() == 0 {
        assert(find_tile(v.tiles, id) is Some <==> has_id(v.tiles, id));
    } else {
        let init = steps.drop_last();
        law_found_ids(v, init, id);
        law_run(v, init);
        let pre = run(v, init);
        let post = run(v, steps);
        let s = steps.last();
        assert(post == apply(pre, s));
        lemma_step_ids(pre, s, id);
        assert(find_tile(post.tiles, id) is Some <==> has_id(post.tiles, id));
        assert(find_tile(pre.tiles, id) is Some <==> has_id(pre.tiles, id));
        if s is Prune {
            assert(pruned_ids(v, steps) == pruned_ids(v, init).union(forgotten_ids(pre.tiles)));
        } else {
            assert(pruned_ids(v, steps) == pruned_ids(v, init));
        }
    }
}

} // verus!
