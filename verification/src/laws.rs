//! Properties that relate several operations of the afterlife.
use vstd::prelude::*;
use crate::afterlife::{
    access_ranking, accessed_before, after_prune, lists_only_active, mean_active_weight, ranked_before,
    weight_sum,
    active_tiles, added_tile, after_add_ghost, after_harvest, after_query, after_tick,
    find_tile, find_tombstone, harvested_tile, harvested_tiles, lemma_active_complete, lemma_active_members,
    lemma_active_sorted, lemma_after_query_wf, match_score, newly_forgotten, queried_tile,
    query_result, reports_all, reports_only, resurrected, resurrects, strong_count,
    ticked_tile, upsert_tombstone, AfterlifeView,
};
use crate::fraction::{boosted_weight, decayed_weight, within_i64, ONE, MIN_BOOST, TAG_SCORE, UNIT};
use crate::text::{contains_seq, lemma_relevance_bounds, relevance_score, tag_hits, word_hits};
use crate::ghost_tile::{boosted_tile, decayed_tile, strong, GhostMatchView, GhostTileView};
use crate::tombstone::TombstoneView;

verus! {

/// After a harvest, the `k`-th lesson is found under the `k`-th new id, as
/// a tile with the configured ghost weight and tags naming the vessel.
pub proof fn law_harvest_then_get(
    pre: AfterlifeView,
    t: TombstoneView,
    lessons: Seq<Seq<char>>,
    k: int,
)
    requires
        pre.wf(),
        pre.total_harvested + lessons.len() <= u32::MAX,
        0 <= k < lessons.len(),
    ensures
        find_tile(after_harvest(pre, t, lessons).tiles, (pre.next_id + k) as u64) == Some(
            harvested_tile(t, lessons[k], (pre.next_id + k) as u64, pre.current_period, pre.ghost_weight),
        ),
{
    let h = harvested_tiles(t, lessons, pre.next_id, pre.current_period, pre.ghost_weight);
    let all = pre.tiles + h;
    let id = (pre.next_id + k) as u64;
    let at = pre.tiles.len() + k;
    assert(all[at] == h[k]);
    assert(all[at].id == id);
    let c = choose|i: int| 0 <= i < all.len() && #[trigger] all[i].id == id;
    if c < pre.tiles.len() {
        assert(all[c] == pre.tiles[c]);
    } else {
        assert(all[c] == h[c - pre.tiles.len()]);
    }
    assert(c == at);
}

/// A harvest leaves every tile that was there before where its id finds it.
pub proof fn law_harvest_keeps_tiles(
    pre: AfterlifeView,
    t: TombstoneView,
    lessons: Seq<Seq<char>>,
    id: u64,
)
    requires
        pre.wf(),
        pre.total_harvested + lessons.len() <= u32::MAX,
        id < pre.next_id,
    ensures
        find_tile(after_harvest(pre, t, lessons).tiles, id) == find_tile(pre.tiles, id),
{
    let h = harvested_tiles(t, lessons, pre.next_id, pre.current_period, pre.ghost_weight);
    let all = pre.tiles + h;
    if exists|i: int| 0 <= i < pre.tiles.len() && #[trigger] pre.tiles[i].id == id {
        let c0 = choose|i: int| 0 <= i < pre.tiles.len() && #[trigger] pre.tiles[i].id == id;
        assert(all[c0] == pre.tiles[c0]);
        assert(all[c0].id == id);
        let c = choose|i: int| 0 <= i < all.len() && #[trigger] all[i].id == id;
        if c >= pre.tiles.len() {
            assert(all[c] == h[c - pre.tiles.len()]);
        } else {
            assert(all[c] == pre.tiles[c]);
            if c < c0 {
                assert(pre.tiles[c].id < pre.tiles[c0].id);
            } else if c0 < c {
                assert(pre.tiles[c0].id < pre.tiles[c].id);
            }
        }
    } else {
        assert forall|i: int| 0 <= i < all.len() implies #[trigger] all[i].id != id by {
            if i < pre.tiles.len() {
                assert(all[i] == pre.tiles[i]);
            } else {
                assert(all[i] == h[i - pre.tiles.len()]);
            }
        }
    }
}

/// After a ghost is added, the id it was given finds it.
pub proof fn law_add_ghost_then_get(
    pre: AfterlifeView,
    content: Seq<char>,
    source_vessel: u32,
    source_name: Seq<char>,
)
    requires
        pre.wf(),
        pre.total_harvested < u32::MAX,
    ensures
        find_tile(after_add_ghost(pre, content, source_vessel, source_name).tiles, pre.next_id)
            == Some(added_tile(pre, content, source_vessel, source_name)),
{
    let tile = added_tile(pre, content, source_vessel, source_name);
    let all = pre.tiles.push(tile);
    let at = pre.tiles.len() as int;
    assert(all[at] == tile);
    assert(all[at].id == pre.next_id);
    let c = choose|i: int| 0 <= i < all.len() && #[trigger] all[i].id == pre.next_id;
    if c < at {
        assert(all[c] == pre.tiles[c]);
    }
}

/// A query keeps every tile in its place with its id, content, source and
/// tags, and keeps the afterlife well-formed.
pub proof fn law_query_keeps_tiles(pre: AfterlifeView, query: Seq<char>, min: u64)
    requires
        pre.wf(),
    ensures
        after_query(pre, query, min).wf(),
        after_query(pre, query, min).tiles.len() == pre.tiles.len(),
        forall|i: int|
            0 <= i < pre.tiles.len() ==> {
                let t = #[trigger] after_query(pre, query, min).tiles[i];
                &&& t.id == pre.tiles[i].id
                &&& t.content == pre.tiles[i].content
                &&& t.source_vessel == pre.tiles[i].source_vessel
                &&& t.source_name == pre.tiles[i].source_name
                &&& t.tags == pre.tiles[i].tags
            },
{
    lemma_after_query_wf(pre, query, min);
}

/// After a tombstone is recorded, its vessel's lookup gives it back, and
/// every other vessel's lookup gives what it gave before.
pub proof fn law_tombstone_after_harvest(ts: Seq<TombstoneView>, t: TombstoneView, other: u32)
    requires
        forall|i: int, j: int|
            0 <= i < j < ts.len() ==> #[trigger] ts[i].vessel_id != #[trigger] ts[j].vessel_id,
    ensures
        find_tombstone(upsert_tombstone(ts, t), t.vessel_id) == Some(t),
        other != t.vessel_id ==> find_tombstone(upsert_tombstone(ts, t), other) == find_tombstone(
            ts,
            other,
        ),
{
    let u = upsert_tombstone(ts, t);
    let found = exists|i: int| 0 <= i < ts.len() && #[trigger] ts[i].vessel_id == t.vessel_id;
    let p = if found {
        choose|i: int| 0 <= i < ts.len() && #[trigger] ts[i].vessel_id == t.vessel_id
    } else {
        ts.len() as int
    };
    assert(u[p] == t);
    assert(forall|i: int| 0 <= i < u.len() && i != p ==> #[trigger] u[i] == ts[i]);
    let c = choose|i: int| 0 <= i < u.len() && #[trigger] u[i].vessel_id == t.vessel_id;
    if c != p {
        assert(u[c] == ts[c]);
        if found {
            if c < p {
                assert(ts[c].vessel_id != ts[p].vessel_id);
            } else {
                assert(ts[p].vessel_id != ts[c].vessel_id);
            }
        }
    }
    if other != t.vessel_id {
        if exists|i: int| 0 <= i < ts.len() && #[trigger] ts[i].vessel_id == other {
            let c0 = choose|i: int| 0 <= i < ts.len() && #[trigger] ts[i].vessel_id == other;
            assert(u[c0] == ts[c0]);
            let c1 = choose|i: int| 0 <= i < u.len() && #[trigger] u[i].vessel_id == other;
            assert(c1 != p);
            assert(u[c1] == ts[c1]);
            if c1 < c0 {
                assert(ts[c1].vessel_id != ts[c0].vessel_id);
            } else if c0 < c1 {
                assert(ts[c0].vessel_id != ts[c1].vessel_id);
            }
        } else {
            assert forall|i: int| 0 <= i < u.len() implies #[trigger] u[i].vessel_id != other by {
                if i != p {
                    assert(u[i] == ts[i]);
                }
            }
        }
    }
}

/// A tile not accessed since an earlier period has its weight scaled by
/// `1 - rate` (for any rate), and is forgotten when it was or when the new
/// weight is below the threshold; nothing else about it changes.
pub proof fn law_decay_scales(t: GhostTileView, period: u32, rate: i64, threshold: i64)
    requires
        period > t.last_access_period,
    ensures
        decayed_tile(t, period, rate, threshold).weight == within_i64(
            (t.weight * (ONE - rate)) / (ONE as int),
        ),
        decayed_tile(t, period, rate, threshold).forgotten == (t.forgotten
            || decayed_tile(t, period, rate, threshold).weight < threshold),
        decayed_tile(t, period, rate, threshold) == (GhostTileView {
            weight: decayed_tile(t, period, rate, threshold).weight,
            forgotten: decayed_tile(t, period, rate, threshold).forgotten,
            ..t
        }),
{
}

/// Decay at a rate that is not negative never raises a weight that is not
/// negative.
pub proof fn law_decay_never_raises(t: GhostTileView, period: u32, rate: i64, threshold: i64)
    requires
        0 <= t.weight,
        0 <= rate,
    ensures
        decayed_tile(t, period, rate, threshold).weight <= t.weight,
{
    let f = ONE - rate;
    if f >= 0 {
        assert(0 <= t.weight * f <= t.weight * (ONE as int)) by (nonlinear_arith)
            requires
                0 <= f <= ONE,
                0 <= t.weight,
        ;
        assert((t.weight * (ONE as int)) / (ONE as int) == t.weight) by (nonlinear_arith);
        assert((t.weight * f) / (ONE as int) <= (t.weight * (ONE as int)) / (ONE as int))
            by (nonlinear_arith)
            requires
                0 <= t.weight * f <= t.weight * (ONE as int),
        ;
    } else {
        assert(t.weight * f <= 0) by (nonlinear_arith)
            requires
                f < 0,
                0 <= t.weight,
        ;
        assert((t.weight * f) / (ONE as int) <= 0) by (nonlinear_arith)
            requires
                t.weight * f <= 0,
        ;
    }
}

/// A boost never takes a weight above one, raises every weight below one,
/// and adds at least 0.06 unless that would pass one.
pub proof fn law_boost_raises_and_caps(w: i64, rel: u64)
    ensures
        boosted_weight(w, rel) <= ONE,
        w < ONE ==> boosted_weight(w, rel) > w,
        boosted_weight(w, rel) >= if w + MIN_BOOST <= ONE {
            w + MIN_BOOST
        } else {
            ONE as int
        },
{
}

/// A query that reports a tile boosts it, counts one more access, records
/// the query's period as its last access, and leaves it forgotten only when
/// it was and its boosted weight is below the threshold; a tile it does not
/// report is left as it was.
pub proof fn law_query_boosts(
    t: GhostTileView,
    query: Seq<char>,
    min: u64,
    period: u32,
    threshold: i64,
)
    requires
        t.access_count < u32::MAX,
    ensures
        match_score(t, query, min) matches Some(r) ==> {
            let after = queried_tile(t, query, min, period, threshold);
            &&& after.weight == boosted_weight(t.weight, r)
            &&& after.forgotten == (t.forgotten && boosted_weight(t.weight, r) < threshold)
            &&& after.access_count == t.access_count + 1
            &&& after.last_access_period == period
            &&& after.id == t.id
        },
        match_score(t, query, min) is None ==> queried_tile(t, query, min, period, threshold) == t,
{
}

/// Leaving out the forgotten tiles leaves no forgotten tile, and doing it
/// twice changes nothing more.
pub proof fn law_prune_leaves_no_forgotten(s: Seq<GhostTileView>)
    ensures
        forall|k: int| 0 <= k < active_tiles(s).len() ==> !(#[trigger] active_tiles(s)[k]).forgotten,
        active_tiles(active_tiles(s)) == active_tiles(s),
    decreases s.len(),
{
    if s.len() > 0 {
        let init = s.drop_last();
        law_prune_leaves_no_forgotten(init);
        let a = active_tiles(init);
        if !s.last().forgotten {
            let b = a.push(s.last());
            assert(b.drop_last() =~= a);
            assert(active_tiles(b) == active_tiles(a).push(s.last()));
        }
    }
}

/// A tick leaves every forgotten tile exactly as it was, forgets no more
/// tiles than were active, and lowers the number of active tiles by the
/// number it reports as newly forgotten.
pub proof fn law_tick_accounting(s: Seq<GhostTileView>, period: u32, rate: i64, threshold: i64)
    ensures
        forall|i: int|
            0 <= i < s.len() && s[i].forgotten ==> #[trigger] ticked_tile(s[i], period, rate, threshold)
                == s[i],
        newly_forgotten(s, period, rate, threshold) <= active_tiles(s).len(),
        active_tiles(s.map_values(|t: GhostTileView| ticked_tile(t, period, rate, threshold))).len()
            + newly_forgotten(s, period, rate, threshold) == active_tiles(s).len(),
    decreases s.len(),
{
    if s.len() > 0 {
        let init = s.drop_last();
        law_tick_accounting(init, period, rate, threshold);
        let m = s.map_values(|t: GhostTileView| ticked_tile(t, period, rate, threshold));
        assert(m.drop_last() =~= init.map_values(
            |t: GhostTileView| ticked_tile(t, period, rate, threshold),
        ));
        assert(m.last() == ticked_tile(s.last(), period, rate, threshold));
    }
}

/// A query brings back exactly the forgotten tiles it counts as
/// resurrected: the number of active tiles grows by that count.
pub proof fn law_query_resurrects_what_it_counts(
    s: Seq<GhostTileView>,
    query: Seq<char>,
    min: u64,
    period: u32,
    threshold: i64,
)
    ensures
        active_tiles(s.map_values(|t: GhostTileView| queried_tile(t, query, min, period, threshold))).len()
            == active_tiles(s).len() + resurrected(s, query, min, threshold),
    decreases s.len(),
{
    if s.len() > 0 {
        let init = s.drop_last();
        law_query_resurrects_what_it_counts(init, query, min, period, threshold);
        let m = s.map_values(|t: GhostTileView| queried_tile(t, query, min, period, threshold));
        assert(m.drop_last() =~= init.map_values(
            |t: GhostTileView| queried_tile(t, query, min, period, threshold),
        ));
        assert(m.last() == queried_tile(s.last(), query, min, period, threshold));
    }
}

/// There are never more strong tiles than active ones, nor more active
/// tiles than tiles.
pub proof fn law_counts_ordered(s: Seq<GhostTileView>)
    ensures
        strong_count(s) <= active_tiles(s).len() <= s.len(),
    decreases s.len(),
{
    if s.len() > 0 {
        law_counts_ordered(s.drop_last());
        if strong(s.last()) {
            assert(!s.last().forgotten);
        }
    }
}

proof fn lemma_reported_tile(
    tiles: Seq<GhostTileView>,
    query: Seq<char>,
    min: u64,
    ms: Seq<GhostMatchView>,
    k: int,
) -> (i: int)
    requires
        reports_only(tiles, query, min, tiles.len() as int, ms),
        0 <= k < ms.len(),
    ensures
        0 <= i < tiles.len(),
        match_score(tiles[i], query, min) == Some(ms[k].relevance),
        ms[k].tile == tiles[i],
{
    reveal(reports_only);
    let m = ms[k];
    choose|i: int|
        0 <= i < tiles.len() && #[trigger] match_score(tiles[i], query, min) == Some(m.relevance)
            && m.tile == tiles[i]
}

proof fn lemma_reported_match(
    tiles: Seq<GhostTileView>,
    query: Seq<char>,
    min: u64,
    ms: Seq<GhostMatchView>,
    i: int,
)
    requires
        reports_all(tiles, query, min, tiles.len() as int, ms),
        0 <= i < tiles.len(),
        match_score(tiles[i], query, min) is Some,
    ensures
        ms.contains(GhostMatchView { tile: tiles[i], relevance: match_score(tiles[i], query, min)->0 }),
{
    reveal(reports_all);
    let j = choose|j: int|
        0 <= j < ms.len() && #[trigger] ms[j] == (GhostMatchView {
            tile: tiles[i],
            relevance: match_score(tiles[i], query, min)->0,
        });
    assert(ms[j] == GhostMatchView { tile: tiles[i], relevance: match_score(tiles[i], query, min)->0 });
}

/// Raising the minimum relevance only leaves matches out: every match a
/// query reports at the higher minimum it also reports, with the same
/// relevance, at the lower one.
pub proof fn law_query_monotone(
    tiles: Seq<GhostTileView>,
    query: Seq<char>,
    low: u64,
    high: u64,
    at_low: Seq<GhostMatchView>,
    at_high: Seq<GhostMatchView>,
)
    requires
        low <= high,
        query_result(tiles, query, low, at_low),
        query_result(tiles, query, high, at_high),
    ensures
        forall|k: int| 0 <= k < at_high.len() ==> at_low.contains(#[trigger] at_high[k]),
{
    assert forall|k: int| 0 <= k < at_high.len() implies at_low.contains(#[trigger] at_high[k]) by {
        let i = lemma_reported_tile(tiles, query, high, at_high, k);
        assert(match_score(tiles[i], query, low) == Some(at_high[k].relevance));
        lemma_reported_match(tiles, query, low, at_low, i);
    }
}

/// Every tile weight lies in `[0, 1]`.
pub open spec fn weights_in_unit(s: Seq<GhostTileView>) -> bool {
    forall|i: int| 0 <= i < s.len() ==> 0 <= #[trigger] s[i].weight <= ONE
}

/// With weights, ghost weight and decay rate in `[0, 1]`, every operation
/// keeps the weights in `[0, 1]`; and with a forget threshold of at most
/// 0.06, a query leaves every tile it reports not forgotten.
pub proof fn law_weights_stay_in_unit(
    pre: AfterlifeView,
    t: TombstoneView,
    lessons: Seq<Seq<char>>,
    content: Seq<char>,
    source_vessel: u32,
    source_name: Seq<char>,
    query: Seq<char>,
    min: u64,
)
    requires
        weights_in_unit(pre.tiles),
        0 <= pre.ghost_weight <= ONE,
        0 <= pre.decay_rate <= ONE,
    ensures
        weights_in_unit(after_tick(pre).tiles),
        weights_in_unit(after_query(pre, query, min).tiles),
        weights_in_unit(after_harvest(pre, t, lessons).tiles),
        weights_in_unit(after_add_ghost(pre, content, source_vessel, source_name).tiles),
        pre.forget_threshold <= MIN_BOOST ==> forall|i: int|
            0 <= i < pre.tiles.len() && #[trigger] match_score(pre.tiles[i], query, min) is Some
                ==> !after_query(pre, query, min).tiles[i].forgotten,
{
    let period = (pre.current_period + 1) as u32;
    assert forall|i: int| 0 <= i < after_tick(pre).tiles.len() implies 0 <= #[trigger] after_tick(
        pre,
    ).tiles[i].weight <= ONE by {
        let s = pre.tiles[i];
        assert(after_tick(pre).tiles[i] == ticked_tile(s, period, pre.decay_rate, pre.forget_threshold));
        let f = ONE - pre.decay_rate;
        assert(0 <= s.weight * f <= s.weight * (ONE as int)) by (nonlinear_arith)
            requires
                0 <= f <= ONE,
                0 <= s.weight,
        ;
        assert((s.weight * (ONE as int)) / (ONE as int) == s.weight) by (nonlinear_arith);
        assert(0 <= (s.weight * f) / (ONE as int) <= (s.weight * (ONE as int)) / (ONE as int))
            by (nonlinear_arith)
            requires
                0 <= s.weight * f <= s.weight * (ONE as int),
        ;
    }
    assert forall|i: int| 0 <= i < after_query(pre, query, min).tiles.len() implies 0
        <= #[trigger] after_query(pre, query, min).tiles[i].weight <= ONE by {
        assert(after_query(pre, query, min).tiles[i] == queried_tile(
            pre.tiles[i],
            query,
            min,
            pre.current_period,
            pre.forget_threshold,
        ));
    }
    let h = after_harvest(pre, t, lessons).tiles;
    assert forall|i: int| 0 <= i < h.len() implies 0 <= #[trigger] h[i].weight <= ONE by {
        if i < pre.tiles.len() {
            assert(h[i] == pre.tiles[i]);
        }
    }
    let g = after_add_ghost(pre, content, source_vessel, source_name).tiles;
    assert forall|i: int| 0 <= i < g.len() implies 0 <= #[trigger] g[i].weight <= ONE by {
        if i < pre.tiles.len() {
            assert(g[i] == pre.tiles[i]);
        }
    }
    if pre.forget_threshold <= MIN_BOOST {
        assert forall|i: int|
            0 <= i < pre.tiles.len() && #[trigger] match_score(pre.tiles[i], query, min) is Some
                implies !after_query(pre, query, min).tiles[i].forgotten by {
            assert(after_query(pre, query, min).tiles[i] == queried_tile(
                pre.tiles[i],
                query,
                min,
                pre.current_period,
                pre.forget_threshold,
            ));
        }
    }
}

/// The ids of the tiles that are not forgotten.
pub open spec fn active_ids(s: Seq<GhostTileView>) -> Set<u64> {
    Set::new(|id: u64| exists|i: int| 0 <= i < s.len() && #[trigger] s[i].id == id && !s[i].forgotten)
}

/// The number of active tiles is the number of ids whose tile is found and
/// not forgotten.
pub proof fn law_active_count_is_active_ids(v: AfterlifeView)
    requires
        v.wf(),
    ensures
        active_tiles(v.tiles).len() == active_ids(v.tiles).len(),
        active_ids(v.tiles).finite(),
{
    let a = active_tiles(v.tiles);
    lemma_active_sorted(v.tiles, v.next_id);
    lemma_active_members(v.tiles);
    lemma_active_complete(v.tiles);
    let ids = a.map_values(|t: GhostTileView| t.id);
    assert(ids.no_duplicates()) by {
        assert forall|i: int, j: int| 0 <= i < ids.len() && 0 <= j < ids.len() && i != j implies ids[i]
            != ids[j] by {
            if i < j {
                assert(a[i].id < a[j].id);
            } else {
                assert(a[j].id < a[i].id);
            }
        }
    }
    ids.unique_seq_to_set();
    assert(ids.to_set() =~= active_ids(v.tiles)) by {
        assert forall|id: u64| ids.to_set().contains(id) implies active_ids(v.tiles).contains(id) by {
            let k = choose|k: int| 0 <= k < ids.len() && ids[k] == id;
            let j = choose|j: int| 0 <= j < v.tiles.len() && v.tiles[j] == a[k];
            assert(v.tiles[j].id == id && !v.tiles[j].forgotten);
        }
        assert forall|id: u64| active_ids(v.tiles).contains(id) implies ids.to_set().contains(id) by {
            let j = choose|j: int| 0 <= j < v.tiles.len() && #[trigger] v.tiles[j].id == id
                && !v.tiles[j].forgotten;
            let k = choose|k: int| 0 <= k < a.len() && a[k] == v.tiles[j];
            assert(ids[k] == id);
        }
    }
}

/// The relevance score adds its parts: with no matching tag it is the share
/// of query words found, and each matching tag adds 0.2 to it until it
/// reaches one; a query without words scores zero.
pub proof fn law_score_adds_word_share_and_tags(hits: nat, total: nat, tags: nat)
    requires
        hits <= total,
    ensures
        total > 0 ==> relevance_score(hits, total, 0) == (hits * (UNIT as int)) / (total as int),
        total > 0 ==> relevance_score(hits, total, tags + 1) == crate::fraction::min_int(
            relevance_score(hits, total, tags) + TAG_SCORE,
            UNIT as int,
        ),
        total > 0 && relevance_score(hits, total, tags) + TAG_SCORE <= UNIT ==> relevance_score(
            hits,
            total,
            tags + 1,
        ) == relevance_score(hits, total, tags) + TAG_SCORE,
        total == 0 ==> relevance_score(hits, total, tags) == 0,
{
    if total > 0 {
        assert(0 <= hits * (UNIT as int) <= total * (UNIT as int)) by (nonlinear_arith)
            requires
                hits <= total,
        ;
        assert((total * (UNIT as int)) / (total as int) == UNIT) by (nonlinear_arith)
            requires
                total > 0,
        ;
        assert((hits * (UNIT as int)) / (total as int) <= (total * (UNIT as int)) / (total as int))
            by (nonlinear_arith)
            requires
                0 <= hits * (UNIT as int) <= total * (UNIT as int),
                total > 0,
        ;
        assert((tags + 1) * (TAG_SCORE as int) == tags * (TAG_SCORE as int) + TAG_SCORE)
            by (nonlinear_arith);
    }
}

/// A tick decays every tile that is not forgotten, however often it was
/// accessed: its weight is scaled by one minus the decay rate, and it is
/// forgotten exactly when the new weight is below the forget threshold.
/// Forgotten tiles keep their weight and stay forgotten.
pub proof fn law_tick_decays_every_active_tile(pre: AfterlifeView, i: int)
    requires
        pre.wf(),
        pre.current_period < u32::MAX,
        0 <= i < pre.tiles.len(),
    ensures
        !pre.tiles[i].forgotten ==> after_tick(pre).tiles[i].weight == decayed_weight(
            pre.tiles[i].weight,
            pre.decay_rate,
        ),
        !pre.tiles[i].forgotten ==> (after_tick(pre).tiles[i].forgotten
            <==> after_tick(pre).tiles[i].weight < pre.forget_threshold),
        pre.tiles[i].forgotten ==> after_tick(pre).tiles[i].weight == pre.tiles[i].weight
            && after_tick(pre).tiles[i].forgotten,
        after_tick(pre).tiles[i].access_count == pre.tiles[i].access_count,
        after_tick(pre).tiles[i].id == pre.tiles[i].id,
{
    assert(pre.tiles[i].last_access_period <= pre.current_period);
}

/// The mean weight is taken over the tiles that are not forgotten only:
/// adding a forgotten tile never changes it, and it is zero when every tile
/// is forgotten.
pub proof fn law_average_ignores_forgotten(s: Seq<GhostTileView>, t: GhostTileView)
    ensures
        t.forgotten ==> mean_active_weight(s.push(t)) == mean_active_weight(s),
        !t.forgotten && active_tiles(s).len() == 0 ==> mean_active_weight(s.push(t)) == t.weight,
        (forall|i: int| 0 <= i < s.len() ==> (#[trigger] s[i]).forgotten) ==> mean_active_weight(s)
            == 0,
{
    assert(s.push(t).drop_last() =~= s);
    if forall|i: int| 0 <= i < s.len() ==> (#[trigger] s[i]).forgotten {
        lemma_all_forgotten(s);
    }
    if !t.forgotten && active_tiles(s).len() == 0 {
        let a = active_tiles(s).push(t);
        assert(a.drop_last() =~= active_tiles(s));
        assert(weight_sum(active_tiles(s)) == 0);
    }
}

proof fn lemma_all_forgotten(s: Seq<GhostTileView>)
    requires
        forall|i: int| 0 <= i < s.len() ==> (#[trigger] s[i]).forgotten,
    ensures
        active_tiles(s).len() == 0,
    decreases s.len(),
{
    if s.len() > 0 {
        let init = s.drop_last();
        assert forall|i: int| 0 <= i < init.len() implies (#[trigger] init[i]).forgotten by {
            assert(init[i] == s[i]);
        }
        lemma_all_forgotten(init);
        assert(s[s.len() - 1].forgotten);
    }
}

/// A harvest records its tombstone as given, every field included: looking
/// up its vessel afterwards gives it back, and other vessels' tombstones are
/// untouched.
pub proof fn law_harvest_records_tombstone(
    pre: AfterlifeView,
    t: TombstoneView,
    lessons: Seq<Seq<char>>,
    other: u32,
)
    requires
        pre.wf(),
    ensures
        find_tombstone(after_harvest(pre, t, lessons).tombstones, t.vessel_id) == Some(t),
        other != t.vessel_id ==> find_tombstone(after_harvest(pre, t, lessons).tombstones, other)
            == find_tombstone(pre.tombstones, other),
{
    law_tombstone_after_harvest(pre.tombstones, t, other);
}

/// The ranking `most_accessed` takes its answer from holds only tiles that
/// are there and not forgotten, so no prefix of it holds a forgotten tile.
pub proof fn law_most_accessed_only_active(tiles: Seq<GhostTileView>, all: Seq<GhostTileView>, m: int)
    requires
        access_ranking(tiles, tiles.len() as int, all),
        0 <= m <= all.len(),
    ensures
        forall|k: int| 0 <= k < all.take(m).len() ==> !(#[trigger] all.take(m)[k]).forgotten
            && tiles.contains(all.take(m)[k]),
{
    reveal(lists_only_active);
    assert forall|k: int| 0 <= k < all.take(m).len() implies !(#[trigger] all.take(m)[k]).forgotten
        && tiles.contains(all.take(m)[k]) by {
        assert(all.take(m)[k] == all[k]);
        let i = choose|i: int| 0 <= i < tiles.len() && !tiles[i].forgotten && #[trigger] tiles[i] == all[k];
    }
}

/// A boost adds a tenth of the relevance when that is more than 0.06, and
/// 0.06 otherwise, stopping at one: so two relevances below 0.6 boost alike,
/// and above it the boost grows by a tenth of the relevance.
pub proof fn law_boost_amount(w: i64, rel: u64)
    ensures
        rel <= 10 * MIN_BOOST ==> boosted_weight(w, rel) == boosted_weight(w, 0),
        rel >= 10 * MIN_BOOST && w + rel / 10 <= ONE ==> boosted_weight(w, rel) == w + rel / 10,
        boosted_weight(w, 0) == crate::fraction::min_int(w + MIN_BOOST, ONE as int),
{
}

/// A forgotten tile counts at half its relevance: it is reported at a
/// minimum exactly when the same tile, not forgotten, would be reported at
/// twice that minimum.
pub proof fn law_forgotten_tiles_count_half(t: GhostTileView, query: Seq<char>, min: u64)
    requires
        2 * min <= u64::MAX,
    ensures
        (match_score(GhostTileView { forgotten: true, ..t }, query, min) is Some) <==> (match_score(
            GhostTileView { forgotten: false, ..t },
            query,
            (2 * min) as u64,
        ) is Some),
        match_score(GhostTileView { forgotten: false, ..t }, query, min) is Some ==> match_score(
            GhostTileView { forgotten: false, ..t },
            query,
            min,
        )->0 >= min,
{
    lemma_relevance_bounds(t.content, t.tags, query);
}

/// A query reports its matches highest relevance first, older tiles first
/// among equals; every reported relevance reaches the minimum, and every
/// reported tile is one of the tiles queried.
pub proof fn law_query_results_ranked(
    tiles: Seq<GhostTileView>,
    query: Seq<char>,
    min: u64,
    ms: Seq<GhostMatchView>,
)
    requires
        query_result(tiles, query, min, ms),
    ensures
        forall|i: int, j: int|
            0 <= i < j < ms.len() ==> (#[trigger] ms[i]).relevance >= (#[trigger] ms[j]).relevance,
        forall|i: int, j: int|
            0 <= i < j < ms.len() && (#[trigger] ms[i]).relevance == (#[trigger] ms[j]).relevance
                ==> ms[i].tile.id < ms[j].tile.id,
        forall|k: int| 0 <= k < ms.len() ==> (#[trigger] ms[k]).relevance >= min && tiles.contains(
            ms[k].tile,
        ),
{
    assert forall|i: int, j: int| 0 <= i < j < ms.len() implies (#[trigger] ms[i]).relevance >= (
    #[trigger] ms[j]).relevance by {
        assert(ranked_before(ms[i], ms[j]));
    }
    assert forall|k: int| 0 <= k < ms.len() implies (#[trigger] ms[k]).relevance >= min
        && tiles.contains(ms[k].tile) by {
        let i = lemma_reported_tile(tiles, query, min, ms, k);
        lemma_relevance_bounds(tiles[i].content, tiles[i].tags, query);
        assert(tiles[i] == ms[k].tile);
    }
}

/// The ranking behind `most_accessed` puts more accessed tiles first, and
/// older tiles first among equally accessed ones.
pub proof fn law_most_accessed_ranked(tiles: Seq<GhostTileView>, all: Seq<GhostTileView>)
    requires
        access_ranking(tiles, tiles.len() as int, all),
    ensures
        forall|i: int, j: int|
            0 <= i < j < all.len() ==> (#[trigger] all[i]).access_count >= (
            #[trigger] all[j]).access_count,
        forall|i: int, j: int|
            0 <= i < j < all.len() && (#[trigger] all[i]).access_count == (
            #[trigger] all[j]).access_count ==> all[i].id < all[j].id,
{
    assert forall|i: int, j: int| 0 <= i < j < all.len() implies (#[trigger] all[i]).access_count >= (
    #[trigger] all[j]).access_count by {
        assert(accessed_before(all[i], all[j]));
    }
}

/// A harvested tile carries its lesson, the vessel's id and name, the
/// configured ghost weight, tags naming the vessel and its role, no
/// accesses, the current period, and is not forgotten.
pub proof fn law_harvested_tile_fields(
    pre: AfterlifeView,
    t: TombstoneView,
    lessons: Seq<Seq<char>>,
    k: int,
)
    requires
        pre.wf(),
        pre.total_harvested + lessons.len() <= u32::MAX,
        0 <= k < lessons.len(),
    ensures
        ({
            let tile = after_harvest(pre, t, lessons).tiles[pre.tiles.len() + k];
            &&& tile.id == pre.next_id + k
            &&& tile.content == lessons[k]
            &&& tile.source_vessel == t.vessel_id
            &&& tile.source_name == t.name
            &&& tile.weight == pre.ghost_weight
            &&& tile.tags == seq!["from:"@ + t.name, "role:"@ + t.role]
            &&& tile.access_count == 0
            &&& tile.last_access_period == pre.current_period
            &&& tile.created_period == pre.current_period
            &&& !tile.forgotten
        }),
        after_harvest(pre, t, lessons).tiles.len() == pre.tiles.len() + lessons.len(),
        forall|i: int| 0 <= i < pre.tiles.len() ==> #[trigger] after_harvest(pre, t, lessons).tiles[i]
            == pre.tiles[i],
{
}

/// An added ghost carries its content and source, the configured ghost
/// weight, the next id, no tags, no accesses, the current period, and is
/// not forgotten; the other tiles stay.
pub proof fn law_added_tile_fields(
    pre: AfterlifeView,
    content: Seq<char>,
    source_vessel: u32,
    source_name: Seq<char>,
)
    ensures
        ({
            let tile = after_add_ghost(pre, content, source_vessel, source_name).tiles[pre.tiles.len() as int];
            &&& tile.id == pre.next_id
            &&& tile.content == content
            &&& tile.source_vessel == source_vessel
            &&& tile.source_name == source_name
            &&& tile.weight == pre.ghost_weight
            &&& tile.tags.len() == 0
            &&& tile.access_count == 0
            &&& tile.last_access_period == pre.current_period
            &&& tile.created_period == pre.current_period
            &&& !tile.forgotten
        }),
        after_add_ghost(pre, content, source_vessel, source_name).tiles.len() == pre.tiles.len() + 1,
{
}

/// Pruning keeps exactly the tiles that are not forgotten: each of them
/// survives, and every survivor was there and is not forgotten.
pub proof fn law_prune_keeps_active(pre: AfterlifeView)
    ensures
        forall|i: int| 0 <= i < pre.tiles.len() && !(#[trigger] pre.tiles[i]).forgotten
            ==> after_prune(pre).tiles.contains(pre.tiles[i]),
        forall|k: int| 0 <= k < after_prune(pre).tiles.len() ==> !(#[trigger] after_prune(
            pre,
        ).tiles[k]).forgotten && pre.tiles.contains(after_prune(pre).tiles[k]),
{
    lemma_active_complete(pre.tiles);
    lemma_active_members(pre.tiles);
}

/// The word share counts each query word found in the content: all words
/// found give the whole count, none found gives zero.
pub proof fn law_word_hits_count_found_words(content: Seq<char>, words: Seq<Seq<char>>)
    ensures
        word_hits(content, words) <= words.len(),
        (forall|i: int| 0 <= i < words.len() ==> contains_seq(content, #[trigger] words[i]))
            ==> word_hits(content, words) == words.len(),
        (forall|i: int| 0 <= i < words.len() ==> !contains_seq(content, #[trigger] words[i]))
            ==> word_hits(content, words) == 0,
    decreases words.len(),
{
    if words.len() > 0 {
        let init = words.drop_last();
        law_word_hits_count_found_words(content, init);
        assert forall|i: int| 0 <= i < init.len() implies init[i] == words[i] by {}
        assert(words[words.len() - 1] == words.last());
    }
}

/// A tag matches when the lower-cased query contains it or it contains the
/// query as given: tags that all match count fully, tags that none match
/// count zero.
pub proof fn law_tag_hits_count_matching_tags(tags: Seq<Seq<char>>, query_lower: Seq<char>, query: Seq<char>)
    ensures
        tag_hits(tags, query_lower, query) <= tags.len(),
        (forall|i: int| 0 <= i < tags.len() ==> contains_seq(query_lower, #[trigger] tags[i])
            || contains_seq(tags[i], query)) ==> tag_hits(tags, query_lower, query) == tags.len(),
        (forall|i: int| 0 <= i < tags.len() ==> !contains_seq(query_lower, #[trigger] tags[i])
            && !contains_seq(tags[i], query)) ==> tag_hits(tags, query_lower, query) == 0,
    decreases tags.len(),
{
    if tags.len() > 0 {
        let init = tags.drop_last();
        law_tag_hits_count_matching_tags(init, query_lower, query);
        assert forall|i: int| 0 <= i < init.len() implies init[i] == tags[i] by {}
        assert(tags[tags.len() - 1] == tags.last());
    }
}

} // verus!
