//! The afterlife: ghost tiles harvested from dead vessels, their decay over
//! periods, and queries that boost and resurrect them.
use vstd::prelude::*;
use crate::fraction::{
    boost_weight, boosted_weight, floor_div, DEFAULT_DECAY_RATE, DEFAULT_FORGET_THRESHOLD, DEFAULT_GHOST_WEIGHT,
};
use crate::ghost_tile::{
    GhostMatch, GhostMatchView, GhostTile, GhostTileView, boosted_tile, decayed_tile, fresh_tile,
    strong,
};
use crate::text::{lowercase, relevance, split_words, tile_relevance, to_lowercase, whitespace_words};
use vstd::string::StringExecFns;
use crate::tombstone::{Tombstone, TombstoneView};

verus! {

/// The store of ghost tiles and tombstones.
///
/// Tiles are kept in the order of their ids, which are handed out in
/// increasing order starting from 1; tombstones are kept one per vessel.
/// Weights and rates are fractions of one in parts per billion.
///
/// Both are vectors rather than hash maps keyed by id: a tick, a query and a
/// prune walk every tile and change it in place or drop it, which vstd
/// specifies for a vector but not for a hash map (it has no contract for
/// `values_mut`, `get_mut` or `retain`); and walking tiles in id order is
/// what makes the order of equally relevant query results, and of equally
/// accessed tiles, a stated part of the contracts rather than an accident
/// of hashing. Unique ids and vessel ids are kept as invariants ([`AfterlifeView::wf`]).
pub struct Afterlife {
    ghost_tiles: Vec<GhostTile>,
    tombstones: Vec<Tombstone>,
    next_id: u64,
    ghost_weight: i64,
    decay_rate: i64,
    forget_threshold: i64,
    current_period: u32,
    total_harvested: u32,
    total_resurrections: u32,
}

/// The value of an [`Afterlife`].
pub struct AfterlifeView {
    /// The ghost tiles, in increasing order of id.
    pub tiles: Seq<GhostTileView>,
    /// The tombstones, one per vessel id.
    pub tombstones: Seq<TombstoneView>,
    /// The id the next new tile gets.
    pub next_id: u64,
    /// The initial weight of harvested tiles.
    pub ghost_weight: i64,
    /// The share of weight a tile loses per period.
    pub decay_rate: i64,
    /// The weight below which a tile is forgotten.
    pub forget_threshold: i64,
    pub current_period: u32,
    /// How many tiles were ever created.
    pub total_harvested: u32,
    /// How many forgotten tiles queries brought back.
    pub total_resurrections: u32,
}

impl AfterlifeView {
    /// Tile ids strictly increase along the tiles, are at least 1 and below
    /// `next_id`; `next_id` is one more than the number of tiles ever
    /// created; a forgotten tile weighs less than the forget threshold; no
    /// tile was created or accessed after the current period; no two
    /// tombstones share a vessel id.
    pub open spec fn wf(self) -> bool {
        &&& ids_increasing(self.tiles)
        &&& forall|i: int|
            0 <= i < self.tiles.len() ==> 1 <= #[trigger] self.tiles[i].id < self.next_id
        &&& forall|i: int|
            0 <= i < self.tiles.len() && (#[trigger] self.tiles[i]).forgotten ==> self.tiles[i].weight
                < self.forget_threshold
        &&& forall|i: int|
            0 <= i < self.tiles.len() ==> (#[trigger] self.tiles[i]).last_access_period
                <= self.current_period && self.tiles[i].created_period <= self.current_period
        &&& self.next_id == self.total_harvested + 1
        &&& forall|i: int, j: int|
            0 <= i < j < self.tombstones.len() ==> #[trigger] self.tombstones[i].vessel_id
                != #[trigger] self.tombstones[j].vessel_id
    }
}

impl View for Afterlife {
    type V = AfterlifeView;

    closed spec fn view(&self) -> AfterlifeView {
        AfterlifeView {
            tiles: self.ghost_tiles@.map_values(|t: GhostTile| t@),
            tombstones: self.tombstones@.map_values(|t: Tombstone| t@),
            next_id: self.next_id,
            ghost_weight: self.ghost_weight,
            decay_rate: self.decay_rate,
            forget_threshold: self.forget_threshold,
            current_period: self.current_period,
            total_harvested: self.total_harvested,
            total_resurrections: self.total_resurrections,
        }
    }
}

/// The tile with id `id`, if there is one.
pub open spec fn find_tile(tiles: Seq<GhostTileView>, id: u64) -> Option<GhostTileView> {
    if exists|i: int| 0 <= i < tiles.len() && #[trigger] tiles[i].id == id {
        Some(tiles[choose|i: int| 0 <= i < tiles.len() && #[trigger] tiles[i].id == id])
    } else {
        None
    }
}

/// The tombstone of vessel `vessel_id`, if there is one.
pub open spec fn find_tombstone(ts: Seq<TombstoneView>, vessel_id: u32) -> Option<TombstoneView> {
    if exists|i: int| 0 <= i < ts.len() && #[trigger] ts[i].vessel_id == vessel_id {
        Some(ts[choose|i: int| 0 <= i < ts.len() && #[trigger] ts[i].vessel_id == vessel_id])
    } else {
        None
    }
}

/// The tiles that are not forgotten, in order.
pub open spec fn active_tiles(s: Seq<GhostTileView>) -> Seq<GhostTileView>
    decreases s.len(),
{
    if s.len() == 0 {
        Seq::empty()
    } else if s.last().forgotten {
        active_tiles(s.drop_last())
    } else {
        active_tiles(s.drop_last()).push(s.last())
    }
}

/// How many tiles are strongly present.
pub open spec fn strong_count(s: Seq<GhostTileView>) -> nat
    decreases s.len(),
{
    if s.len() == 0 {
        0
    } else {
        strong_count(s.drop_last()) + if strong(s.last()) {
            1nat
        } else {
            0nat
        }
    }
}

/// The sum of the weights of the tiles.
pub open spec fn weight_sum(s: Seq<GhostTileView>) -> int
    decreases s.len(),
{
    if s.len() == 0 {
        0
    } else {
        weight_sum(s.drop_last()) + s.last().weight
    }
}

/// The mean weight of the tiles that are not forgotten, rounded down; zero
/// when every tile is forgotten.
pub open spec fn mean_active_weight(s: Seq<GhostTileView>) -> int {
    let a = active_tiles(s);
    if a.len() == 0 {
        0
    } else {
        weight_sum(a) / (a.len() as int)
    }
}

/// The tag naming the vessel a tile came from.
pub open spec fn from_tag(name: Seq<char>) -> Seq<char> {
    "from:"@ + name
}

/// The tag naming the role of the vessel a tile came from.
pub open spec fn role_tag(role: Seq<char>) -> Seq<char> {
    "role:"@ + role
}

/// The tile harvested from lesson `lesson` of tombstone `t`: a fresh tile
/// with id `id` created in `period`, whose weight is `weight` and whose tags
/// name the vessel and its role.
pub open spec fn harvested_tile(
    t: TombstoneView,
    lesson: Seq<char>,
    id: u64,
    period: u32,
    weight: i64,
) -> GhostTileView {
    GhostTileView {
        weight,
        tags: seq![from_tag(t.name), role_tag(t.role)],
        ..fresh_tile(id, lesson, t.vessel_id, t.name, period)
    }
}

/// The tiles harvested from `lessons`, with ids counting up from `first_id`.
pub open spec fn harvested_tiles(
    t: TombstoneView,
    lessons: Seq<Seq<char>>,
    first_id: u64,
    period: u32,
    weight: i64,
) -> Seq<GhostTileView> {
    Seq::new(
        lessons.len(),
        |k: int| harvested_tile(t, lessons[k], (first_id + k) as u64, period, weight),
    )
}

/// The tombstones with `t` in place of the one for its vessel, or added
/// at the end when its vessel has none.
pub open spec fn upsert_tombstone(ts: Seq<TombstoneView>, t: TombstoneView) -> Seq<TombstoneView> {
    if exists|i: int| 0 <= i < ts.len() && #[trigger] ts[i].vessel_id == t.vessel_id {
        ts.update(choose|i: int| 0 <= i < ts.len() && #[trigger] ts[i].vessel_id == t.vessel_id, t)
    } else {
        ts.push(t)
    }
}

/// A string made of `prefix` followed by `s`.
fn prefixed(prefix: &str, s: &str) -> (res: String)
    ensures
        res@ == prefix@ + s@,
{
    let mut res = String::from_str(prefix);
    res.append(s);
    res
}

/// The tile after a tick into `period` at `rate` with forget threshold
/// `threshold`: forgotten tiles are left alone, the others decay.
pub open spec fn ticked_tile(t: GhostTileView, period: u32, rate: i64, threshold: i64) -> GhostTileView {
    if t.forgotten {
        t
    } else {
        decayed_tile(t, period, rate, threshold)
    }
}

/// How many tiles a tick into `period` at `rate` with forget threshold
/// `threshold` makes forgotten.
pub open spec fn newly_forgotten(s: Seq<GhostTileView>, period: u32, rate: i64, threshold: i64) -> nat
    decreases s.len(),
{
    if s.len() == 0 {
        0
    } else {
        newly_forgotten(s.drop_last(), period, rate, threshold) + if !s.last().forgotten
            && decayed_tile(s.last(), period, rate, threshold).forgotten {
            1nat
        } else {
            0nat
        }
    }
}

/// Whether a tile of relevance `rel` is reported by a query with minimum
/// relevance `min`: a forgotten tile counts at half its relevance.
pub open spec fn passes(forgotten: bool, rel: int, min: u64) -> bool {
    if forgotten {
        rel >= 2 * min
    } else {
        rel >= min
    }
}

/// The relevance with which a query reports tile `t`, or `None` when it
/// does not report it.
pub open spec fn match_score(t: GhostTileView, query: Seq<char>, min: u64) -> Option<u64> {
    let r = relevance(t.content, t.tags, query);
    if passes(t.forgotten, r, min) {
        Some(r as u64)
    } else {
        None
    }
}

/// The tile after a query in `period` with forget threshold `threshold`:
/// boosted when the query reports it, unchanged otherwise.
pub open spec fn queried_tile(
    t: GhostTileView,
    query: Seq<char>,
    min: u64,
    period: u32,
    threshold: i64,
) -> GhostTileView {
    match match_score(t, query, min) {
        Some(r) => boosted_tile(t, r, period, threshold),
        None => t,
    }
}

/// The query reports forgotten tile `t` and its boost lifts it to the
/// forget threshold or above.
pub open spec fn resurrects(t: GhostTileView, query: Seq<char>, min: u64, threshold: i64) -> bool {
    &&& t.forgotten
    &&& match_score(t, query, min) is Some
    &&& boosted_weight(t.weight, match_score(t, query, min)->0) >= threshold
}

/// How many forgotten tiles the query brings back.
pub open spec fn resurrected(s: Seq<GhostTileView>, query: Seq<char>, min: u64, threshold: i64) -> nat
    decreases s.len(),
{
    if s.len() == 0 {
        0
    } else {
        resurrected(s.drop_last(), query, min, threshold) + if resurrects(
            s.last(),
            query,
            min,
            threshold,
        ) {
            1nat
        } else {
            0nat
        }
    }
}

/// `a` comes before `b` in query results: higher relevance first, and on
/// equal relevance the older tile (smaller id) first.
pub open spec fn ranked_before(a: GhostMatchView, b: GhostMatchView) -> bool {
    a.relevance > b.relevance || (a.relevance == b.relevance && a.tile.id < b.tile.id)
}

/// Matches in strictly ranked order.
pub open spec fn ranked(ms: Seq<GhostMatchView>) -> bool {
    forall|i: int, j: int| 0 <= i < j < ms.len() ==> ranked_before(#[trigger] ms[i], #[trigger] ms[j])
}

/// Every match in `ms` is for one of the first `n` tiles, as the tile was
/// before the query, with the relevance the query reports it with.
#[verifier::opaque]
pub open spec fn reports_only(
    tiles: Seq<GhostTileView>,
    query: Seq<char>,
    min: u64,
    n: int,
    ms: Seq<GhostMatchView>,
) -> bool {
    forall|k: int|
        #![trigger ms[k]]
        0 <= k < ms.len() ==> exists|i: int|
            0 <= i < n && #[trigger] match_score(tiles[i], query, min) == Some(ms[k].relevance)
                && ms[k].tile == tiles[i]
}

/// Every one of the first `n` tiles that the query reports has its match
/// in `ms`.
#[verifier::opaque]
pub open spec fn reports_all(
    tiles: Seq<GhostTileView>,
    query: Seq<char>,
    min: u64,
    n: int,
    ms: Seq<GhostMatchView>,
) -> bool {
    forall|i: int|
        0 <= i < n && #[trigger] match_score(tiles[i], query, min) is Some ==> exists|k: int|
            0 <= k < ms.len() && #[trigger] ms[k] == (GhostMatchView {
                tile: tiles[i],
                relevance: match_score(tiles[i], query, min)->0,
            })
}

/// `ms` is what a query reports on the first `n` of `tiles`: every
/// reported tile, as it was before the query, with its relevance, ranked.
pub open spec fn reported_among(
    tiles: Seq<GhostTileView>,
    query: Seq<char>,
    min: u64,
    n: int,
    ms: Seq<GhostMatchView>,
) -> bool {
    &&& ranked(ms)
    &&& reports_only(tiles, query, min, n, ms)
    &&& reports_all(tiles, query, min, n, ms)
}

/// `ms` is what a query reports on `tiles`.
pub open spec fn query_result(
    tiles: Seq<GhostTileView>,
    query: Seq<char>,
    min: u64,
    ms: Seq<GhostMatchView>,
) -> bool {
    reported_among(tiles, query, min, tiles.len() as int, ms)
}

/// Ids strictly increase along the tiles.
pub open spec fn ids_increasing(tiles: Seq<GhostTileView>) -> bool {
    forall|i: int, j: int| 0 <= i < j < tiles.len() ==> #[trigger] tiles[i].id < #[trigger] tiles[j].id
}

proof fn lemma_reported_skip(
    tiles: Seq<GhostTileView>,
    query: Seq<char>,
    min: u64,
    n: int,
    ms: Seq<GhostMatchView>,
)
    requires
        0 <= n < tiles.len(),
        reported_among(tiles, query, min, n, ms),
        match_score(tiles[n], query, min) is None,
    ensures
        reported_among(tiles, query, min, n + 1, ms),
{
    reveal(reports_only);
    reveal(reports_all);
    assert forall|k: int|
        #![trigger ms[k]]
        0 <= k < ms.len() implies exists|i: int|
            0 <= i < n + 1 && #[trigger] match_score(tiles[i], query, min) == Some(ms[k].relevance)
                && ms[k].tile == tiles[i] by {
        let i = choose|i: int|
            0 <= i < n && #[trigger] match_score(tiles[i], query, min) == Some(ms[k].relevance)
                && ms[k].tile == tiles[i];
    }
}

proof fn lemma_only_insert(
    tiles: Seq<GhostTileView>,
    query: Seq<char>,
    min: u64,
    n: int,
    ms: Seq<GhostMatchView>,
    pos: int,
    x: GhostMatchView,
)
    requires
        0 <= n < tiles.len(),
        reports_only(tiles, query, min, n, ms),
        match_score(tiles[n], query, min) == Some(x.relevance),
        x.tile == tiles[n],
        0 <= pos <= ms.len(),
    ensures
        reports_only(tiles, query, min, n + 1, ms.insert(pos, x)),
{
    reveal(reports_only);
    let r = ms.insert(pos, x);
    assert forall|k: int|
        #![trigger r[k]]
        0 <= k < r.len() implies exists|i: int|
            0 <= i < n + 1 && #[trigger] match_score(tiles[i], query, min) == Some(r[k].relevance)
                && r[k].tile == tiles[i] by {
        if k == pos {
            assert(match_score(tiles[n], query, min) == Some(r[k].relevance));
        } else {
            let k0 = if k < pos {
                k
            } else {
                k - 1
            };
            assert(r[k] == ms[k0]);
            let i = choose|i: int|
                0 <= i < n && #[trigger] match_score(tiles[i], query, min) == Some(
                    ms[k0].relevance,
                ) && ms[k0].tile == tiles[i];
        }
    }
}

proof fn lemma_all_insert(
    tiles: Seq<GhostTileView>,
    query: Seq<char>,
    min: u64,
    n: int,
    ms: Seq<GhostMatchView>,
    pos: int,
    x: GhostMatchView,
)
    requires
        0 <= n < tiles.len(),
        reports_all(tiles, query, min, n, ms),
        match_score(tiles[n], query, min) == Some(x.relevance),
        x.tile == tiles[n],
        0 <= pos <= ms.len(),
    ensures
        reports_all(tiles, query, min, n + 1, ms.insert(pos, x)),
{
    reveal(reports_all);
    let r = ms.insert(pos, x);
    assert forall|i: int|
        0 <= i < n + 1 && #[trigger] match_score(tiles[i], query, min) is Some implies exists|k: int|
            0 <= k < r.len() && #[trigger] r[k] == (GhostMatchView {
                tile: tiles[i],
                relevance: match_score(tiles[i], query, min)->0,
            }) by {
        if i == n {
            assert(r[pos] == x);
        } else {
            let k = choose|k: int|
                0 <= k < ms.len() && #[trigger] ms[k] == (GhostMatchView {
                    tile: tiles[i],
                    relevance: match_score(tiles[i], query, min)->0,
                });
            if k < pos {
                assert(r[k] == ms[k]);
            } else {
                assert(r[k + 1] == ms[k]);
            }
        }
    }
}

proof fn lemma_rank_insert(
    tiles: Seq<GhostTileView>,
    query: Seq<char>,
    min: u64,
    n: int,
    ms: Seq<GhostMatchView>,
    pos: int,
    x: GhostMatchView,
)
    requires
        0 <= n < tiles.len(),
        ids_increasing(tiles),
        ranked(ms),
        reports_only(tiles, query, min, n, ms),
        x.tile == tiles[n],
        0 <= pos <= ms.len(),
        forall|k: int| 0 <= k < pos ==> (#[trigger] ms[k]).relevance >= x.relevance,
        pos < ms.len() ==> ms[pos].relevance < x.relevance,
    ensures
        ranked(ms.insert(pos, x)),
{
    reveal(reports_only);
    assert forall|k: int| 0 <= k < pos implies ranked_before(#[trigger] ms[k], x) by {
        let j = choose|j: int|
            0 <= j < n && #[trigger] match_score(tiles[j], query, min) == Some(ms[k].relevance)
                && ms[k].tile == tiles[j];
        assert(tiles[j].id < tiles[n].id);
    }
    assert forall|k: int| pos <= k < ms.len() implies ranked_before(x, #[trigger] ms[k]) by {
        if k > pos {
            assert(ranked_before(ms[pos], ms[k]));
        }
    }
    lemma_insert_ranked(ms, pos, x);
}

/// Inserts `m`, the match for tile `n`, where it ranks among the matches
/// for the tiles before it.
fn insert_match(
    matches: &mut Vec<GhostMatch>,
    m: GhostMatch,
    Ghost(tiles): Ghost<Seq<GhostTileView>>,
    Ghost(query): Ghost<Seq<char>>,
    min: u64,
    Ghost(n): Ghost<int>,
)
    requires
        0 <= n < tiles.len(),
        ids_increasing(tiles),
        reported_among(tiles, query, min, n, old(matches)@.map_values(|m: GhostMatch| m@)),
        match_score(tiles[n], query, min) == Some(m.relevance),
        m@.tile == tiles[n],
    ensures
        reported_among(tiles, query, min, n + 1, final(matches)@.map_values(|m: GhostMatch| m@)),
{
    let ghost mv = matches@.map_values(|m: GhostMatch| m@);
    let rel = m.relevance;
    let mut pos: usize = 0;
    while pos < matches.len() && matches[pos].relevance >= rel
        invariant
            pos <= matches@.len(),
            mv == matches@.map_values(|m: GhostMatch| m@),
            forall|k: int| 0 <= k < pos ==> (#[trigger] mv[k]).relevance >= rel,
        decreases matches.len() - pos,
    {
        assert(mv[pos as int] == matches@[pos as int]@);
        pos = pos + 1;
    }
    if pos < matches.len() {
        assert(mv[pos as int] == matches@[pos as int]@);
    }
    let ghost x = m@;
    proof {
        lemma_rank_insert(tiles, query, min, n, mv, pos as int, x);
        lemma_only_insert(tiles, query, min, n, mv, pos as int, x);
        lemma_all_insert(tiles, query, min, n, mv, pos as int, x);
    }
    matches.insert(pos, m);
    assert(matches@.map_values(|m: GhostMatch| m@) =~= mv.insert(pos as int, x));
}

/// A query can run without a counter passing `u32::MAX`: no reported tile
/// has been accessed `u32::MAX` times, and the resurrection count has room
/// for the tiles it brings back.
pub open spec fn query_fits(v: AfterlifeView, query: Seq<char>, min: u64) -> bool {
    &&& forall|i: int|
        0 <= i < v.tiles.len() && #[trigger] match_score(v.tiles[i], query, min) is Some
            ==> v.tiles[i].access_count < u32::MAX
    &&& v.total_resurrections + resurrected(v.tiles, query, min, v.forget_threshold) <= u32::MAX
}

/// The afterlife after a query: every reported tile is boosted, and the
/// forgotten ones among them that the boost lifts to the forget threshold
/// are counted as resurrections.
pub open spec fn after_query(pre: AfterlifeView, query: Seq<char>, min: u64) -> AfterlifeView {
    AfterlifeView {
        tiles: pre.tiles.map_values(
            |t: GhostTileView| queried_tile(t, query, min, pre.current_period, pre.forget_threshold),
        ),
        total_resurrections: (pre.total_resurrections + resurrected(
            pre.tiles,
            query,
            min,
            pre.forget_threshold,
        )) as u32,
        ..pre
    }
}

/// The afterlife after a tick: the period advances by one and every tile
/// that is not forgotten decays.
pub open spec fn after_tick(pre: AfterlifeView) -> AfterlifeView {
    AfterlifeView {
        tiles: pre.tiles.map_values(
            |t: GhostTileView|
                ticked_tile(
                    t,
                    (pre.current_period + 1) as u32,
                    pre.decay_rate,
                    pre.forget_threshold,
                ),
        ),
        current_period: (pre.current_period + 1) as u32,
        ..pre
    }
}

/// The afterlife after the forgotten tiles are pruned.
pub open spec fn after_prune(pre: AfterlifeView) -> AfterlifeView {
    AfterlifeView { tiles: active_tiles(pre.tiles), ..pre }
}

/// The afterlife after a harvest of `lessons` from tombstone `t`.
pub open spec fn after_harvest(pre: AfterlifeView, t: TombstoneView, lessons: Seq<Seq<char>>) -> AfterlifeView {
    AfterlifeView {
        tiles: pre.tiles + harvested_tiles(
            t,
            lessons,
            pre.next_id,
            pre.current_period,
            pre.ghost_weight,
        ),
        tombstones: upsert_tombstone(pre.tombstones, t),
        next_id: (pre.next_id + lessons.len()) as u64,
        total_harvested: (pre.total_harvested + lessons.len()) as u32,
        ..pre
    }
}

/// The tile that adding a ghost with this content and source makes.
pub open spec fn added_tile(
    pre: AfterlifeView,
    content: Seq<char>,
    source_vessel: u32,
    source_name: Seq<char>,
) -> GhostTileView {
    GhostTileView {
        weight: pre.ghost_weight,
        ..fresh_tile(pre.next_id, content, source_vessel, source_name, pre.current_period)
    }
}

/// The afterlife after a ghost with this content and source is added.
pub open spec fn after_add_ghost(
    pre: AfterlifeView,
    content: Seq<char>,
    source_vessel: u32,
    source_name: Seq<char>,
) -> AfterlifeView {
    AfterlifeView {
        tiles: pre.tiles.push(added_tile(pre, content, source_vessel, source_name)),
        next_id: (pre.next_id + 1) as u64,
        total_harvested: (pre.total_harvested + 1) as u32,
        ..pre
    }
}

proof fn lemma_resurrected_prefix(
    s: Seq<GhostTileView>,
    query: Seq<char>,
    min: u64,
    threshold: i64,
    i: int,
)
    requires
        0 <= i <= s.len(),
    ensures
        resurrected(s.take(i), query, min, threshold) <= resurrected(s, query, min, threshold),
    decreases s.len(),
{
    if i < s.len() {
        assert(s.take(i) =~= s.drop_last().take(i));
        lemma_resurrected_prefix(s.drop_last(), query, min, threshold, i);
    } else {
        assert(s.take(i) =~= s);
    }
}

proof fn lemma_insert_ranked(ms: Seq<GhostMatchView>, pos: int, x: GhostMatchView)
    requires
        ranked(ms),
        0 <= pos <= ms.len(),
        forall|k: int| 0 <= k < pos ==> ranked_before(#[trigger] ms[k], x),
        forall|k: int| pos <= k < ms.len() ==> ranked_before(x, #[trigger] ms[k]),
    ensures
        ranked(ms.insert(pos, x)),
{
    let r = ms.insert(pos, x);
    assert forall|i: int, j: int| 0 <= i < j < r.len() implies ranked_before(
        #[trigger] r[i],
        #[trigger] r[j],
    ) by {
        if j < pos {
            assert(ranked_before(ms[i], ms[j]));
        } else if j == pos {
            assert(ranked_before(ms[i], x));
        } else if i < pos {
            assert(ranked_before(ms[i], ms[j - 1]));
        } else if i == pos {
            assert(ranked_before(x, ms[j - 1]));
        } else {
            assert(ranked_before(ms[i - 1], ms[j - 1]));
        }
    }
}

/// `a` comes before `b` among the most accessed tiles: more accesses first,
/// and on equal counts the older tile (smaller id) first.
pub open spec fn accessed_before(a: GhostTileView, b: GhostTileView) -> bool {
    a.access_count > b.access_count || (a.access_count == b.access_count && a.id < b.id)
}

/// Tiles in strictly descending order of accesses.
pub open spec fn access_ranked(ts: Seq<GhostTileView>) -> bool {
    forall|i: int, j: int| 0 <= i < j < ts.len() ==> accessed_before(#[trigger] ts[i], #[trigger] ts[j])
}

/// `t` is one of the first `n` tiles, and is not forgotten.
pub open spec fn active_among(tiles: Seq<GhostTileView>, n: int, t: GhostTileView) -> bool {
    exists|i: int| 0 <= i < n && !tiles[i].forgotten && #[trigger] tiles[i] == t
}

/// Every tile in `ts` is one of the first `n` tiles and is not forgotten.
#[verifier::opaque]
pub open spec fn lists_only_active(tiles: Seq<GhostTileView>, n: int, ts: Seq<GhostTileView>) -> bool {
    forall|k: int| 0 <= k < ts.len() ==> active_among(tiles, n, #[trigger] ts[k])
}

/// Every one of the first `n` tiles that is not forgotten is in `ts`.
#[verifier::opaque]
pub open spec fn lists_all_active(tiles: Seq<GhostTileView>, n: int, ts: Seq<GhostTileView>) -> bool {
    forall|i: int|
        0 <= i < n && !(#[trigger] tiles[i]).forgotten ==> exists|k: int|
            0 <= k < ts.len() && #[trigger] ts[k] == tiles[i]
}

/// `ts` holds the tiles among the first `n` that are not forgotten, most
/// accessed first.
pub open spec fn access_ranking(tiles: Seq<GhostTileView>, n: int, ts: Seq<GhostTileView>) -> bool {
    &&& access_ranked(ts)
    &&& lists_only_active(tiles, n, ts)
    &&& lists_all_active(tiles, n, ts)
}

proof fn lemma_access_skip(tiles: Seq<GhostTileView>, n: int, ts: Seq<GhostTileView>)
    requires
        0 <= n < tiles.len(),
        access_ranking(tiles, n, ts),
        tiles[n].forgotten,
    ensures
        access_ranking(tiles, n + 1, ts),
{
    assert(lists_only_active(tiles, n + 1, ts)) by {
        reveal(lists_only_active);
        assert forall|k: int| 0 <= k < ts.len() implies active_among(tiles, n + 1, #[trigger] ts[k]) by {
            let i = choose|i: int| 0 <= i < n && !tiles[i].forgotten && #[trigger] tiles[i] == ts[k];
            assert(0 <= i < n + 1 && !tiles[i].forgotten && tiles[i] == ts[k]);
        }
    }
    assert(lists_all_active(tiles, n + 1, ts)) by {
        reveal(lists_all_active);
        assert forall|i: int|
            0 <= i < n + 1 && !(#[trigger] tiles[i]).forgotten implies exists|k: int|
                0 <= k < ts.len() && #[trigger] ts[k] == tiles[i] by {
            assert(i < n);
        }
    }
}

proof fn lemma_access_insert(tiles: Seq<GhostTileView>, n: int, ts: Seq<GhostTileView>, pos: int)
    requires
        0 <= n < tiles.len(),
        ids_increasing(tiles),
        access_ranking(tiles, n, ts),
        !tiles[n].forgotten,
        0 <= pos <= ts.len(),
        forall|k: int| 0 <= k < pos ==> (#[trigger] ts[k]).access_count >= tiles[n].access_count,
        pos < ts.len() ==> ts[pos].access_count < tiles[n].access_count,
    ensures
        access_ranking(tiles, n + 1, ts.insert(pos, tiles[n])),
{
    let x = tiles[n];
    let r = ts.insert(pos, x);
    assert forall|k: int| 0 <= k < pos implies accessed_before(#[trigger] ts[k], x) by {
        reveal(lists_only_active);
        assert(active_among(tiles, n, ts[k]));
        let j = choose|j: int| 0 <= j < n && !tiles[j].forgotten && #[trigger] tiles[j] == ts[k];
        assert(tiles[j].id < tiles[n].id);
    }
    assert forall|i: int, j: int| 0 <= i < j < r.len() implies accessed_before(
        #[trigger] r[i],
        #[trigger] r[j],
    ) by {
        if j < pos {
            assert(accessed_before(ts[i], ts[j]));
        } else if j == pos {
            assert(accessed_before(ts[i], x));
        } else if i < pos {
            assert(accessed_before(ts[i], ts[j - 1]));
        } else if i == pos {
            if j - 1 > pos {
                assert(accessed_before(ts[pos], ts[j - 1]));
            }
        } else {
            assert(accessed_before(ts[i - 1], ts[j - 1]));
        }
    }
    assert(lists_only_active(tiles, n + 1, r)) by {
        reveal(lists_only_active);
        assert forall|k: int| 0 <= k < r.len() implies active_among(tiles, n + 1, #[trigger] r[k]) by {
            if k == pos {
                assert(r[k] == tiles[n]);
                assert(0 <= n < n + 1 && !tiles[n].forgotten && tiles[n] == r[k]);
            } else {
                let k0 = if k < pos {
                    k
                } else {
                    k - 1
                };
                assert(r[k] == ts[k0]);
                assert(active_among(tiles, n, ts[k0]));
                let i = choose|i: int| 0 <= i < n && !tiles[i].forgotten && #[trigger] tiles[i] == ts[k0];
                assert(0 <= i < n + 1 && !tiles[i].forgotten && tiles[i] == r[k]);
            }
        }
    }
    assert(lists_all_active(tiles, n + 1, r)) by {
        reveal(lists_all_active);
        assert forall|i: int|
            0 <= i < n + 1 && !(#[trigger] tiles[i]).forgotten implies exists|k: int|
                0 <= k < r.len() && #[trigger] r[k] == tiles[i] by {
            if i == n {
                assert(r[pos] == x);
            } else {
                let k = choose|k: int| 0 <= k < ts.len() && #[trigger] ts[k] == tiles[i];
                if k < pos {
                    assert(r[k] == ts[k]);
                } else {
                    assert(r[k + 1] == ts[k]);
                }
            }
        }
    }
}

proof fn lemma_ids_grow(tiles: Seq<GhostTileView>, k: int)
    requires
        forall|i: int, j: int| 0 <= i < j < tiles.len() ==> #[trigger] tiles[i].id < #[trigger] tiles[j].id,
        forall|i: int| 0 <= i < tiles.len() ==> 1 <= #[trigger] tiles[i].id,
        0 <= k < tiles.len(),
    ensures
        tiles[k].id >= k + 1,
    decreases k,
{
    if k > 0 {
        lemma_ids_grow(tiles, k - 1);
    }
}

/// In a well-formed afterlife there are no more tiles than were ever
/// created.
pub proof fn lemma_tile_count_bound(v: AfterlifeView)
    requires
        v.wf(),
    ensures
        v.tiles.len() <= v.total_harvested,
{
    if v.tiles.len() > 0 {
        lemma_ids_grow(v.tiles, v.tiles.len() - 1);
    }
}

/// Tiles with strictly increasing ids in `[1, bound)` keep that property
/// when the forgotten ones are left out.
pub proof fn lemma_active_sorted(s: Seq<GhostTileView>, bound: u64)
    requires
        forall|i: int, j: int| 0 <= i < j < s.len() ==> #[trigger] s[i].id < #[trigger] s[j].id,
        forall|i: int| 0 <= i < s.len() ==> 1 <= #[trigger] s[i].id < bound,
    ensures
        forall|i: int, j: int|
            0 <= i < j < active_tiles(s).len() ==> #[trigger] active_tiles(s)[i].id
                < #[trigger] active_tiles(s)[j].id,
        forall|i: int|
            0 <= i < active_tiles(s).len() ==> 1 <= #[trigger] active_tiles(s)[i].id < bound,
    decreases s.len(),
{
    if s.len() > 0 {
        let init = s.drop_last();
        assert forall|i: int| 0 <= i < init.len() implies 1 <= #[trigger] init[i].id < s.last().id by {
            assert(s[i].id < s[s.len() - 1].id);
        }
        lemma_active_sorted(init, s.last().id);
        let a = active_tiles(init);
        let last = s[s.len() - 1];
        assert(1 <= last.id < bound);
        if last.forgotten {
            assert(active_tiles(s) == a);
        } else {
            let b = a.push(last);
            assert(active_tiles(s) == b);
            assert forall|i: int, j: int| 0 <= i < j < b.len() implies #[trigger] b[i].id
                < #[trigger] b[j].id by {
                if j < a.len() {
                    assert(a[i].id < a[j].id);
                } else {
                    assert(a[i].id < last.id);
                }
            }
            assert forall|i: int| 0 <= i < b.len() implies 1 <= #[trigger] b[i].id < bound by {
                if i < a.len() {
                    assert(a[i].id < last.id);
                }
            }
        }
    }
}

/// Every tile left when the forgotten ones are left out is one of the
/// tiles, and is not forgotten.
pub proof fn lemma_active_members(s: Seq<GhostTileView>)
    ensures
        forall|k: int|
            0 <= k < active_tiles(s).len() ==> !(#[trigger] active_tiles(s)[k]).forgotten
                && s.contains(active_tiles(s)[k]),
    decreases s.len(),
{
    if s.len() > 0 {
        let init = s.drop_last();
        lemma_active_members(init);
        let a = active_tiles(init);
        assert forall|k: int| 0 <= k < a.len() implies s.contains(#[trigger] a[k]) by {
            let j = choose|j: int| 0 <= j < init.len() && init[j] == a[k];
            assert(s[j] == a[k]);
        }
        if !s.last().forgotten {
            assert(s[s.len() - 1] == s.last());
        }
    }
}

/// Every tile that is not forgotten is kept when the forgotten ones are
/// left out.
pub proof fn lemma_active_complete(s: Seq<GhostTileView>)
    ensures
        forall|j: int| 0 <= j < s.len() && !(#[trigger] s[j]).forgotten ==> active_tiles(s).contains(s[j]),
    decreases s.len(),
{
    if s.len() > 0 {
        let init = s.drop_last();
        lemma_active_complete(init);
        let a = active_tiles(init);
        assert forall|j: int| 0 <= j < s.len() && !(#[trigger] s[j]).forgotten implies active_tiles(
            s,
        ).contains(s[j]) by {
            if j < init.len() {
                assert(s[j] == init[j]);
                let k = choose|k: int| 0 <= k < a.len() && a[k] == init[j];
                if !s.last().forgotten {
                    assert(a.push(s.last())[k] == a[k]);
                }
            } else {
                assert(a.push(s.last())[a.len() as int] == s[j]);
            }
        }
    }
}

proof fn lemma_active_len(s: Seq<GhostTileView>)
    ensures
        active_tiles(s).len() <= s.len(),
    decreases s.len(),
{
    if s.len() > 0 {
        lemma_active_len(s.drop_last());
    }
}

/// Recording a tombstone keeps vessel ids unique.
pub proof fn lemma_upsert_unique(ts: Seq<TombstoneView>, t: TombstoneView)
    requires
        forall|i: int, j: int|
            0 <= i < j < ts.len() ==> #[trigger] ts[i].vessel_id != #[trigger] ts[j].vessel_id,
    ensures
        forall|i: int, j: int|
            0 <= i < j < upsert_tombstone(ts, t).len() ==> #[trigger] upsert_tombstone(ts, t)[i].vessel_id
                != #[trigger] upsert_tombstone(ts, t)[j].vessel_id,
{
    let u = upsert_tombstone(ts, t);
    if exists|i: int| 0 <= i < ts.len() && #[trigger] ts[i].vessel_id == t.vessel_id {
        let p = choose|i: int| 0 <= i < ts.len() && #[trigger] ts[i].vessel_id == t.vessel_id;
        assert forall|i: int, j: int| 0 <= i < j < u.len() implies #[trigger] u[i].vessel_id
            != #[trigger] u[j].vessel_id by {
            if i == p {
                assert(ts[p].vessel_id != ts[j].vessel_id);
            } else if j == p {
                assert(ts[i].vessel_id != ts[p].vessel_id);
            } else {
                assert(ts[i].vessel_id != ts[j].vessel_id);
            }
        }
    } else {
        assert forall|i: int, j: int| 0 <= i < j < u.len() implies #[trigger] u[i].vessel_id
            != #[trigger] u[j].vessel_id by {
            if j < ts.len() {
                assert(ts[i].vessel_id != ts[j].vessel_id);
            } else {
                assert(u[j] == t);
                assert(u[i] == ts[i]);
            }
        }
    }
}

/// A harvest keeps the afterlife well-formed.
pub proof fn lemma_after_harvest_wf(pre: AfterlifeView, t: TombstoneView, lessons: Seq<Seq<char>>)
    requires
        pre.wf(),
        pre.total_harvested + lessons.len() <= u32::MAX,
    ensures
        after_harvest(pre, t, lessons).wf(),
{
    let post = after_harvest(pre, t, lessons);
    let h = harvested_tiles(t, lessons, pre.next_id, pre.current_period, pre.ghost_weight);
    let n = pre.tiles.len();
    assert forall|i: int| 0 <= i < post.tiles.len() implies #[trigger] post.tiles[i] == if i < n {
        pre.tiles[i]
    } else {
        h[i - n]
    } by {}
    assert forall|a: int, b: int| 0 <= a < b < post.tiles.len() implies #[trigger] post.tiles[a].id
        < #[trigger] post.tiles[b].id by {
        if b < n {
            assert(pre.tiles[a].id < pre.tiles[b].id);
        }
    }
    lemma_upsert_unique(pre.tombstones, t);
}

/// Adding a ghost keeps the afterlife well-formed.
pub proof fn lemma_after_add_ghost_wf(
    pre: AfterlifeView,
    content: Seq<char>,
    source_vessel: u32,
    source_name: Seq<char>,
)
    requires
        pre.wf(),
        pre.total_harvested < u32::MAX,
    ensures
        after_add_ghost(pre, content, source_vessel, source_name).wf(),
{
    let post = after_add_ghost(pre, content, source_vessel, source_name);
    let n = pre.tiles.len();
    assert forall|i: int| 0 <= i < n implies #[trigger] post.tiles[i] == pre.tiles[i] by {}
    assert forall|a: int, b: int| 0 <= a < b < post.tiles.len() implies #[trigger] post.tiles[a].id
        < #[trigger] post.tiles[b].id by {
        if b < n {
            assert(pre.tiles[a].id < pre.tiles[b].id);
        }
    }
}

/// A tick keeps the afterlife well-formed.
pub proof fn lemma_after_tick_wf(pre: AfterlifeView)
    requires
        pre.wf(),
        pre.current_period < u32::MAX,
    ensures
        after_tick(pre).wf(),
{
    let post = after_tick(pre);
    let period = (pre.current_period + 1) as u32;
    assert forall|j: int| 0 <= j < post.tiles.len() implies #[trigger] post.tiles[j] == ticked_tile(
        pre.tiles[j],
        period,
        pre.decay_rate,
        pre.forget_threshold,
    ) by {}
    assert forall|a: int, b: int| 0 <= a < b < post.tiles.len() implies #[trigger] post.tiles[a].id
        < #[trigger] post.tiles[b].id by {
        assert(pre.tiles[a].id < pre.tiles[b].id);
    }
}

/// A query keeps the afterlife well-formed.
pub proof fn lemma_after_query_wf(pre: AfterlifeView, query: Seq<char>, min: u64)
    requires
        pre.wf(),
    ensures
        after_query(pre, query, min).wf(),
{
    let post = after_query(pre, query, min);
    assert forall|j: int| 0 <= j < post.tiles.len() implies #[trigger] post.tiles[j] == queried_tile(
        pre.tiles[j],
        query,
        min,
        pre.current_period,
        pre.forget_threshold,
    ) by {}
    assert forall|a: int, b: int| 0 <= a < b < post.tiles.len() implies #[trigger] post.tiles[a].id
        < #[trigger] post.tiles[b].id by {
        assert(pre.tiles[a].id < pre.tiles[b].id);
    }
}

/// Pruning keeps the afterlife well-formed.
pub proof fn lemma_after_prune_wf(pre: AfterlifeView)
    requires
        pre.wf(),
    ensures
        after_prune(pre).wf(),
{
    lemma_active_sorted(pre.tiles, pre.next_id);
    lemma_active_members(pre.tiles);
    let a = active_tiles(pre.tiles);
    assert forall|k: int| 0 <= k < a.len() implies (#[trigger] a[k]).last_access_period
        <= pre.current_period && a[k].created_period <= pre.current_period by {
        let j = choose|j: int| 0 <= j < pre.tiles.len() && pre.tiles[j] == a[k];
        assert(pre.tiles[j].last_access_period <= pre.current_period);
    }
}

impl Afterlife {
    /// Well-formed: see [`AfterlifeView::wf`].
    pub open spec fn wf(&self) -> bool {
        self@.wf()
    }

    /// An empty afterlife with ghost weight 0.1, decay rate 0.1 and forget
    /// threshold 0.05, in period 0; the first tile gets id 1.
    pub fn new() -> (res: Self)
        ensures
            res.wf(),
            res@.tiles == Seq::<GhostTileView>::empty(),
            res@.tombstones == Seq::<TombstoneView>::empty(),
            res@.next_id == 1,
            res@.ghost_weight == DEFAULT_GHOST_WEIGHT,
            res@.decay_rate == DEFAULT_DECAY_RATE,
            res@.forget_threshold == DEFAULT_FORGET_THRESHOLD,
            res@.current_period == 0,
            res@.total_harvested == 0,
            res@.total_resurrections == 0,
    {
        let res = Afterlife {
            ghost_tiles: Vec::new(),
            tombstones: Vec::new(),
            next_id: 1,
            ghost_weight: DEFAULT_GHOST_WEIGHT,
            decay_rate: DEFAULT_DECAY_RATE,
            forget_threshold: DEFAULT_FORGET_THRESHOLD,
            current_period: 0,
            total_harvested: 0,
            total_resurrections: 0,
        };
        assert(res@.tiles =~= Seq::<GhostTileView>::empty());
        assert(res@.tombstones =~= Seq::<TombstoneView>::empty());
        res
    }

    /// An empty afterlife as [`Afterlife::new`] makes, with the given ghost
    /// weight, decay rate and forget threshold.
    pub fn with_config(ghost_weight: i64, decay_rate: i64, forget_threshold: i64) -> (res: Self)
        ensures
            res.wf(),
            res@.tiles == Seq::<GhostTileView>::empty(),
            res@.tombstones == Seq::<TombstoneView>::empty(),
            res@.next_id == 1,
            res@.ghost_weight == ghost_weight,
            res@.decay_rate == decay_rate,
            res@.forget_threshold == forget_threshold,
            res@.current_period == 0,
            res@.total_harvested == 0,
            res@.total_resurrections == 0,
    {
        let mut a = Self::new();
        a.ghost_weight = ghost_weight;
        a.decay_rate = decay_rate;
        a.forget_threshold = forget_threshold;
        a
    }

    /// Records `t` as the tombstone of its vessel, replacing an earlier one.
    fn put_tombstone(&mut self, t: &Tombstone)
        requires
            old(self).wf(),
        ensures
            final(self).wf(),
            final(self)@ == (AfterlifeView {
                tombstones: upsert_tombstone(old(self)@.tombstones, t@),
                ..old(self)@
            }),
    {
        let ghost pre = self@;
        let mut i: usize = 0;
        while i < self.tombstones.len()
            invariant
                self@ == pre,
                pre == old(self)@,
                pre.wf(),
                i <= self.tombstones.len(),
                forall|k: int| 0 <= k < i ==> #[trigger] pre.tombstones[k].vessel_id != t.vessel_id,
            decreases self.tombstones.len() - i,
        {
            if self.tombstones[i].vessel_id == t.vessel_id {
                assert(pre.tombstones[i as int].vessel_id == t.vessel_id);
                proof {
                    assert(exists|k: int|
                        0 <= k < pre.tombstones.len() && #[trigger] pre.tombstones[k].vessel_id
                            == t.vessel_id);
                    let c = choose|k: int|
                        0 <= k < pre.tombstones.len() && #[trigger] pre.tombstones[k].vessel_id
                            == t.vessel_id;
                    if c > i as int {
                        assert(pre.tombstones[i as int].vessel_id != pre.tombstones[c].vessel_id);
                    }
                    assert(c == i as int);
                }
                self.tombstones.set(i, t.clone());
                assert(self@.tombstones =~= pre.tombstones.update(i as int, t@));
                assert(upsert_tombstone(pre.tombstones, t@) == pre.tombstones.update(i as int, t@));
                assert(self@ == (AfterlifeView {
                    tombstones: upsert_tombstone(pre.tombstones, t@),
                    ..pre
                }));
                assert(self@.wf());
                return;
            }
            i = i + 1;
        }
        self.tombstones.push(t.clone());
        assert(self@.tombstones =~= pre.tombstones.push(t@));
    }

    /// Buries a vessel: records its tombstone (replacing an earlier one for
    /// the same vessel) and turns each lesson into a ghost tile with the
    /// configured ghost weight and tags naming the vessel and its role.
    /// Returns the new tiles' ids, which count up from the next free id.
    pub fn harvest(&mut self, tombstone: &Tombstone, lessons: &[String]) -> (ids: Vec<u64>)
        requires
            old(self).wf(),
            old(self)@.total_harvested + lessons@.len() <= u32::MAX,
        ensures
            final(self).wf(),
            ids@ == Seq::new(lessons@.len(), |k: int| (old(self)@.next_id + k) as u64),
            final(self)@ == after_harvest(
                old(self)@,
                tombstone@,
                lessons@.map_values(|l: String| l@),
            ),
    {
        self.put_tombstone(tombstone);
        let ghost pre = self@;
        let ghost texts = lessons@.map_values(|l: String| l@);
        let mut ids: Vec<u64> = Vec::new();
        let mut k: usize = 0;
        while k < lessons.len()
            invariant
                pre.wf(),
                self.wf(),
                pre.total_harvested + lessons@.len() <= u32::MAX,
                texts == lessons@.map_values(|l: String| l@),
                k <= lessons@.len(),
                ids@ == Seq::new(k as nat, |j: int| (pre.next_id + j) as u64),
                self@ == (AfterlifeView {
                    tiles: pre.tiles + harvested_tiles(
                        tombstone@,
                        texts.take(k as int),
                        pre.next_id,
                        pre.current_period,
                        pre.ghost_weight,
                    ),
                    next_id: (pre.next_id + k) as u64,
                    total_harvested: (pre.total_harvested + k) as u32,
                    ..pre
                }),
            decreases lessons.len() - k,
        {
            let ghost before = self@;
            let id = self.next_id;
            let mut tile = GhostTile::new(
                id,
                lessons[k].as_str(),
                tombstone.vessel_id,
                tombstone.name.as_str(),
                self.current_period,
            );
            tile.weight = self.ghost_weight;
            assert(tile.tags@.len() == 0) by {
                assert(tile@.tags.len() == 0);
            }
            let from = prefixed("from:", tombstone.name.as_str());
            let role = prefixed("role:", tombstone.role.as_str());
            let ghost from_v = from@;
            let ghost role_v = role@;
            tile.tags.push(from);
            tile.tags.push(role);
            assert(tile.tags@.len() == 2);
            assert(tile.tags@[0]@ == from_v);
            assert(tile.tags@[1]@ == role_v);
            let ghost made = harvested_tile(
                tombstone@,
                texts[k as int],
                id,
                pre.current_period,
                pre.ghost_weight,
            );
            assert(tile@.tags =~= made.tags);
            assert(tile@ == made);
            self.ghost_tiles.push(tile);
            self.next_id = self.next_id + 1;
            self.total_harvested = self.total_harvested + 1;
            ids.push(id);
            assert(self@.tiles =~= before.tiles.push(made));
            assert(harvested_tiles(
                tombstone@,
                texts.take(k + 1),
                pre.next_id,
                pre.current_period,
                pre.ghost_weight,
            ) =~= harvested_tiles(
                tombstone@,
                texts.take(k as int),
                pre.next_id,
                pre.current_period,
                pre.ghost_weight,
            ).push(made));
            assert(ids@ =~= Seq::new((k + 1) as nat, |j: int| (pre.next_id + j) as u64));
            k = k + 1;
        }
        assert(texts.take(k as int) =~= texts);
        ids
    }

    /// Adds a single ghost tile with the configured ghost weight and no
    /// tags. Returns its id, the next free one.
    pub fn add_ghost(&mut self, content: &str, source_vessel: u32, source_name: &str) -> (id: u64)
        requires
            old(self).wf(),
            old(self)@.total_harvested < u32::MAX,
        ensures
            final(self).wf(),
            id == old(self)@.next_id,
            final(self)@ == after_add_ghost(old(self)@, content@, source_vessel, source_name@),
    {
        let ghost pre = self@;
        let id = self.next_id;
        let mut tile = GhostTile::new(id, content, source_vessel, source_name, self.current_period);
        tile.weight = self.ghost_weight;
        let ghost made = tile@;
        self.ghost_tiles.push(tile);
        self.next_id = self.next_id + 1;
        self.total_harvested = self.total_harvested + 1;
        assert(self@.tiles =~= pre.tiles.push(made));
        proof {
            lemma_after_add_ghost_wf(pre, content@, source_vessel, source_name@);
        }
        id
    }

    /// Advances one period and applies decay to every tile that is not
    /// forgotten. Returns how many tiles decayed and how many of them
    /// became forgotten.
    #[verifier::rlimit(40)]
    pub fn tick(&mut self) -> (res: (u32, u32))
        requires
            old(self).wf(),
            old(self)@.current_period < u32::MAX,
        ensures
            final(self).wf(),
            res.0 == active_tiles(old(self)@.tiles).len(),
            res.1 == newly_forgotten(
                old(self)@.tiles,
                (old(self)@.current_period + 1) as u32,
                old(self)@.decay_rate,
                old(self)@.forget_threshold,
            ),
            final(self)@ == after_tick(old(self)@),
    {
        let ghost pre = self@;
        proof {
            lemma_tile_count_bound(pre);
        }
        self.current_period = self.current_period + 1;
        let period = self.current_period;
        let rate = self.decay_rate;
        let thr = self.forget_threshold;
        let mut decayed: u32 = 0;
        let mut forgotten: u32 = 0;
        let mut i: usize = 0;
        while i < self.ghost_tiles.len()
            invariant
                pre.wf(),
                pre.tiles.len() <= pre.total_harvested,
                period == pre.current_period + 1,
                rate == pre.decay_rate,
                thr == pre.forget_threshold,
                i <= self.ghost_tiles.len(),
                self.ghost_tiles@.len() == pre.tiles.len(),
                forall|j: int|
                    0 <= j < i ==> #[trigger] self@.tiles[j] == ticked_tile(
                        pre.tiles[j],
                        period,
                        rate,
                        thr,
                    ),
                forall|j: int| i <= j < pre.tiles.len() ==> #[trigger] self@.tiles[j] == pre.tiles[j],
                self@.tombstones == pre.tombstones,
                self.next_id == pre.next_id,
                self.ghost_weight == pre.ghost_weight,
                self.decay_rate == pre.decay_rate,
                self.forget_threshold == pre.forget_threshold,
                self.current_period == period,
                self.total_harvested == pre.total_harvested,
                self.total_resurrections == pre.total_resurrections,
                decayed == active_tiles(pre.tiles.take(i as int)).len(),
                forgotten == newly_forgotten(pre.tiles.take(i as int), period, rate, thr),
                decayed <= i,
                forgotten <= decayed,
            decreases self.ghost_tiles.len() - i,
        {
            assert(pre.tiles.take(i + 1).drop_last() =~= pre.tiles.take(i as int));
            assert(pre.tiles.take(i + 1).last() == pre.tiles[i as int]);
            proof {
                lemma_active_len(pre.tiles.take(i as int));
            }
            let ghost mid = self@;
            assert(mid.tiles[i as int] == self.ghost_tiles@[i as int]@);
            assert(mid.tiles[i as int] == pre.tiles[i as int]);
            if !self.ghost_tiles[i].forgotten {
                self.ghost_tiles[i].decay_below(period, rate, thr);
                decayed = decayed + 1;
                if self.ghost_tiles[i].forgotten {
                    forgotten = forgotten + 1;
                }
            }
            assert(self.ghost_tiles@[i as int]@ == ticked_tile(pre.tiles[i as int], period, rate, thr));
            assert(self@.tiles =~= mid.tiles.update(
                i as int,
                ticked_tile(pre.tiles[i as int], period, rate, thr),
            ));
            i = i + 1;
        }
        assert(pre.tiles.take(i as int) =~= pre.tiles);
        assert(self@.tiles =~= pre.tiles.map_values(
            |t: GhostTileView| ticked_tile(t, period, rate, thr),
        ));
        assert(self@ == after_tick(pre));
        proof {
            lemma_after_tick_wf(pre);
        }
        (decayed, forgotten)
    }

    /// Removes every forgotten tile, keeping the order of the rest. Returns
    /// how many were removed, as a `u32`.
    pub fn prune_forgotten(&mut self) -> (res: u32)
        requires
            old(self).wf(),
        ensures
            final(self).wf(),
            res == (old(self)@.tiles.len() - active_tiles(old(self)@.tiles).len()) as u32,
            final(self)@ == after_prune(old(self)@),
    {
        let ghost pre = self@;
        let mut rest: Vec<GhostTile> = Vec::new();
        std::mem::swap(&mut rest, &mut self.ghost_tiles);
        let before: usize = rest.len();
        let ghost src = rest@;
        assert(src.map_values(|t: GhostTile| t@) == pre.tiles);
        assert(pre.tiles.take(0) =~= Seq::<GhostTileView>::empty());
        assert(self@.tiles =~= Seq::<GhostTileView>::empty());
        for t in it: rest
            invariant
                pre.wf(),
                src.map_values(|t: GhostTile| t@) == pre.tiles,
                it.seq() == src,
                self@ == (AfterlifeView {
                    tiles: active_tiles(pre.tiles.take(it.index() as int)),
                    ..pre
                }),
        {
            let ghost idx = it.index();
            assert(t == src[idx as int]);
            assert(t@ == pre.tiles[idx as int]);
            assert(pre.tiles.take(idx + 1).drop_last() =~= pre.tiles.take(idx as int));
            let ghost mid = self@;
            if !t.forgotten {
                self.ghost_tiles.push(t);
            }
            assert(self@.tiles =~= active_tiles(pre.tiles.take(idx + 1)));
        }
        assert(pre.tiles.take(before as int) =~= pre.tiles);
        proof {
            lemma_active_len(pre.tiles);
            lemma_active_sorted(pre.tiles, pre.next_id);
            lemma_active_members(pre.tiles);
        }
        let after: usize = self.ghost_tiles.len();
        (before - after) as u32
    }

    /// Queries the ghost tiles for relevance to a living agent's situation.
    /// Reports every tile whose relevance reaches `min_relevance` (a
    /// forgotten tile counts at half its relevance), highest relevance
    /// first and older tiles first among equals, each as it was before the
    /// query; then boosts every reported tile and counts the forgotten ones
    /// among them as resurrections.
    pub fn query(&mut self, query: &str, min_relevance: u64) -> (res: Vec<GhostMatch>)
        requires
            old(self).wf(),
            query_fits(old(self)@, query@, min_relevance),
        ensures
            final(self).wf(),
            query_result(
                old(self)@.tiles,
                query@,
                min_relevance,
                res@.map_values(|m: GhostMatch| m@),
            ),
            final(self)@ == after_query(old(self)@, query@, min_relevance),
    {
        let ghost pre = self@;
        let ghost q = query@;
        let min = min_relevance;
        let query_lower = to_lowercase(query);
        let words = split_words(query_lower.as_str());
        let period = self.current_period;
        let thr = self.forget_threshold;
        let mut matches: Vec<GhostMatch> = Vec::new();
        let mut i: usize = 0;
        assert(pre.tiles.take(0) =~= Seq::<GhostTileView>::empty());
        assert(matches@.map_values(|m: GhostMatch| m@) =~= Seq::<GhostMatchView>::empty());
        assert(reported_among(pre.tiles, q, min, 0, Seq::<GhostMatchView>::empty())) by {
            reveal(reports_only);
            reveal(reports_all);
        }
        while i < self.ghost_tiles.len()
            invariant
                pre == old(self)@,
                q == query@,
                min == min_relevance,
                pre.wf(),
                query_fits(pre, q, min),
                query_lower@ == lowercase(q),
                words@.map_values(|w: &str| w@) == whitespace_words(query_lower@),
                period == pre.current_period,
                thr == pre.forget_threshold,
                i <= self.ghost_tiles.len(),
                self.ghost_tiles@.len() == pre.tiles.len(),
                forall|j: int|
                    0 <= j < i ==> #[trigger] self@.tiles[j] == queried_tile(
                        pre.tiles[j],
                        q,
                        min,
                        period,
                        thr,
                    ),
                forall|j: int| i <= j < pre.tiles.len() ==> #[trigger] self@.tiles[j] == pre.tiles[j],
                self@.tombstones == pre.tombstones,
                self.next_id == pre.next_id,
                self.ghost_weight == pre.ghost_weight,
                self.decay_rate == pre.decay_rate,
                self.forget_threshold == pre.forget_threshold,
                self.current_period == pre.current_period,
                self.total_harvested == pre.total_harvested,
                self.total_resurrections == pre.total_resurrections + resurrected(
                    pre.tiles.take(i as int),
                    q,
                    min,
                    thr,
                ),
                reported_among(pre.tiles, q, min, i as int, matches@.map_values(|m: GhostMatch| m@)),
            decreases self.ghost_tiles.len() - i,
        {
            let ghost mid = self@;
            let ghost t = pre.tiles[i as int];
            assert(mid.tiles[i as int] == self.ghost_tiles@[i as int]@);
            assert(pre.tiles.take(i + 1).drop_last() =~= pre.tiles.take(i as int));
            assert(pre.tiles.take(i + 1).last() == t);
            proof {
                lemma_resurrected_prefix(pre.tiles, q, min, thr, i + 1);
            }
            let rel = tile_relevance(
                self.ghost_tiles[i].content.as_str(),
                &self.ghost_tiles[i].tags,
                query,
                query_lower.as_str(),
                &words,
            );
            let forgotten = self.ghost_tiles[i].forgotten;
            let pass = if forgotten {
                (rel as u128) >= 2 * (min as u128)
            } else {
                rel >= min
            };
            assert(pass == (match_score(t, q, min) is Some));
            if pass {
                assert(match_score(t, q, min) == Some(rel));
                let snapshot = self.ghost_tiles[i].clone();
                insert_match(
                    &mut matches,
                    GhostMatch { tile: snapshot, relevance: rel },
                    Ghost(pre.tiles),
                    Ghost(q),
                    min,
                    Ghost(i as int),
                );
                self.ghost_tiles[i].boost_above(rel, period, thr);
                if forgotten && !self.ghost_tiles[i].forgotten {
                    self.total_resurrections = self.total_resurrections + 1;
                }
            } else {
                proof {
                    lemma_reported_skip(
                        pre.tiles,
                        q,
                        min,
                        i as int,
                        matches@.map_values(|m: GhostMatch| m@),
                    );
                }
            }
            assert(self.ghost_tiles@[i as int]@ == queried_tile(t, q, min, period, thr));
            assert(self@.tiles =~= mid.tiles.update(i as int, queried_tile(t, q, min, period, thr)));
            i = i + 1;
        }
        assert(pre.tiles.take(i as int) =~= pre.tiles);
        assert(self@.tiles =~= pre.tiles.map_values(
            |t: GhostTileView| queried_tile(t, q, min, period, thr),
        ));
        assert(self@ == after_query(pre, q, min));
        proof {
            lemma_after_query_wf(pre, q, min);
        }
        matches
    }

    /// Runs [`Afterlife::query`] when it fits (see [`query_fits`]);
    /// otherwise leaves the afterlife unchanged and returns `None`.
    pub fn try_query(&mut self, query: &str, min_relevance: u64) -> (res: Option<Vec<GhostMatch>>)
        requires
            old(self).wf(),
        ensures
            final(self).wf(),
            res is Some <==> query_fits(old(self)@, query@, min_relevance),
            res is None ==> final(self)@ == old(self)@,
            res matches Some(ms) ==> query_result(
                old(self)@.tiles,
                query@,
                min_relevance,
                ms@.map_values(|m: GhostMatch| m@),
            ) && final(self)@ == after_query(old(self)@, query@, min_relevance),
    {
        if self.query_would_fit(query, min_relevance) {
            Some(self.query(query, min_relevance))
        } else {
            None
        }
    }

    /// Whether [`Afterlife::query`] can run with these arguments.
    fn query_would_fit(&self, query: &str, min_relevance: u64) -> (res: bool)
        requires
            self.wf(),
        ensures
            res == query_fits(self@, query@, min_relevance),
    {
        let ghost q = query@;
        let min = min_relevance;
        let query_lower = to_lowercase(query);
        let words = split_words(query_lower.as_str());
        let mut count: u64 = 0;
        let mut i: usize = 0;
        proof {
            lemma_tile_count_bound(self@);
        }
        assert(self@.tiles.take(0) =~= Seq::<GhostTileView>::empty());
        while i < self.ghost_tiles.len()
            invariant
                self.wf(),
                self@.tiles.len() <= u32::MAX,
                q == query@,
                min == min_relevance,
                query_lower@ == lowercase(q),
                words@.map_values(|w: &str| w@) == whitespace_words(query_lower@),
                i <= self.ghost_tiles.len(),
                count == resurrected(self@.tiles.take(i as int), q, min, self@.forget_threshold),
                count <= i,
                forall|j: int|
                    0 <= j < i && #[trigger] match_score(self@.tiles[j], q, min) is Some
                        ==> self@.tiles[j].access_count < u32::MAX,
            decreases self.ghost_tiles.len() - i,
        {
            let ghost t = self@.tiles[i as int];
            assert(t == self.ghost_tiles@[i as int]@);
            assert(self@.tiles.take(i + 1).drop_last() =~= self@.tiles.take(i as int));
            assert(self@.tiles.take(i + 1).last() == t);
            let rel = tile_relevance(
                self.ghost_tiles[i].content.as_str(),
                &self.ghost_tiles[i].tags,
                query,
                query_lower.as_str(),
                &words,
            );
            let forgotten = self.ghost_tiles[i].forgotten;
            let pass = if forgotten {
                (rel as u128) >= 2 * (min as u128)
            } else {
                rel >= min
            };
            assert(pass == (match_score(t, q, min) is Some));
            if pass {
                if self.ghost_tiles[i].access_count == u32::MAX {
                    return false;
                }
                if forgotten && boost_weight(self.ghost_tiles[i].weight, rel) >= self.forget_threshold {
                    count = count + 1;
                }
            }
            i = i + 1;
        }
        assert(self@.tiles.take(i as int) =~= self@.tiles);
        (self.total_resurrections as u64) + count <= (u32::MAX as u64)
    }

    /// The `n` most accessed tiles that are not forgotten, most accessed
    /// first and older tiles first among equals.
    pub fn most_accessed(&self, n: usize) -> (res: Vec<&GhostTile>)
        requires
            self.wf(),
        ensures
            exists|all: Seq<GhostTileView>|
                #![trigger access_ranking(self@.tiles, self@.tiles.len() as int, all)]
                access_ranking(self@.tiles, self@.tiles.len() as int, all) && res@.map_values(
                    |t: &GhostTile| t@,
                ) == all.take(if n <= all.len() { n as int } else { all.len() as int }),
            res@.len() <= n,
            forall|k: int| 0 <= k < res@.len() ==> !(#[trigger] res@[k]).forgotten,
    {
        let ghost tiles = self@.tiles;
        let mut order: Vec<&GhostTile> = Vec::new();
        let mut i: usize = 0;
        assert(order@.map_values(|t: &GhostTile| t@) =~= Seq::<GhostTileView>::empty());
        assert(access_ranking(tiles, 0, Seq::<GhostTileView>::empty())) by {
            reveal(lists_only_active);
            reveal(lists_all_active);
        }
        while i < self.ghost_tiles.len()
            invariant
                self.wf(),
                tiles == self@.tiles,
                i <= self.ghost_tiles.len(),
                access_ranking(tiles, i as int, order@.map_values(|t: &GhostTile| t@)),
            decreases self.ghost_tiles.len() - i,
        {
            let ghost ov = order@.map_values(|t: &GhostTile| t@);
            assert(tiles[i as int] == self.ghost_tiles@[i as int]@);
            let tile: &GhostTile = &self.ghost_tiles[i];
            if !tile.forgotten {
                let count = tile.access_count;
                let mut pos: usize = 0;
                while pos < order.len() && order[pos].access_count >= count
                    invariant
                        pos <= order@.len(),
                        ov == order@.map_values(|t: &GhostTile| t@),
                        forall|k: int| 0 <= k < pos ==> (#[trigger] ov[k]).access_count >= count,
                    decreases order.len() - pos,
                {
                    assert(ov[pos as int] == order@[pos as int]@);
                    pos = pos + 1;
                }
                if pos < order.len() {
                    assert(ov[pos as int] == order@[pos as int]@);
                }
                proof {
                    lemma_access_insert(tiles, i as int, ov, pos as int);
                }
                order.insert(pos, tile);
                assert(order@.map_values(|t: &GhostTile| t@) =~= ov.insert(pos as int, tiles[i as int]));
            } else {
                proof {
                    lemma_access_skip(tiles, i as int, ov);
                }
            }
            i = i + 1;
        }
        let ghost all = order@.map_values(|t: &GhostTile| t@);
        assert(access_ranking(self@.tiles, self@.tiles.len() as int, all));
        order.truncate(n);
        assert(order@.map_values(|t: &GhostTile| t@) =~= all.take(
            if n <= all.len() {
                n as int
            } else {
                all.len() as int
            },
        ));
        proof {
            let m = if n <= all.len() {
                n as int
            } else {
                all.len() as int
            };
            crate::laws::law_most_accessed_only_active(self@.tiles, all, m);
            assert forall|k: int| 0 <= k < order@.len() implies !(#[trigger] order@[k]).forgotten by {
                assert(order@[k]@ == order@.map_values(|t: &GhostTile| t@)[k]);
            }
        }
        order
    }

    /// The mean weight of the tiles that are not forgotten, rounded down;
    /// zero when there are none.
    pub fn average_weight(&self) -> (res: i64)
        ensures
            res == mean_active_weight(self@.tiles),
    {
        let ghost tiles = self@.tiles;
        let mut sum: i128 = 0;
        let mut count: u64 = 0;
        let mut i: usize = 0;
        assert(tiles.take(0) =~= Seq::<GhostTileView>::empty());
        while i < self.ghost_tiles.len()
            invariant
                tiles == self@.tiles,
                i <= self.ghost_tiles.len(),
                count == active_tiles(tiles.take(i as int)).len(),
                sum == weight_sum(active_tiles(tiles.take(i as int))),
                count <= i,
                count * (i64::MIN as int) <= sum <= count * (i64::MAX as int),
            decreases self.ghost_tiles.len() - i,
        {
            let ghost a = active_tiles(tiles.take(i as int));
            assert(tiles.take(i + 1).drop_last() =~= tiles.take(i as int));
            assert(tiles.take(i + 1).last() == tiles[i as int]);
            assert(tiles[i as int] == self.ghost_tiles@[i as int]@);
            if !self.ghost_tiles[i].forgotten {
                let w = self.ghost_tiles[i].weight;
                assert(a.push(tiles[i as int]).drop_last() =~= a);
                assert((count + 1) * (i64::MAX as int) == count * (i64::MAX as int) + i64::MAX
                    && (count + 1) * (i64::MIN as int) == count * (i64::MIN as int) + i64::MIN)
                    by (nonlinear_arith);
                assert(count * (i64::MAX as int) < 0x7fff_ffff_ffff_ffff_0000_0000_0000_0000
                    && count * (i64::MIN as int) > -0x8000_0000_0000_0000_0000_0000_0000_0000)
                    by (nonlinear_arith)
                    requires
                        count < u64::MAX,
                ;
                sum = sum + (w as i128);
                count = count + 1;
            }
            i = i + 1;
        }
        assert(tiles.take(i as int) =~= tiles);
        if count == 0 {
            return 0;
        }
        assert(count * (i64::MAX as int) <= 0x7fff_ffff_ffff_ffff_0000_0000_0000_0000
            && count * (i64::MIN as int) >= -0x7fff_ffff_ffff_ffff_8000_0000_0000_0000)
            by (nonlinear_arith)
            requires
                count <= u64::MAX,
        ;
        let mean: i128 = floor_div(sum, count as u128);
        assert(i64::MIN <= mean <= i64::MAX) by (nonlinear_arith)
            requires
                mean == (sum as int) / (count as int),
                count > 0,
                count * (i64::MIN as int) <= sum <= count * (i64::MAX as int),
        ;
        mean as i64
    }

    /// The tile with id `id`, if there is one.
    pub fn get(&self, id: u64) -> (res: Option<&GhostTile>)
        requires
            self.wf(),
        ensures
            match res {
                Some(t) => find_tile(self@.tiles, id) == Some(t@),
                None => find_tile(self@.tiles, id) is None,
            },
    {
        let mut i: usize = 0;
        while i < self.ghost_tiles.len()
            invariant
                self.wf(),
                i <= self.ghost_tiles.len(),
                forall|k: int| 0 <= k < i ==> #[trigger] self@.tiles[k].id != id,
            decreases self.ghost_tiles.len() - i,
        {
            if self.ghost_tiles[i].id == id {
                assert(self@.tiles[i as int].id == id);
                proof {
                    assert(exists|k: int| 0 <= k < self@.tiles.len() && #[trigger] self@.tiles[k].id == id);
                    let c = choose|k: int| 0 <= k < self@.tiles.len() && #[trigger] self@.tiles[k].id == id;
                    if c != i as int {
                        if c < i {
                            assert(self@.tiles[c].id < self@.tiles[i as int].id);
                        } else {
                            assert(self@.tiles[i as int].id < self@.tiles[c].id);
                        }
                    }
                }
                return Some(&self.ghost_tiles[i]);
            }
            i = i + 1;
        }
        None
    }

    /// The tombstone of vessel `vessel_id`, if there is one.
    pub fn tombstone(&self, vessel_id: u32) -> (res: Option<&Tombstone>)
        requires
            self.wf(),
        ensures
            match res {
                Some(t) => find_tombstone(self@.tombstones, vessel_id) == Some(t@),
                None => find_tombstone(self@.tombstones, vessel_id) is None,
            },
    {
        let mut i: usize = 0;
        while i < self.tombstones.len()
            invariant
                self.wf(),
                i <= self.tombstones.len(),
                forall|k: int| 0 <= k < i ==> #[trigger] self@.tombstones[k].vessel_id != vessel_id,
            decreases self.tombstones.len() - i,
        {
            if self.tombstones[i].vessel_id == vessel_id {
                assert(self@.tombstones[i as int].vessel_id == vessel_id);
                proof {
                    assert(exists|k: int|
                        0 <= k < self@.tombstones.len() && #[trigger] self@.tombstones[k].vessel_id
                            == vessel_id);
                    let c = choose|k: int|
                        0 <= k < self@.tombstones.len() && #[trigger] self@.tombstones[k].vessel_id
                            == vessel_id;
                    if c != i as int {
                        if c < i {
                            assert(self@.tombstones[c].vessel_id != self@.tombstones[i as int].vessel_id);
                        } else {
                            assert(self@.tombstones[i as int].vessel_id != self@.tombstones[c].vessel_id);
                        }
                    }
                }
                return Some(&self.tombstones[i]);
            }
            i = i + 1;
        }
        None
    }

    /// The number of ghost tiles, forgotten ones included.
    pub fn ghost_count(&self) -> (res: usize)
        ensures
            res == self@.tiles.len(),
    {
        self.ghost_tiles.len()
    }

    /// The number of ghost tiles that are not forgotten.
    pub fn active_ghost_count(&self) -> (res: usize)
        ensures
            res == active_tiles(self@.tiles).len(),
    {
        let mut n: usize = 0;
        let mut i: usize = 0;
        while i < self.ghost_tiles.len()
            invariant
                i <= self.ghost_tiles.len(),
                n == active_tiles(self@.tiles.take(i as int)).len(),
            decreases self.ghost_tiles.len() - i,
        {
            assert(self@.tiles.take(i + 1).drop_last() =~= self@.tiles.take(i as int));
            proof {
                lemma_active_len(self@.tiles.take(i as int));
            }
            if !self.ghost_tiles[i].forgotten {
                n = n + 1;
            }
            i = i + 1;
        }
        assert(self@.tiles.take(i as int) =~= self@.tiles);
        n
    }

    /// The number of ghost tiles that are strongly present.
    pub fn strong_ghost_count(&self) -> (res: usize)
        ensures
            res == strong_count(self@.tiles),
    {
        let mut n: usize = 0;
        let mut i: usize = 0;
        while i < self.ghost_tiles.len()
            invariant
                i <= self.ghost_tiles.len(),
                n == strong_count(self@.tiles.take(i as int)),
                n <= i,
            decreases self.ghost_tiles.len() - i,
        {
            assert(self@.tiles.take(i + 1).drop_last() =~= self@.tiles.take(i as int));
            if self.ghost_tiles[i].is_strong() {
                n = n + 1;
            }
            i = i + 1;
        }
        assert(self@.tiles.take(i as int) =~= self@.tiles);
        n
    }

    /// The number of tombstones.
    pub fn tombstone_count(&self) -> (res: usize)
        ensures
            res == self@.tombstones.len(),
    {
        self.tombstones.len()
    }

    /// How many tiles were ever created.
    pub fn total_harvested(&self) -> (res: u32)
        ensures
            res == self@.total_harvested,
    {
        self.total_harvested
    }

    /// How many forgotten tiles queries brought back.
    pub fn total_resurrections(&self) -> (res: u32)
        ensures
            res == self@.total_resurrections,
    {
        self.total_resurrections
    }

    /// The current period.
    pub fn current_period(&self) -> (res: u32)
        ensures
            res == self@.current_period,
    {
        self.current_period
    }

    /// The initial weight of new ghost tiles.
    pub fn ghost_weight(&self) -> (res: i64)
        ensures
            res == self@.ghost_weight,
    {
        self.ghost_weight
    }

    /// The share of weight a tile loses per period.
    pub fn decay_rate(&self) -> (res: i64)
        ensures
            res == self@.decay_rate,
    {
        self.decay_rate
    }

    /// The configured forget threshold.
    pub fn forget_threshold(&self) -> (res: i64)
        ensures
            res == self@.forget_threshold,
    {
        self.forget_threshold
    }
}

impl Default for Afterlife {
    fn default() -> (res: Self)
        ensures
            res.wf(),
            res@.tiles == Seq::<GhostTileView>::empty(),
            res@.tombstones == Seq::<TombstoneView>::empty(),
            res@.next_id == 1,
            res@.ghost_weight == DEFAULT_GHOST_WEIGHT,
            res@.decay_rate == DEFAULT_DECAY_RATE,
            res@.forget_threshold == DEFAULT_FORGET_THRESHOLD,
            res@.current_period == 0,
            res@.total_harvested == 0,
            res@.total_resurrections == 0,
    {
        Self::new()
    }
}

} // verus!
