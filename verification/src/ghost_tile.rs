//! Ghost tiles: knowledge left by a dead vessel, and query matches of them.
use vstd::prelude::*;
use crate::fraction::{
    boost_weight, boosted_weight, decay_weight, decayed_weight, DEFAULT_FORGET_THRESHOLD,
    DEFAULT_GHOST_WEIGHT, STRONG_ABOVE,
};

verus! {

/// A knowledge tile from a dead vessel: present in pattern, absent from
/// active computation.
///
/// `weight` is a fraction of one in parts per billion.
#[derive(Debug)]
pub struct GhostTile {
    pub id: u64,
    pub content: String,
    pub source_vessel: u32,
    pub source_name: String,
    pub weight: i64,
    /// How many times living agents' queries matched this tile.
    pub access_count: u32,
    pub last_access_period: u32,
    pub created_period: u32,
    pub tags: Vec<String>,
    /// Set when decay takes the weight below the forget threshold.
    pub forgotten: bool,
}

/// The value of a [`GhostTile`], its strings taken as characters.
pub struct GhostTileView {
    pub id: u64,
    pub content: Seq<char>,
    pub source_vessel: u32,
    pub source_name: Seq<char>,
    pub weight: i64,
    pub access_count: u32,
    pub last_access_period: u32,
    pub created_period: u32,
    pub tags: Seq<Seq<char>>,
    pub forgotten: bool,
}

impl View for GhostTile {
    type V = GhostTileView;

    open spec fn view(&self) -> GhostTileView {
        GhostTileView {
            id: self.id,
            content: self.content@,
            source_vessel: self.source_vessel,
            source_name: self.source_name@,
            weight: self.weight,
            access_count: self.access_count,
            last_access_period: self.last_access_period,
            created_period: self.created_period,
            tags: self.tags@.map_values(|t: String| t@),
            forgotten: self.forgotten,
        }
    }
}

/// A fresh tile: the given identity and text, weight 0.1, never accessed,
/// created and last accessed in `period`, no tags, not forgotten.
pub open spec fn fresh_tile(
    id: u64,
    content: Seq<char>,
    source_vessel: u32,
    source_name: Seq<char>,
    period: u32,
) -> GhostTileView {
    GhostTileView {
        id,
        content,
        source_vessel,
        source_name,
        weight: DEFAULT_GHOST_WEIGHT,
        access_count: 0,
        last_access_period: period,
        created_period: period,
        tags: Seq::empty(),
        forgotten: false,
    }
}

/// Strongly present: weight above one half and not forgotten.
pub open spec fn strong(t: GhostTileView) -> bool {
    t.weight > STRONG_ABOVE && !t.forgotten
}

/// The tile after decay in `period` at `rate` with forget threshold
/// `threshold`: a tile not accessed since an earlier period loses that share
/// of its weight and is forgotten once its weight is below the threshold;
/// otherwise it is unchanged.
pub open spec fn decayed_tile(t: GhostTileView, period: u32, rate: i64, threshold: i64) -> GhostTileView {
    if period > t.last_access_period {
        let w = decayed_weight(t.weight, rate) as i64;
        GhostTileView { weight: w, forgotten: t.forgotten || w < threshold, ..t }
    } else {
        t
    }
}

/// The tile after a query of relevance `rel` in `period` matched it, with
/// forget threshold `threshold`: its weight is boosted, its access counted,
/// its last access set to `period`, and it is no longer forgotten once its
/// weight is at least the threshold.
pub open spec fn boosted_tile(t: GhostTileView, rel: u64, period: u32, threshold: i64) -> GhostTileView {
    let w = boosted_weight(t.weight, rel) as i64;
    GhostTileView {
        weight: w,
        access_count: (t.access_count + 1) as u32,
        last_access_period: period,
        forgotten: if w >= threshold {
            false
        } else {
            t.forgotten
        },
        ..t
    }
}

/// Copies a list of strings, string by string.
fn copy_strings(v: &Vec<String>) -> (res: Vec<String>)
    ensures
        res@.map_values(|t: String| t@) == v@.map_values(|t: String| t@),
{
    let mut res: Vec<String> = Vec::new();
    let mut i: usize = 0;
    while i < v.len()
        invariant
            i <= v.len(),
            res@.len() == i,
            forall|k: int| 0 <= k < i ==> #[trigger] res@[k]@ == v@[k]@,
        decreases v.len() - i,
    {
        res.push(v[i].clone());
        i = i + 1;
    }
    assert(res@.map_values(|t: String| t@) =~= v@.map_values(|t: String| t@));
    res
}

impl Clone for GhostTile {
    fn clone(&self) -> (res: Self)
        ensures
            res@ == self@,
    {
        GhostTile {
            id: self.id,
            content: self.content.clone(),
            source_vessel: self.source_vessel,
            source_name: self.source_name.clone(),
            weight: self.weight,
            access_count: self.access_count,
            last_access_period: self.last_access_period,
            created_period: self.created_period,
            tags: copy_strings(&self.tags),
            forgotten: self.forgotten,
        }
    }
}

impl GhostTile {
    /// A fresh tile with weight 0.1, created in `period`.
    pub fn new(id: u64, content: &str, source_vessel: u32, source_name: &str, period: u32) -> (res:
        Self)
        ensures
            res@ == fresh_tile(id, content@, source_vessel, source_name@, period),
    {
        let res = GhostTile {
            id,
            content: content.to_owned(),
            source_vessel,
            source_name: source_name.to_owned(),
            weight: DEFAULT_GHOST_WEIGHT,
            access_count: 0,
            last_access_period: period,
            created_period: period,
            tags: Vec::new(),
            forgotten: false,
        };
        assert(res@.tags =~= Seq::<Seq<char>>::empty());
        res
    }

    /// Whether this ghost is strongly present: weight above one half from
    /// frequent access, and not forgotten.
    pub fn is_strong(&self) -> (res: bool)
        ensures
            res == strong(self@),
    {
        self.weight > STRONG_ABOVE && !self.forgotten
    }

    /// Applies decay: the weight shrinks by `decay_rate` if the tile was not
    /// accessed in `current_period`, and the tile is forgotten once its
    /// weight is below 0.05.
    pub fn decay(&mut self, current_period: u32, decay_rate: i64)
        ensures
            final(self)@ == decayed_tile(
                old(self)@,
                current_period,
                decay_rate,
                DEFAULT_FORGET_THRESHOLD,
            ),
    {
        self.decay_below(current_period, decay_rate, DEFAULT_FORGET_THRESHOLD);
    }

    /// Applies decay as [`GhostTile::decay`] does, with `threshold` as the
    /// weight below which the tile is forgotten.
    pub fn decay_below(&mut self, current_period: u32, decay_rate: i64, threshold: i64)
        ensures
            final(self)@ == decayed_tile(old(self)@, current_period, decay_rate, threshold),
    {
        if current_period > self.last_access_period {
            self.weight = decay_weight(self.weight, decay_rate);
            if self.weight < threshold {
                self.forgotten = true;
            }
        }
    }

    /// Boosts the weight for a query of relevance `relevance` in
    /// `current_period`, counts the access, and resurrects a forgotten tile
    /// whose weight is back at 0.05 or more.
    pub fn boost(&mut self, relevance: u64, current_period: u32)
        requires
            old(self).access_count < u32::MAX,
        ensures
            final(self)@ == boosted_tile(
                old(self)@,
                relevance,
                current_period,
                DEFAULT_FORGET_THRESHOLD,
            ),
    {
        self.boost_above(relevance, current_period, DEFAULT_FORGET_THRESHOLD);
    }

    /// Boosts as [`GhostTile::boost`] does, with `threshold` as the weight
    /// from which a forgotten tile is resurrected.
    pub fn boost_above(&mut self, relevance: u64, current_period: u32, threshold: i64)
        requires
            old(self).access_count < u32::MAX,
        ensures
            final(self)@ == boosted_tile(old(self)@, relevance, current_period, threshold),
    {
        self.weight = boost_weight(self.weight, relevance);
        self.access_count = self.access_count + 1;
        self.last_access_period = current_period;
        if self.weight >= threshold {
            self.forgotten = false;
        }
    }
}

/// A query result: a copy of the matched tile as it was before the query
/// boosted it, and its relevance in parts per billion.
#[derive(Debug)]
pub struct GhostMatch {
    pub tile: GhostTile,
    pub relevance: u64,
}

/// The value of a [`GhostMatch`].
pub struct GhostMatchView {
    pub tile: GhostTileView,
    pub relevance: u64,
}

impl View for GhostMatch {
    type V = GhostMatchView;

    open spec fn view(&self) -> GhostMatchView {
        GhostMatchView { tile: self.tile@, relevance: self.relevance }
    }
}

impl Clone for GhostMatch {
    fn clone(&self) -> (res: Self)
        ensures
            res@ == self@,
    {
        GhostMatch { tile: self.tile.clone(), relevance: self.relevance }
    }
}

} // verus!
