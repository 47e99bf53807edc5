//! The land: a sparse tile grid over tile-space coordinates, owning the plot
//! arena and the partition sampler. Every present tile references a plot of
//! the arena; the arena is append-only, so tile plot references can never
//! dangle.

use std::collections::HashMap;

use vstd::prelude::*;

use crate::coord::{adjacent, key, lemma_key_injective, spec_key, spec_step, Coord};
use crate::spiral::{cheb, in_spiral_range, spiral, spiral_before};
use crate::partition::{cell_of, spec_cell_of, spec_center, tile_in_range, world_in_range, Partition};
use crate::plot::{spec_way_width, Plot, PlotId, PlotStore, Tile, Tower, WayKind};
use crate::rng::GenRng;

verus! {

broadcast use {
    vstd::seq_lib::lemma_seq_contains_after_push,
    vstd::std_specs::hash::group_hash_axioms,
};

/// The sparse settlement grid.
pub struct Land {
    tiles: HashMap<u64, Tile>,
    plots: PlotStore,
    partition: Partition,
    hazard: PlotId,
}

impl Land {
    /// The tile map, keyed by packed coordinate.
    pub closed spec fn tiles(&self) -> Map<u64, Tile> {
        self.tiles@
    }

    /// The plot arena's contents.
    pub closed spec fn plots(&self) -> Seq<Plot> {
        self.plots@
    }

    /// The partition sampler's seed.
    pub closed spec fn seed(&self) -> u64 {
        self.partition.seed()
    }

    /// The distinguished hazard plot, inserted at construction.
    pub closed spec fn hazard_id(&self) -> PlotId {
        self.hazard
    }

    /// The tile present at `c`, if any.
    pub open spec fn spec_tile_at(&self, c: Coord) -> Option<Tile> {
        if self.tiles().contains_key(spec_key(c)) {
            Some(self.tiles()[spec_key(c)])
        } else {
            None
        }
    }

    /// The plot of the tile present at `c`, if any.
    pub open spec fn spec_plot_at(&self, c: Coord) -> Option<Plot> {
        match self.spec_tile_at(c) {
            Some(t) => Some(self.plots()[t.plot.idx as int]),
            None => None,
        }
    }

    /// Well-formedness: every tile's plot reference resolves in the arena,
    /// and the arena's first entry is the distinguished hazard plot.
    pub open spec fn wf(&self) -> bool {
        &&& forall|k: u64|
            self.tiles().contains_key(k) ==> (#[trigger] self.tiles()[k]).plot.idx
                < self.plots().len()
        &&& self.hazard_id().idx == 0
        &&& self.plots().len() >= 1
        &&& self.plots()[0] == Plot::Hazard
    }

    /// A fresh land: an empty tile map, an arena holding exactly the hazard
    /// plot, and a partition sampler seeded from `rng`.
    pub fn new(rng: &mut GenRng) -> (r: Land)
        ensures
            r.wf(),
            r.tiles() == Map::<u64, Tile>::empty(),
            r.plots().len() == 1,
    {
        let seed = ((rng.next_u32() as u64) << 32u64) | (rng.next_u32() as u64);
        let mut plots = PlotStore::new();
        let hazard = plots.insert(Plot::Hazard);
        Land { tiles: HashMap::new(), plots, partition: Partition::new(seed), hazard }
    }

    /// The identifier of the distinguished hazard plot.
    pub fn hazard(&self) -> (r: PlotId)
        ensures
            r == self.hazard_id(),
    {
        self.hazard
    }

    /// How many plots the arena holds.
    pub fn plot_count(&self) -> (r: usize)
        ensures
            r == self.plots().len(),
    {
        self.plots.len()
    }

    /// The tile at `pos`, if one is present.
    pub fn tile_at(&self, pos: Coord) -> (r: Option<Tile>)
        ensures
            r == self.spec_tile_at(pos),
    {
        let k = key(pos);
        match self.tiles.get(&k) {
            Some(t) => Some(*t),
            None => None,
        }
    }

    /// Resolves a plot identifier issued by this land's arena.
    pub fn plot(&self, id: PlotId) -> (r: &Plot)
        requires
            id.idx < self.plots().len(),
        ensures
            *r == self.plots()[id.idx as int],
    {
        self.plots.get(id)
    }

    /// The plot classification at `pos`: `None` where no tile is present,
    /// which callers must treat as "undesignated", not as hazard.
    pub fn plot_at(&self, pos: Coord) -> (r: Option<Plot>)
        requires
            self.wf(),
        ensures
            r == self.spec_plot_at(pos),
    {
        match self.tile_at(pos) {
            Some(t) => Some(*self.plots.get(t.plot)),
            None => None,
        }
    }

    /// Resolves a plot identifier, answering `None` for one the arena has
    /// never issued.
    pub fn plot_checked(&self, id: PlotId) -> (r: Option<Plot>)
        ensures
            r == (if id.idx < self.plots().len() {
                Some(self.plots()[id.idx as int])
            } else {
                None
            }),
    {
        if id.idx < self.plots.len() {
            Some(*self.plots.get(id))
        } else {
            None
        }
    }

    /// Appends a plot to the arena and returns its identifier.
    pub fn new_plot(&mut self, plot: Plot) -> (id: PlotId)
        requires
            old(self).wf(),
        ensures
            final(self).wf(),
            final(self).plots() == old(self).plots().push(plot),
            id.idx == old(self).plots().len(),
            final(self).tiles() == old(self).tiles(),
            final(self).hazard_id() == old(self).hazard_id(),
            final(self).seed() == old(self).seed(),
    {
        self.plots.insert(plot)
    }

    /// Inserts or overwrites the tile at `pos` with the given plot and no
    /// way or tower markers. Overwriting is destructive: any prior way or
    /// tower state at `pos` is discarded.
    pub fn set(&mut self, pos: Coord, plot: PlotId) -> (t: Tile)
        requires
            old(self).wf(),
            plot.idx < old(self).plots().len(),
        ensures
            final(self).wf(),
            t == (Tile { plot, ways: [None, None, None, None], tower: None }),
            final(self).tiles() == old(self).tiles().insert(spec_key(pos), t),
            final(self).plots() == old(self).plots(),
            final(self).hazard_id() == old(self).hazard_id(),
            final(self).seed() == old(self).seed(),
    {
        let t = Tile { plot, ways: [None, None, None, None], tower: None };
        self.tiles.insert(key(pos), t);
        t
    }

    /// Attaches a tower marker to the tile at `pos`, if one is present,
    /// keeping its plot and way markers; where no tile exists, nothing
    /// changes.
    pub fn set_tower(&mut self, pos: Coord, tower: Tower)
        requires
            old(self).wf(),
        ensures
            final(self).wf(),
            final(self).plots() == old(self).plots(),
            final(self).hazard_id() == old(self).hazard_id(),
            final(self).seed() == old(self).seed(),
            final(self).tiles() == (if old(self).tiles().contains_key(spec_key(pos)) {
                old(self).tiles().insert(
                    spec_key(pos),
                    Tile {
                        plot: old(self).tiles()[spec_key(pos)].plot,
                        ways: old(self).tiles()[spec_key(pos)].ways,
                        tower: Some(tower),
                    },
                )
            } else {
                old(self).tiles()
            }),
    {
        let k = key(pos);
        match self.tiles.get(&k) {
            Some(t) => {
                let nt = Tile { plot: t.plot, ways: t.ways, tower: Some(tower) };
                self.tiles.insert(k, nt);
            },
            None => {},
        }
    }

    /// Writes way markers of `kind` along consecutive pairs of `path`. A
    /// pair one cardinal unit step apart marks the step's side; any other
    /// delta is silently skipped. For a marked pair, a placeholder hazard
    /// tile is created at its first coordinate if none exists. Each of the two tiles is admitted
    /// independently by `permit`, so mirrored markers are attempted, never
    /// guaranteed. With `overwrite` false, a marker already present is never
    /// replaced, and in no case is a marker ever cleared.
    pub fn write_path<F: Fn(Plot) -> bool>(
        &mut self,
        path: &Vec<Coord>,
        kind: WayKind,
        permit: &F,
        overwrite: bool,
    )
        requires
            old(self).wf(),
            forall|p: Plot| call_requires(*permit, (p,)),
        ensures
            final(self).wf(),
            final(self).plots() == old(self).plots(),
            final(self).hazard_id() == old(self).hazard_id(),
            final(self).seed() == old(self).seed(),
            way_written(
                old(self).tiles(),
                final(self).tiles(),
                kind,
                overwrite,
                old(self).hazard_id(),
            ),
            forall|w: int|
                0 <= w < path@.len() - 1 ==> match #[trigger] spec_step_side(
                    path@[w],
                    path@[w + 1],
                ) {
                    Some(side) => {
                        &&& side_marked_or_rejected(
                            final(self).tiles(),
                            final(self).plots(),
                            *permit,
                            spec_key(path@[w]),
                            side,
                        )
                        &&& old(self).tiles().contains_key(spec_key(path@[w + 1]))
                            ==> side_marked_or_rejected(
                            final(self).tiles(),
                            final(self).plots(),
                            *permit,
                            spec_key(path@[w + 1]),
                            (side + 2) % 4,
                        )
                    },
                    None => true,
                },
            forall|k: u64| #[trigger]
                final(self).tiles().contains_key(k) ==> (old(self).tiles().contains_key(k)
                    && final(self).tiles()[k] == old(self).tiles()[k]) || exists|w: int|
                    0 <= w < path@.len() && spec_key(#[trigger] path@[w]) == k,
    {
        let ghost entry = *self;
        let mut w: usize = 0;
        while w < path.len() && w + 1 < path.len()
            invariant
                self.wf(),
                forall|p: Plot| call_requires(*permit, (p,)),
                self.plots() == entry.plots(),
                self.hazard_id() == entry.hazard_id(),
                self.seed() == entry.seed(),
                entry.wf(),
                way_written(entry.tiles(), self.tiles(), kind, overwrite, entry.hazard_id()),
                forall|k: u64| #[trigger]
                    self.tiles().contains_key(k) ==> (entry.tiles().contains_key(k)
                        && self.tiles()[k] == entry.tiles()[k]) || exists|v: int|
                        0 <= v < path@.len() && spec_key(#[trigger] path@[v]) == k,
                forall|v: int|
                    0 <= v < w && v < path@.len() - 1 ==> match #[trigger] spec_step_side(
                        path@[v],
                        path@[v + 1],
                    ) {
                        Some(side) => {
                            &&& side_marked_or_rejected(
                                self.tiles(),
                                self.plots(),
                                *permit,
                                spec_key(path@[v]),
                                side,
                            )
                            &&& entry.tiles().contains_key(spec_key(path@[v + 1]))
                                ==> side_marked_or_rejected(
                                self.tiles(),
                                self.plots(),
                                *permit,
                                spec_key(path@[v + 1]),
                                (side + 2) % 4,
                            )
                        },
                        None => true,
                    },
            decreases path.len() - w,
        {
            let ghost pre = self.tiles();
            let a = path[w];
            let b = path[w + 1];
            let dx = (b.x as i64) - (a.x as i64);
            let dy = (b.y as i64) - (a.y as i64);
            let idx: usize = if dx == 0 && dy == 1 {
                0
            } else if dy == 0 && dx == 1 {
                1
            } else if dx == 0 && dy == -1 {
                2
            } else if dy == 0 && dx == -1 {
                3
            } else {
                w = w + 1;
                continue ;
            };
            proof {
                assert(spec_step_side(a, b) == Some(idx as int));
            }
            if self.tile_at(a).is_none() {
                let hazard = self.hazard;
                self.set(a, hazard);
                proof {
                    lemma_way_written_trans(
                        entry.tiles(),
                        pre,
                        self.tiles(),
                        kind,
                        overwrite,
                        entry.hazard_id(),
                    );
                }
            }
            let ghost mid = self.tiles();
            self.mark_way(b, (idx + 2) % 4, kind, permit, overwrite);
            proof {
                lemma_way_written_trans(
                    entry.tiles(),
                    mid,
                    self.tiles(),
                    kind,
                    overwrite,
                    entry.hazard_id(),
                );
            }
            let ghost mid2 = self.tiles();
            self.mark_way(a, idx, kind, permit, overwrite);
            proof {
                lemma_way_written_trans(
                    entry.tiles(),
                    mid2,
                    self.tiles(),
                    kind,
                    overwrite,
                    entry.hazard_id(),
                );
                lemma_way_written_trans(
                    pre,
                    mid,
                    self.tiles(),
                    kind,
                    overwrite,
                    entry.hazard_id(),
                );
                assert forall|k: u64| #[trigger]
                    self.tiles().contains_key(k) implies (entry.tiles().contains_key(k)
                    && self.tiles()[k] == entry.tiles()[k]) || exists|v: int|
                    0 <= v < path@.len() && spec_key(#[trigger] path@[v]) == k by {
                    if k != spec_key(a) && k != spec_key(b) {
                        assert(self.tiles().dom() == mid2.dom());
                        assert(mid2.dom() == mid.dom());
                        assert(mid.contains_key(k));
                        assert(pre.contains_key(k)) by {
                            if !pre.contains_key(k) {
                                assert(mid == pre.insert(
                                    spec_key(a),
                                    Tile {
                                        plot: entry.hazard_id(),
                                        ways: [None, None, None, None],
                                        tower: None,
                                    },
                                ));
                            }
                        }
                        assert(self.tiles()[k] == mid2[k] && mid2[k] == mid[k] && mid[k]
                            == pre[k]);
                    } else if k == spec_key(a) {
                        assert(spec_key(path@[w as int]) == k);
                    } else {
                        assert(spec_key(path@[w + 1]) == k);
                    }
                }
                assert forall|v: int|
                    0 <= v < w + 1 && v < path@.len() - 1 implies match #[trigger] spec_step_side(
                    path@[v],
                    path@[v + 1],
                ) {
                    Some(side) => {
                        &&& side_marked_or_rejected(
                            self.tiles(),
                            self.plots(),
                            *permit,
                            spec_key(path@[v]),
                            side,
                        )
                        &&& entry.tiles().contains_key(spec_key(path@[v + 1]))
                            ==> side_marked_or_rejected(
                            self.tiles(),
                            self.plots(),
                            *permit,
                            spec_key(path@[v + 1]),
                            (side + 2) % 4,
                        )
                    },
                    None => true,
                } by {
                    match spec_step_side(path@[v], path@[v + 1]) {
                        Some(side) => {
                            if v < w {
                                lemma_marked_stable(
                                    pre,
                                    self.tiles(),
                                    self.plots(),
                                    *permit,
                                    spec_key(path@[v]),
                                    side,
                                    kind,
                                    overwrite,
                                    entry.hazard_id(),
                                );
                                if entry.tiles().contains_key(spec_key(path@[v + 1])) {
                                    lemma_marked_stable(
                                        pre,
                                        self.tiles(),
                                        self.plots(),
                                        *permit,
                                        spec_key(path@[v + 1]),
                                        (side + 2) % 4,
                                        kind,
                                        overwrite,
                                        entry.hazard_id(),
                                    );
                                }
                            } else {
                                assert(side == idx as int);
                                if entry.tiles().contains_key(spec_key(b)) {
                                    lemma_marked_stable(
                                        mid2,
                                        self.tiles(),
                                        self.plots(),
                                        *permit,
                                        spec_key(b),
                                        (side + 2) % 4,
                                        kind,
                                        overwrite,
                                        entry.hazard_id(),
                                    );
                                }
                            }
                        },
                        None => {},
                    }
                }
            }
            w = w + 1;
        }
    }

    /// Sets the way marker of `kind` on side `side` of the tile at `pos`, if
    /// a tile is present there and `permit` admits its plot; an existing
    /// marker is kept unless `overwrite` is set, and is never cleared.
    fn mark_way<F: Fn(Plot) -> bool>(
        &mut self,
        pos: Coord,
        side: usize,
        kind: WayKind,
        permit: &F,
        overwrite: bool,
    )
        requires
            old(self).wf(),
            side < 4,
            forall|p: Plot| call_requires(*permit, (p,)),
        ensures
            final(self).wf(),
            final(self).plots() == old(self).plots(),
            final(self).hazard_id() == old(self).hazard_id(),
            final(self).seed() == old(self).seed(),
            way_written(
                old(self).tiles(),
                final(self).tiles(),
                kind,
                overwrite,
                old(self).hazard_id(),
            ),
            old(self).tiles().contains_key(spec_key(pos)) ==> side_marked_or_rejected(
                final(self).tiles(),
                final(self).plots(),
                *permit,
                spec_key(pos),
                side as int,
            ),
            final(self).tiles().dom() == old(self).tiles().dom(),
            forall|k: u64| #[trigger]
                final(self).tiles().contains_key(k) && k != spec_key(pos) ==> final(self).tiles()[k] == old(self).tiles()[k],
    {
        let k = key(pos);
        let t = match self.tiles.get(&k) {
            Some(t) => *t,
            None => {
                return ;
            },
        };
        if permit(*self.plots.get(t.plot)) {
            if overwrite || way_slot(&t.ways, side).is_none() {
                let nt = Tile {
                    plot: t.plot,
                    ways: set_way_slot(t.ways, side, Some(kind)),
                    tower: t.tower,
                };
                self.tiles.insert(k, nt);
            }
        }
    }
}

/// An upper bound on region growth budgets, far over the library's own use;
/// it keeps the walked coordinates inside `i32`.
pub const GROW_CAP: usize = 1048576;

impl Land {
    /// Grows a region outward from `start` by breadth-first expansion over
    /// the 4-connected tile grid, admitting a neighbor only where `f` accepts
    /// its plot (present or absent) and it was not queued before. Stops once
    /// the region holds `max_size` coordinates or the frontier is exhausted,
    /// and returns everything queued, in discovery order; `start` is always
    /// returned, unexamined, even when `max_size` is zero. Where `f` accepts
    /// everything, the region's size is exactly `max_size` (or one, if that
    /// is larger): the frontier of a small region on an unbounded grid can
    /// never empty.
    pub fn grow_from<F: Fn(Option<Plot>) -> bool>(
        &self,
        start: Coord,
        max_size: usize,
        f: &F,
    ) -> (r: Vec<Coord>)
        requires
            self.wf(),
            max_size <= GROW_CAP,
            forall|p: Option<Plot>| call_requires(*f, (p,)),
        ensures
            1 <= r@.len(),
            r@.len() <= vstd::math::max(max_size as int, 1),
            r@[0] == start,
            forall|i: int, j: int| 0 <= i < j < r@.len() ==> r@[i] != r@[j],
            forall|i: int|
                1 <= i < r@.len() ==> exists|j: int| 0 <= j < i && adjacent(r@[j], #[trigger] r@[i]),
            forall|i: int|
                1 <= i < r@.len() ==> call_ensures(*f, (self.spec_plot_at(#[trigger] r@[i]),), true),
            r@.len() < max_size ==> region_saturated(r@, *self, *f),
            max_size >= 5 ==> forall|d: int|
                0 <= d < 4 ==> #[trigger] step_covered(r@, *self, *f, start, d),
            (max_size >= 1 && (forall|p: Option<Plot>, b: bool|
                call_ensures(*f, (p,), b) ==> b)) ==> r@.len() == max_size,
    {
        let mut r: Vec<Coord> = Vec::new();
        r.push(start);
        let mut qh: usize = 0;
        while qh < r.len() && r.len() < max_size
            invariant
                self.wf(),
                max_size <= GROW_CAP,
                forall|p: Option<Plot>| call_requires(*f, (p,)),
                1 <= r@.len(),
                qh <= r@.len(),
                r@.len() <= vstd::math::max(max_size as int, 1),
                r@[0] == start,
                forall|i: int, j: int| 0 <= i < j < r@.len() ==> r@[i] != r@[j],
                forall|i: int|
                    1 <= i < r@.len() ==> exists|j: int|
                        0 <= j < i && adjacent(r@[j], #[trigger] r@[i]),
                forall|i: int|
                    1 <= i < r@.len() ==> call_ensures(
                        *f,
                        (self.spec_plot_at(#[trigger] r@[i]),),
                        true,
                    ),
                r@.len() < max_size ==> forall|i: int, d: int|
                    0 <= i < qh && 0 <= d < 4 ==> #[trigger] step_covered(r@, *self, *f, r@[i], d),
                qh == 0 ==> r@.len() == 1,
                qh >= 1 && max_size >= 5 ==> forall|d: int|
                    0 <= d < 4 ==> #[trigger] step_covered(r@, *self, *f, start, d),
            decreases max_size - qh,
        {
            let c = r[qh];
            qh = qh + 1;
            let mut d: usize = 0;
            while d < 4
                invariant
                    self.wf(),
                    max_size <= GROW_CAP,
                    forall|p: Option<Plot>| call_requires(*f, (p,)),
                    d <= 4,
                    1 <= qh <= r@.len(),
                    c == r@[qh - 1],
                    r@.len() <= max_size,
                    r@[0] == start,
                    forall|i: int, j: int| 0 <= i < j < r@.len() ==> r@[i] != r@[j],
                    forall|i: int|
                        1 <= i < r@.len() ==> exists|j: int|
                            0 <= j < i && adjacent(r@[j], #[trigger] r@[i]),
                    forall|i: int|
                        1 <= i < r@.len() ==> call_ensures(
                            *f,
                            (self.spec_plot_at(#[trigger] r@[i]),),
                            true,
                        ),
                    r@.len() < max_size ==> forall|i: int, dd: int|
                        0 <= i < qh - 1 && 0 <= dd < 4 ==> #[trigger] step_covered(
                            r@,
                            *self,
                            *f,
                            r@[i],
                            dd,
                        ),
                    r@.len() < max_size ==> forall|dd: int|
                        0 <= dd < d ==> #[trigger] step_covered(r@, *self, *f, c, dd),
                    qh == 1 && max_size >= 5 ==> r@.len() <= 1 + d,
                    qh == 1 && max_size >= 5 ==> forall|dd: int|
                        0 <= dd < d ==> #[trigger] step_covered(r@, *self, *f, start, dd),
                    qh >= 2 && max_size >= 5 ==> forall|dd: int|
                        0 <= dd < 4 ==> #[trigger] step_covered(r@, *self, *f, start, dd),
                decreases 4 - d,
            {
                match crate::coord::step(c, d) {
                    Some(n) => {
                        let ghost pre_push = r@;
                        if r.len() < max_size && !vec_contains(&r, n) && f(self.plot_at(n)) {
                            r.push(n);
                            proof {
                                let ghost ln = pre_push.len() as int;
                                assert(r@ == pre_push.push(n));
                                assert(forall|i: int| 0 <= i < ln ==> r@[i] == pre_push[i]);
                                assert(r@[ln] == n);
                                assert(adjacent(c, n));
                                assert(call_ensures(*f, (self.spec_plot_at(n),), true));
                                assert forall|i: int, j: int|
                                    0 <= i < j < r@.len() implies r@[i] != r@[j] by {
                                    if j == ln && r@[i] == n {
                                        assert(pre_push[i] == n);
                                        assert(pre_push.contains(n));
                                    }
                                }
                                assert forall|i: int| 1 <= i < r@.len() implies exists|j: int|
                                    0 <= j < i && adjacent(r@[j], #[trigger] r@[i]) by {
                                    if i < ln {
                                        let j = choose|j: int|
                                            0 <= j < i && adjacent(pre_push[j], pre_push[i]);
                                        assert(adjacent(r@[j], r@[i]));
                                    } else {
                                        assert(r@[qh - 1] == c);
                                        assert(adjacent(r@[qh - 1], r@[i]));
                                    }
                                }
                                assert forall|i: int, dd: int|
                                    0 <= i < qh - 1 && 0 <= dd < 4 && r@.len() < max_size implies #[trigger] step_covered(
                                    r@,
                                    *self,
                                    *f,
                                    r@[i],
                                    dd,
                                ) by {
                                    assert(step_covered(pre_push, *self, *f, pre_push[i], dd));
                                    assert(r@[i] == pre_push[i]);
                                }
                                assert forall|dd: int|
                                    0 <= dd < d && r@.len() < max_size implies #[trigger] step_covered(
                                    r@,
                                    *self,
                                    *f,
                                    c,
                                    dd,
                                ) by {
                                    assert(step_covered(pre_push, *self, *f, c, dd));
                                }
                                assert(r@.contains(n)) by {
                                    assert(r@[ln] == n);
                                }
                                assert(step_covered(r@, *self, *f, c, d as int));
                                assert forall|dd: int|
                                    0 <= dd < d && qh == 1 && max_size >= 5 implies #[trigger] step_covered(
                                    r@,
                                    *self,
                                    *f,
                                    start,
                                    dd,
                                ) by {
                                    assert(step_covered(pre_push, *self, *f, start, dd));
                                }
                                assert forall|dd: int|
                                    0 <= dd < 4 && qh >= 2 && max_size >= 5 implies #[trigger] step_covered(
                                    r@,
                                    *self,
                                    *f,
                                    start,
                                    dd,
                                ) by {
                                    assert(step_covered(pre_push, *self, *f, start, dd));
                                }
                            }
                        } else {
                            proof {
                                if r@.len() < max_size {
                                    if pre_push.contains(n) {
                                        assert(step_covered(r@, *self, *f, c, d as int));
                                    } else {
                                        assert(call_ensures(
                                            *f,
                                            (self.spec_plot_at(n),),
                                            false,
                                        ));
                                        assert(step_covered(r@, *self, *f, c, d as int));
                                    }
                                }
                            }
                        }
                    },
                    None => {},
                }
                d = d + 1;
            }
            proof {
                assert forall|i: int, dd: int|
                    0 <= i < qh && 0 <= dd < 4 && r@.len() < max_size implies #[trigger] step_covered(
                    r@,
                    *self,
                    *f,
                    r@[i],
                    dd,
                ) by {
                    if i == qh - 1 {
                        assert(r@[i] == c);
                        assert(step_covered(r@, *self, *f, c, dd));
                    }
                }
            }
        }
        proof {
            if max_size >= 1 && (forall|p: Option<Plot>, b: bool| call_ensures(*f, (p,), b) ==> b)
                && r@.len() < max_size {
                assert(region_saturated(r@, *self, *f));
                assert(closed_under_steps(r@)) by {
                    assert forall|i: int, d: int|
                        0 <= i < r@.len() && 0 <= d < 4 implies match #[trigger] spec_step(
                        r@[i],
                        d,
                    ) {
                        Some(n) => r@.contains(n),
                        None => true,
                    } by {
                        assert(step_covered(r@, *self, *f, r@[i], d));
                        if spec_step(r@[i], d) is Some {
                            let n = spec_step(r@[i], d)->Some_0;
                            if !r@.contains(n) {
                                assert(call_ensures(*f, (self.spec_plot_at(n),), false));
                            }
                        }
                    }
                }
                lemma_closed_seq_len(r@, max_size as int);
                assert(false);
            }
        }
        r
    }
}

impl Land {
    /// Finds the coordinate nearest to `origin` (by Chebyshev ring, walked in
    /// a fixed spiral order) whose plot — present or absent — satisfies `f`,
    /// searching no further than `cap` rings out. Reports `None` when every
    /// coordinate within `cap` rings is rejected.
    pub fn find_tile_near<F: Fn(Option<Plot>) -> bool>(
        &self,
        origin: Coord,
        cap: u32,
        f: &F,
    ) -> (r: Option<Coord>)
        requires
            self.wf(),
            in_spiral_range(origin, cap),
            forall|p: Option<Plot>| call_requires(*f, (p,)),
        ensures
            match r {
                Some(c) => {
                    &&& cheb(c, origin) <= cap
                    &&& call_ensures(*f, (self.spec_plot_at(c),), true)
                    &&& forall|d: Coord|
                        spiral_before(d, c, origin) ==> call_ensures(
                            *f,
                            (#[trigger] self.spec_plot_at(d),),
                            false,
                        )
                },
                None => forall|d: Coord|
                    cheb(d, origin) <= cap ==> call_ensures(
                        *f,
                        (#[trigger] self.spec_plot_at(d),),
                        false,
                    ),
            },
    {
        let order = spiral(origin, cap);
        let mut i: usize = 0;
        while i < order.len()
            invariant
                self.wf(),
                forall|p: Option<Plot>| call_requires(*f, (p,)),
                i <= order@.len(),
                forall|j: int|
                    0 <= j < i ==> call_ensures(
                        *f,
                        (self.spec_plot_at(#[trigger] order@[j]),),
                        false,
                    ),
                forall|k: int| 0 <= k < order@.len() ==> cheb(order@[k], origin) <= cap,
                forall|c: Coord| cheb(c, origin) <= cap ==> order@.contains(c),
                forall|k: int, j: int|
                    0 <= k <= j < order@.len() ==> cheb(order@[k], origin) <= cheb(
                        order@[j],
                        origin,
                    ),
                forall|k: int, j: int|
                    0 <= k < j < order@.len() ==> spiral_before(order@[k], order@[j], origin),
            decreases order@.len() - i,
        {
            let c = order[i];
            if f(self.plot_at(c)) {
                proof {
                    assert forall|d: Coord|
                        spiral_before(d, c, origin) implies call_ensures(
                        *f,
                        (#[trigger] self.spec_plot_at(d),),
                        false,
                    ) by {
                        assert(cheb(d, origin) <= cap);
                        assert(order@.contains(d));
                        let jd = choose|jd: int| 0 <= jd < order@.len() && order@[jd] == d;
                        if jd > i {
                            assert(spiral_before(order@[i as int], order@[jd], origin));
                        }
                        assert(jd < i);
                    }
                }
                return Some(c);
            }
            i = i + 1;
        }
        proof {
            assert forall|d: Coord| cheb(d, origin) <= cap implies call_ensures(
                *f,
                (#[trigger] self.spec_plot_at(d),),
                false,
            ) by {
                assert(order@.contains(d));
                let jd = choose|jd: int| 0 <= jd < order@.len() && order@[jd] == d;
            }
        }
        None
    }

    /// Bounded best-first search from `origin` to `dest` over the
    /// 4-connected tile grid, with a caller-supplied transition cost over the
    /// tiles (present or absent) at both ends of each step and an
    /// integer-Euclidean distance heuristic. Expands at most `PATH_BUDGET`
    /// nodes, so distant destinations are reported unreachable by design.
    /// A returned path leads from `origin` to `dest` in cardinal unit steps,
    /// and where every transition costs one, a returned path is exactly as
    /// long as the Manhattan distance between the endpoints: the search
    /// always keeps an optimal route in hand, so it never settles for a
    /// longer one.
    #[verifier::rlimit(100)]
    #[verifier::spinoff_prover]
    pub fn find_path<F: Fn(Option<Tile>, Option<Tile>) -> u64>(
        &self,
        origin: Coord,
        dest: Coord,
        cost: &F,
    ) -> (r: Option<Vec<Coord>>)
        requires
            self.wf(),
            forall|a: Option<Tile>, b: Option<Tile>| call_requires(*cost, (a, b)),
        ensures
            match r {
                Some(p) => {
                    &&& 1 <= p@.len() <= PATH_BUDGET
                    &&& p@[0] == origin
                    &&& p@[p@.len() - 1] == dest
                    &&& forall|i: int| 0 <= i < p@.len() - 1 ==> adjacent(p@[i], #[trigger] p@[i + 1])
                },
                None => origin != dest,
            },
            uniform_cost(*cost) ==> match r {
                Some(p) => p@.len() == manhattan(origin, dest) + 1,
                None => true,
            },
    {
        let mut open: Vec<PathNode> = Vec::new();
        let mut first: Vec<Coord> = Vec::new();
        first.push(origin);
        open.push(PathNode { pos: origin, g: 0, h: heuristic(origin, dest), path: first });
        let mut best: HashMap<u64, u64> = HashMap::new();
        let mut iters: usize = 0;
        proof {
            lemma_corridor_props(origin, dest, 0);
            assert(corridor_ok(best@, origin, dest, 0));
            assert(open@[0].pos == corridor(origin, dest, 0) && open@[0].g == 0);
            assert(has_witness(open@, best@, origin, dest));
        }
        while iters < PATH_BUDGET && open.len() > 0
            invariant
                self.wf(),
                forall|a: Option<Tile>, b: Option<Tile>| call_requires(*cost, (a, b)),
                forall|i: int| 0 <= i < open@.len() ==> (#[trigger] open@[i]).wf(origin),
                forall|i: int|
                    0 <= i < open@.len() ==> (#[trigger] open@[i]).path@.len() <= iters + 1,
                forall|i: int|
                    0 <= i < open@.len() ==> (#[trigger] open@[i]).h <= manhattan(
                        open@[i].pos,
                        dest,
                    ),
                uniform_cost(*cost) ==> forall|i: int|
                    0 <= i < open@.len() ==> (#[trigger] open@[i]).g == open@[i].path@.len() - 1,
                uniform_cost(*cost) ==> has_witness(open@, best@, origin, dest),
                origin == dest ==> iters == 0 && open@.len() == 1 && open@[0].pos == dest,
            decreases PATH_BUDGET - iters,
        {
            let mut mi: usize = 0;
            let mut j: usize = 1;
            while j < open.len()
                invariant
                    1 <= j <= open@.len(),
                    mi < j,
                    forall|j2: int|
                        0 <= j2 < j ==> spec_priority(open@[mi as int]) <= spec_priority(
                            #[trigger] open@[j2],
                        ),
                decreases open@.len() - j,
            {
                if node_priority(&open[j]) < node_priority(&open[mi]) {
                    mi = j;
                }
                j = j + 1;
            }
            let ghost pre_open = open@;
            let ghost pre_best = best@;
            let node = open.remove(mi);
            proof {
                if uniform_cost(*cost) {
                    let m = manhattan(origin, dest);
                    let t = choose|t: int|
                        #![trigger corridor_ok(pre_best, origin, dest, t)]
                        0 <= t <= m && corridor_ok(pre_best, origin, dest, t) && exists|ni: int|
                            0 <= ni < pre_open.len() && (#[trigger] pre_open[ni]).pos == corridor(
                                origin,
                                dest,
                                t,
                            ) && pre_open[ni].g == t;
                    let ni = choose|ni: int|
                        0 <= ni < pre_open.len() && (#[trigger] pre_open[ni]).pos == corridor(
                            origin,
                            dest,
                            t,
                        ) && pre_open[ni].g == t;
                    lemma_corridor_props(origin, dest, t);
                    assert(spec_priority(pre_open[ni]) <= t + (m - t));
                    assert(spec_priority(node) <= m) by {
                        assert(spec_priority(pre_open[mi as int]) <= spec_priority(pre_open[ni]));
                    }
                    if node.pos == dest {
                        lemma_path_at_least_manhattan(node.path@);
                        assert(manhattan(node.pos, dest) == 0);
                        assert(node.h == 0);
                        assert(node.g <= m);
                        assert(node.g == node.path@.len() - 1);
                        assert(node.path@.len() == m + 1);
                    }
                }
            }
            if node.pos == dest {
                return Some(node.path);
            }
            let k = key(node.pos);
            let known = match best.get(&k) {
                Some(g) => *g <= node.g,
                None => false,
            };
            let ghost m = manhattan(origin, dest);
            let ghost sw = uniform_cost(*cost) && exists|s: int|
                0 <= s < m && #[trigger] corridor(origin, dest, s) == node.pos && node.g == s;
            let ghost te: int = if sw {
                choose|s: int|
                    0 <= s < m && #[trigger] corridor(origin, dest, s) == node.pos && node.g == s
            } else {
                0
            };
            if !known {
                best.insert(k, node.g);
                proof {
                    if uniform_cost(*cost) {
                        let t = choose|t: int|
                            #![trigger corridor_ok(pre_best, origin, dest, t)]
                            0 <= t <= m && corridor_ok(pre_best, origin, dest, t) && exists|
                                ni: int,
                            |
                                0 <= ni < pre_open.len() && (#[trigger] pre_open[ni]).pos
                                    == corridor(origin, dest, t) && pre_open[ni].g == t;
                        let ni = choose|ni: int|
                            0 <= ni < pre_open.len() && (#[trigger] pre_open[ni]).pos == corridor(
                                origin,
                                dest,
                                t,
                            ) && pre_open[ni].g == t;
                        lemma_corridor_props(origin, dest, t);
                        if sw {
                            lemma_corridor_props(origin, dest, te);
                        }
                        if sw && te >= t {
                            lemma_corridor_step(origin, dest, te);
                            assert forall|s2: int|
                                te + 1 <= s2 <= m && best@.contains_key(
                                    spec_key(#[trigger] corridor(origin, dest, s2)),
                                ) implies best@[spec_key(corridor(origin, dest, s2))] > s2 by {
                                lemma_corridor_props(origin, dest, s2);
                                lemma_key_injective(corridor(origin, dest, s2), node.pos);
                                assert(corridor(origin, dest, s2) != node.pos);
                                assert(pre_best.contains_key(
                                    spec_key(corridor(origin, dest, s2)),
                                ));
                            }
                            assert(corridor_ok(best@, origin, dest, te + 1));
                        } else {
                            if ni == mi {
                                assert(pre_open[ni as int].pos == corridor(origin, dest, t)
                                    && pre_open[ni as int].g == t);
                                assert(node.pos != dest);
                                assert(t < m) by {
                                    if t == m {
                                        assert(corridor(origin, dest, t) == dest);
                                    }
                                }
                                assert(sw && te == t) by {
                                    assert(corridor(origin, dest, t) == node.pos && node.g == t);
                                    lemma_corridor_props(origin, dest, te);
                                }
                                assert(false);
                            }
                            let nwi: int = if ni < mi {
                                ni
                            } else {
                                ni - 1
                            };
                            assert(open@[nwi] == pre_open[ni]);
                            assert forall|s2: int|
                                t <= s2 <= m && best@.contains_key(
                                    spec_key(#[trigger] corridor(origin, dest, s2)),
                                ) implies best@[spec_key(corridor(origin, dest, s2))] > s2 by {
                                lemma_corridor_props(origin, dest, s2);
                                lemma_key_injective(corridor(origin, dest, s2), node.pos);
                                if corridor(origin, dest, s2) == node.pos {
                                    lemma_path_at_least_manhattan(node.path@);
                                    assert(node.g >= s2);
                                    assert(s2 < m) by {
                                        if s2 == m {
                                            assert(corridor(origin, dest, s2) == dest);
                                        }
                                    }
                                    assert(node.g == s2 ==> sw);
                                    assert(node.g > s2);
                                } else {
                                    assert(pre_best.contains_key(
                                        spec_key(corridor(origin, dest, s2)),
                                    ));
                                }
                            }
                            assert(corridor_ok(best@, origin, dest, t));
                            assert(has_witness(open@, best@, origin, dest));
                        }
                    }
                }
                let here = self.tile_at(node.pos);
                let mut d: usize = 0;
                while d < 4
                    invariant
                        self.wf(),
                        forall|a: Option<Tile>, b: Option<Tile>| call_requires(*cost, (a, b)),
                        d <= 4,
                        iters < PATH_BUDGET,
                        m == manhattan(origin, dest),
                        forall|i: int| 0 <= i < open@.len() ==> (#[trigger] open@[i]).wf(origin),
                        forall|i: int|
                            0 <= i < open@.len() ==> (#[trigger] open@[i]).path@.len() <= iters
                                + 2,
                        forall|i: int|
                            0 <= i < open@.len() ==> (#[trigger] open@[i]).h <= manhattan(
                                open@[i].pos,
                                dest,
                            ),
                        uniform_cost(*cost) ==> forall|i: int|
                            0 <= i < open@.len() ==> (#[trigger] open@[i]).g == open@[i].path@.len()
                                - 1,
                        node.wf(origin),
                        node.path@.len() <= iters + 1,
                        uniform_cost(*cost) ==> node.g == node.path@.len() - 1,
                        sw ==> uniform_cost(*cost) && 0 <= te < m && corridor(origin, dest, te)
                            == node.pos && node.g == te,
                        uniform_cost(*cost) ==> has_witness(open@, best@, origin, dest) || (sw
                            && corridor_ok(best@, origin, dest, te + 1) && exists|dir: int|
                            d <= dir < 4 && #[trigger] spec_step(node.pos, dir) == Some(
                                corridor(origin, dest, te + 1),
                            )),
                        here == self.spec_tile_at(node.pos),
                    decreases 4 - d,
                {
                    let ghost loop_open = open@;
                    match crate::coord::step(node.pos, d) {
                        Some(n) => {
                            let c = cost(here, self.tile_at(n));
                            match node.g.checked_add(c) {
                                Some(ng) => {
                                    let better = match best.get(&key(n)) {
                                        Some(g) => ng < *g,
                                        None => true,
                                    };
                                    if better {
                                        let mut np = clone_coords(&node.path);
                                        np.push(n);
                                        open.push(
                                            PathNode {
                                                pos: n,
                                                g: ng,
                                                h: heuristic(n, dest),
                                                path: np,
                                            },
                                        );
                                        proof {
                                            if uniform_cost(*cost) {
                                                assert(c == 1);
                                                assert(open@[open@.len() - 1].g
                                                    == open@[open@.len() - 1].path@.len() - 1);
                                                if has_witness(loop_open, best@, origin, dest) {
                                                    lemma_witness_after_push(
                                                        loop_open,
                                                        open@,
                                                        best@,
                                                        origin,
                                                        dest,
                                                    );
                                                }
                                                if sw && spec_step(node.pos, d as int) == Some(
                                                    corridor(origin, dest, te + 1),
                                                ) {
                                                    assert(n == corridor(origin, dest, te + 1));
                                                    lemma_corridor_props(origin, dest, te + 1);
                                                    assert(open@[open@.len() - 1].pos == corridor(
                                                        origin,
                                                        dest,
                                                        te + 1,
                                                    ) && open@[open@.len() - 1].g == te + 1);
                                                    if corridor_ok(
                                                        best@,
                                                        origin,
                                                        dest,
                                                        te + 1,
                                                    ) {
                                                        assert(has_witness(
                                                            open@,
                                                            best@,
                                                            origin,
                                                            dest,
                                                        ));
                                                    }
                                                }
                                            }
                                        }
                                    } else {
                                        proof {
                                            if uniform_cost(*cost) && !has_witness(
                                                open@,
                                                best@,
                                                origin,
                                                dest,
                                            ) && sw && spec_step(node.pos, d as int) == Some(
                                                corridor(origin, dest, te + 1),
                                            ) && corridor_ok(best@, origin, dest, te + 1) {
                                                assert(c == 1);
                                                assert(n == corridor(origin, dest, te + 1));
                                                lemma_corridor_props(origin, dest, te + 1);
                                                assert(best@.contains_key(spec_key(n)));
                                                assert(best@[spec_key(n)] > te + 1);
                                                assert(ng == te + 1);
                                                assert(false);
                                            }
                                        }
                                    }
                                },
                                None => {
                                    proof {
                                        if uniform_cost(*cost) {
                                            assert(c == 1);
                                            assert(node.g + 1 <= u64::MAX);
                                            assert(false);
                                        }
                                    }
                                },
                            }
                        },
                        None => {},
                    }
                    proof {
                        if uniform_cost(*cost) && !has_witness(open@, best@, origin, dest) {
                            assert(sw && corridor_ok(best@, origin, dest, te + 1));
                            let dir = choose|dir: int|
                                (d as int) <= dir < 4 && #[trigger] spec_step(node.pos, dir)
                                    == Some(corridor(origin, dest, te + 1));
                            assert(dir >= d + 1);
                        }
                    }
                    d = d + 1;
                }
            } else {
                proof {
                    if uniform_cost(*cost) {
                        let t = choose|t: int|
                            #![trigger corridor_ok(pre_best, origin, dest, t)]
                            0 <= t <= m && corridor_ok(pre_best, origin, dest, t) && exists|
                                ni: int,
                            |
                                0 <= ni < pre_open.len() && (#[trigger] pre_open[ni]).pos
                                    == corridor(origin, dest, t) && pre_open[ni].g == t;
                        let ni = choose|ni: int|
                            0 <= ni < pre_open.len() && (#[trigger] pre_open[ni]).pos == corridor(
                                origin,
                                dest,
                                t,
                            ) && pre_open[ni].g == t;
                        if ni == mi {
                            assert(pre_best.contains_key(spec_key(corridor(origin, dest, t))));
                            assert(pre_best[spec_key(corridor(origin, dest, t))] > t);
                            assert(false);
                        }
                        let nwi: int = if ni < mi {
                            ni
                        } else {
                            ni - 1
                        };
                        assert(open@[nwi] == pre_open[ni]);
                        assert(has_witness(open@, best@, origin, dest));
                    }
                }
            }
            iters = iters + 1;
        }
        None
    }
}

/// Every possible answer of the transition-cost function is one: the
/// uniform-cost grid of the path-monotonicity property.
pub open spec fn uniform_cost<F: Fn(Option<Tile>, Option<Tile>) -> u64>(cost: F) -> bool {
    forall|a: Option<Tile>, b: Option<Tile>, c: u64| call_ensures(cost, (a, b), c) ==> c == 1
}

/// No corridor coordinate from `t` onward has been settled with a cost at or
/// below its distance from the origin.
spec fn corridor_ok(best: Map<u64, u64>, o: Coord, d: Coord, t: int) -> bool {
    forall|s: int|
        t <= s <= manhattan(o, d) && best.contains_key(
            spec_key(#[trigger] corridor(o, d, s)),
        ) ==> best[spec_key(corridor(o, d, s))] > s
}

/// Some open node sits on the corridor with its exact distance from the
/// origin as its cost, and no later corridor coordinate is settled cheaply:
/// the search still has an optimal route to the destination in hand.
spec fn has_witness(open: Seq<PathNode>, best: Map<u64, u64>, o: Coord, d: Coord) -> bool {
    exists|t: int|
        #![trigger corridor_ok(best, o, d, t)]
        0 <= t <= manhattan(o, d) && corridor_ok(best, o, d, t) && exists|ni: int|
            0 <= ni < open.len() && (#[trigger] open[ni]).pos == corridor(o, d, t)
                && open[ni].g == t
}

/// A witness in the open list survives appending another node.
proof fn lemma_witness_after_push(
    pre: Seq<PathNode>,
    post: Seq<PathNode>,
    best: Map<u64, u64>,
    o: Coord,
    d: Coord,
)
    requires
        post.len() == pre.len() + 1,
        forall|i: int| 0 <= i < pre.len() ==> post[i] == pre[i],
        has_witness(pre, best, o, d),
    ensures
        has_witness(post, best, o, d),
{
    let t = choose|t: int|
        #![trigger corridor_ok(best, o, d, t)]
        0 <= t <= manhattan(o, d) && corridor_ok(best, o, d, t) && exists|ni: int|
            0 <= ni < pre.len() && (#[trigger] pre[ni]).pos == corridor(o, d, t) && pre[ni].g == t;
    let ni = choose|ni: int|
        0 <= ni < pre.len() && (#[trigger] pre[ni]).pos == corridor(o, d, t) && pre[ni].g == t;
    assert(post[ni] == pre[ni]);
}

/// The node budget of the bounded pathfinder.
pub const PATH_BUDGET: usize = 250;

/// One queued search node: a position, its accumulated cost, its heuristic
/// value, and the path that discovered it.
struct PathNode {
    pos: Coord,
    g: u64,
    h: u64,
    path: Vec<Coord>,
}

impl PathNode {
    /// The node's path leads from `origin` to the node in cardinal steps.
    spec fn wf(&self, origin: Coord) -> bool {
        &&& self.path@.len() >= 1
        &&& self.path@[0] == origin
        &&& self.path@[self.path@.len() - 1] == self.pos
        &&& forall|i: int|
            0 <= i < self.path@.len() - 1 ==> adjacent(self.path@[i], #[trigger] self.path@[i + 1])
    }
}

/// The search priority of a node: accumulated cost plus heuristic value,
/// saturating at the top of the range.
spec fn spec_priority(n: PathNode) -> int {
    if n.g + n.h <= u64::MAX {
        n.g + n.h
    } else {
        u64::MAX as int
    }
}

/// Computes a node's search priority.
fn node_priority(n: &PathNode) -> (r: u64)
    ensures
        r == spec_priority(*n),
{
    match n.g.checked_add(n.h) {
        Some(f) => f,
        None => u64::MAX,
    }
}

/// Copies a coordinate list.
fn clone_coords(v: &Vec<Coord>) -> (r: Vec<Coord>)
    ensures
        r@ == v@,
{
    let mut r: Vec<Coord> = Vec::new();
    let mut i: usize = 0;
    while i < v.len()
        invariant
            i <= v@.len(),
            r@ == v@.subrange(0, i as int),
        decreases v@.len() - i,
    {
        r.push(v[i]);
        proof {
            assert(r@ =~= v@.subrange(0, i + 1));
        }
        i = i + 1;
    }
    proof {
        assert(r@ =~= v@);
    }
    r
}

/// The integer Euclidean distance between two coordinates, rounded down. It
/// never exceeds the Manhattan distance, so it never overestimates the cost
/// of a unit-cost route.
fn heuristic(a: Coord, b: Coord) -> (r: u64)
    ensures
        r <= manhattan(a, b),
{
    let dx = (a.x as i64) - (b.x as i64);
    let dy = (a.y as i64) - (b.y as i64);
    proof {
        assert(0 <= (dx as i128) * (dx as i128) <= 0x10000000000000000) by (nonlinear_arith)
            requires
                -0x100000000 <= dx <= 0x100000000,
        ;
        assert(0 <= (dy as i128) * (dy as i128) <= 0x10000000000000000) by (nonlinear_arith)
            requires
                -0x100000000 <= dy <= 0x100000000,
        ;
    }
    let d2 = (dx as i128) * (dx as i128) + (dy as i128) * (dy as i128);
    let r = isqrt(d2 as u128);
    proof {
        let m = manhattan(a, b);
        assert(d2 <= m * m) by (nonlinear_arith)
            requires
                m == vstd::math::abs(a.x - b.x) as int + vstd::math::abs(a.y - b.y) as int && dx
                    == a.x - b.x && dy == a.y - b.y && d2 == (dx as i128) * (dx as i128) + (
                dy as i128) * (dy as i128),
        ;
        assert(r <= m) by (nonlinear_arith)
            requires
                (r as int) * (r as int) <= d2 && d2 <= m * m && m >= 0,
        ;
    }
    r
}

/// The integer square root: the largest `r` with `r * r <= n`, for `n` up to
/// twice the square of a 32-bit range.
fn isqrt(n: u128) -> (r: u64)
    requires
        n < 0x80000000000000000,
    ensures
        (r as int) * (r as int) <= n < ((r as int) + 1) * ((r as int) + 1),
{
    let mut lo: u64 = 0;
    let mut hi: u64 = 0x300000000;
    proof {
        assert((hi as int) * (hi as int) > n) by (nonlinear_arith)
            requires
                hi == 0x300000000 && n < 0x80000000000000000,
        ;
    }
    while lo + 1 < hi
        invariant
            lo < hi <= 0x300000000,
            (lo as int) * (lo as int) <= n,
            (hi as int) * (hi as int) > n,
        decreases hi - lo,
    {
        let mid = lo + (hi - lo) / 2;
        proof {
            assert((mid as u128) * (mid as u128) < 0x100000000000000000) by (nonlinear_arith)
                requires
                    mid <= 0x300000000,
            ;
        }
        if (mid as u128) * (mid as u128) <= n {
            lo = mid;
        } else {
            hi = mid;
        }
    }
    lo
}

/// The Manhattan distance between two coordinates.
pub open spec fn manhattan(a: Coord, b: Coord) -> int {
    vstd::math::abs(a.x - b.x) as int + vstd::math::abs(a.y - b.y) as int
}

/// A path of cardinal unit steps is never shorter than the Manhattan
/// distance between its endpoints: each step changes that distance by at
/// most one. In particular, a path the pathfinder reports between two tiles
/// takes at least their Manhattan distance in steps; over an unobstructed
/// grid with uniform costs it takes exactly that many.
pub proof fn lemma_path_at_least_manhattan(p: Seq<Coord>)
    requires
        p.len() >= 1,
        forall|i: int| 0 <= i < p.len() - 1 ==> adjacent(p[i], #[trigger] p[i + 1]),
    ensures
        p.len() - 1 >= manhattan(p[0], p[p.len() - 1]),
    decreases p.len(),
{
    if p.len() >= 2 {
        let q = p.drop_first();
        assert forall|i: int| 0 <= i < q.len() - 1 implies adjacent(q[i], #[trigger] q[i + 1]) by {
            assert(q[i] == p[i + 1] && q[i + 1] == p[i + 2]);
            assert(adjacent(p[i + 1], p[(i + 1) + 1]));
        }
        lemma_path_at_least_manhattan(q);
        assert(adjacent(p[0], p[1]));
        let d = choose|d: int| 0 <= d < 4 && spec_step(p[0], d) == Some(p[1]);
        assert(manhattan(p[0], p[p.len() - 1]) <= manhattan(p[1], p[p.len() - 1]) + 1);
        assert(q[0] == p[1] && q[q.len() - 1] == p[p.len() - 1]);
    }
}

/// Arena integrity: in a well-formed land, the plot reference of every
/// present tile resolves to a live arena entry.
pub proof fn lemma_arena_integrity(land: Land, c: Coord)
    requires
        land.wf(),
        land.spec_tile_at(c) is Some,
    ensures
        land.spec_tile_at(c)->Some_0.plot.idx < land.plots().len(),
        land.spec_plot_at(c) == Some(
            land.plots()[land.spec_tile_at(c)->Some_0.plot.idx as int],
        ),
{
}

/// The sign of an integer.
pub open spec fn sgn(v: int) -> int {
    if v > 0 {
        1
    } else if v < 0 {
        -1
    } else {
        0
    }
}

/// The `t`-th coordinate of the canonical unit-step corridor from `o` to
/// `d`: first along the x axis, then along the y axis.
pub open spec fn corridor(o: Coord, d: Coord, t: int) -> Coord {
    let mx = vstd::math::abs(o.x - d.x) as int;
    if t <= mx {
        Coord { x: (o.x + sgn(d.x - o.x) * t) as i32, y: o.y }
    } else {
        Coord { x: d.x, y: (o.y + sgn(d.y - o.y) * (t - mx)) as i32 }
    }
}

/// The corridor walks from `o` to `d` in unit cardinal steps, and its `t`-th
/// coordinate splits the Manhattan distance exactly.
proof fn lemma_corridor_props(o: Coord, d: Coord, t: int)
    requires
        0 <= t <= manhattan(o, d),
    ensures
        manhattan(o, corridor(o, d, t)) == t,
        manhattan(corridor(o, d, t), d) == manhattan(o, d) - t,
        corridor(o, d, 0) == o,
        t == manhattan(o, d) ==> corridor(o, d, t) == d,
        t < manhattan(o, d) ==> exists|dir: int|
            0 <= dir < 4 && #[trigger] spec_step(corridor(o, d, t), dir) == Some(
                corridor(o, d, t + 1),
            ),
{
    let mx = vstd::math::abs(o.x - d.x) as int;
    let my = vstd::math::abs(o.y - d.y) as int;
    assert(manhattan(o, d) == mx + my);
    let c = corridor(o, d, t);
    if t <= mx {
        if d.x >= o.x {
            assert(sgn(d.x - o.x) * t == t);
            assert(o.x <= o.x + t <= d.x);
            assert(c == (Coord { x: (o.x + t) as i32, y: o.y }));
        } else {
            assert(sgn(d.x - o.x) * t == -t);
            assert(d.x <= o.x - t <= o.x);
            assert(c == (Coord { x: (o.x - t) as i32, y: o.y }));
        }
        assert(manhattan(o, c) == t);
        assert(manhattan(c, d) == (mx - t) + my);
    } else {
        if d.y >= o.y {
            assert(sgn(d.y - o.y) * (t - mx) == t - mx);
            assert(o.y <= o.y + (t - mx) <= d.y);
            assert(c == (Coord { x: d.x, y: (o.y + (t - mx)) as i32 }));
        } else {
            assert(sgn(d.y - o.y) * (t - mx) == -(t - mx));
            assert(d.y <= o.y - (t - mx) <= o.y);
            assert(c == (Coord { x: d.x, y: (o.y - (t - mx)) as i32 }));
        }
        assert(manhattan(o, c) == mx + (t - mx));
        assert(manhattan(c, d) == my - (t - mx));
    }
    if t < manhattan(o, d) {
        lemma_corridor_step(o, d, t);
    }
}

/// One corridor step is a cardinal unit step.
proof fn lemma_corridor_step(o: Coord, d: Coord, t: int)
    requires
        0 <= t < manhattan(o, d),
    ensures
        exists|dir: int|
            0 <= dir < 4 && #[trigger] spec_step(corridor(o, d, t), dir) == Some(
                corridor(o, d, t + 1),
            ),
{
    let mx = vstd::math::abs(o.x - d.x) as int;
    let my = vstd::math::abs(o.y - d.y) as int;
    let c = corridor(o, d, t);
    let c2 = corridor(o, d, t + 1);
    if t < mx {
        if d.x >= o.x {
            assert(sgn(d.x - o.x) * t == t && sgn(d.x - o.x) * (t + 1) == t + 1);
            assert(o.x <= o.x + t < o.x + t + 1 <= d.x);
            assert(c.x == o.x + t && c2.x == o.x + t + 1 && c.y == o.y && c2.y == o.y);
            assert(spec_step(c, 1) == Some(c2));
        } else {
            assert(sgn(d.x - o.x) * t == -t && sgn(d.x - o.x) * (t + 1) == -(t + 1));
            assert(d.x <= o.x - t - 1 < o.x - t <= o.x);
            assert(c.x == o.x - t && c2.x == o.x - t - 1 && c.y == o.y && c2.y == o.y);
            assert(spec_step(c, 3) == Some(c2));
        }
    } else {
        assert(mx <= t && t + 1 > mx);
        if t == mx {
            if d.x >= o.x {
                assert(sgn(d.x - o.x) * t == t);
                assert(c.x == o.x + mx && o.x + mx == d.x);
            } else {
                assert(sgn(d.x - o.x) * t == -t);
                assert(c.x == o.x - mx && o.x - mx == d.x);
            }
            assert(c.y == o.y);
        } else {
            assert(c.x == d.x);
        }
        if d.y >= o.y {
            assert(sgn(d.y - o.y) * (t - mx) == t - mx && sgn(d.y - o.y) * (t + 1 - mx) == t + 1
                - mx);
            assert(o.y <= o.y + (t - mx) < o.y + (t + 1 - mx) <= d.y);
            assert(c.x == d.x && c2.x == d.x);
            assert(c.y == o.y + (t - mx) && c2.y == o.y + (t + 1 - mx));
            assert(spec_step(c, 0) == Some(c2));
        } else {
            assert(sgn(d.y - o.y) * (t - mx) == -(t - mx) && sgn(d.y - o.y) * (t + 1 - mx) == -(t
                + 1 - mx));
            assert(d.y <= o.y - (t + 1 - mx) < o.y - (t - mx) <= o.y);
            assert(c.x == d.x && c2.x == d.x);
            assert(c.y == o.y - (t - mx) && c2.y == o.y - (t + 1 - mx));
            assert(spec_step(c, 2) == Some(c2));
        }
    }
}

/// The squared Euclidean distance between two points.
pub open spec fn spec_d2(a: Coord, b: Coord) -> int {
    (a.x - b.x) * (a.x - b.x) + (a.y - b.y) * (a.y - b.y)
}

/// The squared distance from `p` to the segment from `a` to `b`, as the
/// rational `num / den`: the projection of `p` onto the segment's line is
/// clamped to the segment, so the result is the distance to the nearest
/// segment point.
pub open spec fn spec_seg_d2(a: Coord, b: Coord, p: Coord) -> (int, int) {
    let abx = b.x - a.x;
    let aby = b.y - a.y;
    let apx = p.x - a.x;
    let apy = p.y - a.y;
    let dot = apx * abx + apy * aby;
    let l2 = abx * abx + aby * aby;
    if l2 == 0 || dot <= 0 {
        (apx * apx + apy * apy, 1)
    } else if dot >= l2 {
        ((p.x - b.x) * (p.x - b.x) + (p.y - b.y) * (p.y - b.y), 1)
    } else {
        ((apx * aby - apy * abx) * (apx * aby - apy * abx), l2)
    }
}

/// Points close enough together that squared-distance arithmetic stays far
/// inside `i64`.
pub open spec fn seg_args_bounded(a: Coord, b: Coord, p: Coord) -> bool {
    &&& -256 <= a.x - p.x <= 256 && -256 <= a.y - p.y <= 256
    &&& -256 <= b.x - p.x <= 256 && -256 <= b.y - p.y <= 256
    &&& -3000000 <= p.x <= 3000000 && -3000000 <= p.y <= 3000000
}

/// Computes the squared distance between nearby points.
fn d2_u64(a: Coord, b: Coord) -> (r: u64)
    requires
        -3000000 <= a.x <= 3000000 && -3000000 <= a.y <= 3000000,
        -3000000 <= b.x <= 3000000 && -3000000 <= b.y <= 3000000,
    ensures
        r == spec_d2(a, b),
{
    let dx = (a.x as i64) - (b.x as i64);
    let dy = (a.y as i64) - (b.y as i64);
    proof {
        assert(0 <= dx * dx <= 0x100000000000000 && 0 <= dy * dy <= 0x100000000000000)
            by (nonlinear_arith)
            requires
                -6000000 <= dx <= 6000000 && -6000000 <= dy <= 6000000,
        ;
    }
    (dx * dx + dy * dy) as u64
}

/// Computes the rational squared point-to-segment distance for nearby
/// points, with bounds that keep later cross-multiplied comparisons inside
/// `u64`.
fn seg_d2(a: Coord, b: Coord, p: Coord) -> (r: (u64, u64))
    requires
        seg_args_bounded(a, b, p),
    ensures
        (r.0 as int, r.1 as int) == spec_seg_d2(a, b, p),
        1 <= r.1 <= 0x80000,
        r.0 <= 0x4000000000,
{
    let abx = (b.x as i64) - (a.x as i64);
    let aby = (b.y as i64) - (a.y as i64);
    let apx = (p.x as i64) - (a.x as i64);
    let apy = (p.y as i64) - (a.y as i64);
    proof {
        assert(-0x40000 <= apx * abx <= 0x40000 && -0x40000 <= apy * aby <= 0x40000 && 0 <= apx
            * apx <= 0x40000 && 0 <= apy * apy <= 0x40000 && 0 <= abx * abx <= 0x40000 && 0 <= aby
            * aby <= 0x40000) by (nonlinear_arith)
            requires
                -512 <= abx <= 512 && -512 <= aby <= 512 && -512 <= apx <= 512 && -512 <= apy
                    <= 512,
        ;
    }
    let dot = apx * abx + apy * aby;
    let l2 = abx * abx + aby * aby;
    if l2 == 0 || dot <= 0 {
        ((apx * apx + apy * apy) as u64, 1)
    } else if dot >= l2 {
        let pbx = (p.x as i64) - (b.x as i64);
        let pby = (p.y as i64) - (b.y as i64);
        proof {
            assert(0 <= pbx * pbx <= 0x40000 && 0 <= pby * pby <= 0x40000) by (nonlinear_arith)
                requires
                    -512 <= pbx <= 512 && -512 <= pby <= 512,
            ;
        }
        ((pbx * pbx + pby * pby) as u64, 1)
    } else {
        proof {
            assert(-0x40000 <= apx * aby <= 0x40000 && -0x40000 <= apy * abx <= 0x40000)
                by (nonlinear_arith)
                requires
                    -512 <= abx <= 512 && -512 <= aby <= 512 && -512 <= apx <= 512 && -512 <= apy
                        <= 512,
            ;
        }
        let cross = apx * aby - apy * abx;
        proof {
            assert(0 <= cross * cross <= 0x4000000000) by (nonlinear_arith)
                requires
                    -0x80000 <= cross <= 0x80000,
            ;
        }
        ((cross * cross) as u64, l2 as u64)
    }
}

/// The grid offset of the `i`-th cell of a 3-by-3 neighborhood, scanned row
/// by row; index 4 is the center.
pub open spec fn spec_off(i: int) -> (int, int) {
    (i % 3 - 1, i / 3 - 1)
}

/// The `i`-th cell of the 3-by-3 neighborhood around the cell of `pos`.
pub open spec fn spec_nb_cell(pos: Coord, i: int) -> Coord {
    let c = spec_cell_of(pos);
    Coord { x: (c.x + spec_off(i).0) as i32, y: (c.y + spec_off(i).1) as i32 }
}

/// The jittered center of the `i`-th neighborhood cell around `pos`.
pub open spec fn spec_nb_center(seed: u64, pos: Coord, i: int) -> Coord {
    spec_center(seed, spec_nb_cell(pos, i))
}

/// The squared distance from `pos` to the `i`-th neighborhood center.
pub open spec fn spec_nb_d2(seed: u64, pos: Coord, i: int) -> int {
    spec_d2(spec_nb_center(seed, pos, i), pos)
}

/// `ci` is the first index among the nine neighborhood centers attaining the
/// least squared distance to `pos`.
pub open spec fn first_min(seed: u64, pos: Coord, ci: int) -> bool {
    &&& 0 <= ci < 9
    &&& forall|j: int| 0 <= j < ci ==> #[trigger] spec_nb_d2(seed, pos, j) > spec_nb_d2(seed, pos, ci)
    &&& forall|j: int| 0 <= j < 9 ==> #[trigger] spec_nb_d2(seed, pos, j) >= spec_nb_d2(seed, pos, ci)
}

/// `si` is the first index among the remaining centers attaining the least
/// squared distance to `pos`.
pub open spec fn second_min(seed: u64, pos: Coord, ci: int, si: int) -> bool {
    &&& 0 <= si < 9 && si != ci
    &&& forall|j: int|
        0 <= j < si && j != ci ==> #[trigger] spec_nb_d2(seed, pos, j) > spec_nb_d2(seed, pos, si)
    &&& forall|j: int|
        0 <= j < 9 && j != ci ==> #[trigger] spec_nb_d2(seed, pos, j) >= spec_nb_d2(seed, pos, si)
}

/// The neighborhood index of the cell one cardinal step (+y, +x, -y, -x)
/// from the center cell.
pub open spec fn spec_way_nb(d: int) -> int {
    if d == 0 {
        7
    } else if d == 1 {
        5
    } else if d == 2 {
        1
    } else {
        3
    }
}

/// The way candidate of direction `i` at `pos`: where the home tile carries a
/// way marker on side `i` and `pos` lies within the way's width of the
/// segment from the home center to the neighbor center in that direction,
/// the rational squared distance to that segment.
pub open spec fn spec_way_candidate(land: Land, pos: Coord, t: Tile, i: int) -> Option<
    (int, int),
> {
    match t.ways[i] {
        Some(w) => {
            let nd = spec_seg_d2(
                spec_nb_center(land.seed(), pos, 4),
                spec_nb_center(land.seed(), pos, spec_way_nb(i)),
                pos,
            );
            if nd.0 < spec_way_width(w) * spec_way_width(w) * nd.1 {
                Some(nd)
            } else {
                None
            }
        },
        None => None,
    }
}

/// The way reported by a sample: the marked side, the segment it follows,
/// and the rational squared distance `d2_num / d2_den` from the query point
/// to that segment.
#[derive(Clone, Copy, PartialEq, Eq, Debug)]
pub struct WaySample {
    pub kind: WayKind,
    pub dir: usize,
    pub a: Coord,
    pub b: Coord,
    pub d2_num: u64,
    pub d2_den: u64,
}

/// What the land reports for one world position: the plot of the nearest
/// partition cell (absent where that cell has no tile), the nearest way
/// within reach, a tower within reach of the home cell, and the squared
/// distances to the two nearest centers, from which boundary cross-fade
/// signals are derived.
#[derive(Clone, Copy, PartialEq, Eq, Debug)]
pub struct Sample {
    pub plot: Option<Plot>,
    pub way: Option<WaySample>,
    pub tower: Option<(Tower, Coord)>,
    pub closest_d2: u64,
    pub second_d2: u64,
    pub second_closest: Coord,
}

/// The `i`-th neighborhood cell around `pos`.
fn nb_cell(pos: Coord, i: usize) -> (r: Coord)
    requires
        i < 9,
        world_in_range(pos),
    ensures
        r == spec_nb_cell(pos, i as int),
        tile_in_range(r),
{
    let c = cell_of(pos);
    let (dx, dy): (i32, i32) = match i {
        0 => (-1, -1),
        1 => (0, -1),
        2 => (1, -1),
        3 => (-1, 0),
        4 => (0, 0),
        5 => (1, 0),
        6 => (-1, 1),
        7 => (0, 1),
        _ => (1, 1),
    };
    Coord { x: c.x + dx, y: c.y + dy }
}

/// Compares the rationals `n1 / d1` and `n2 / d2`.
fn rat_lt(n1: u64, d1: u64, n2: u64, d2: u64) -> (r: bool)
    requires
        n1 <= 0x4000000000,
        n2 <= 0x4000000000,
        1 <= d1 <= 0x80000,
        1 <= d2 <= 0x80000,
    ensures
        r == ((n1 as int) * (d2 as int) < (n2 as int) * (d1 as int)),
{
    proof {
        assert(0 <= (n1 as int) * (d2 as int) <= 0x200000000000000 && 0 <= (n2 as int) * (d1 as int)
            <= 0x200000000000000) by (nonlinear_arith)
            requires
                n1 <= 0x4000000000 && n2 <= 0x4000000000 && 1 <= d1 <= 0x80000 && 1 <= d2
                    <= 0x80000,
        ;
    }
    n1 * d2 < n2 * d1
}

impl Land {
    /// Samples the land at the world position `pos`: resolves the plot of
    /// the nearest jittered center's cell, the closest way marker of the
    /// home cell within its width, a tower of the home cell within its
    /// radius, and the two nearest centers' squared distances.
    /// Picks, among the home tile's marked directions whose segment passes
    /// within its way kind's width of `pos`, the one whose segment lies
    /// nearest, later directions winning ties.
    #[verifier::rlimit(100)]
    fn select_way(&self, pos: Coord, tile: Tile, centers: &Vec<Coord>) -> (r: Option<WaySample>)
        requires
            self.wf(),
            world_in_range(pos),
            centers@.len() == 9,
            forall|j: int|
                0 <= j < 9 ==> #[trigger] centers@[j] == spec_nb_center(self.seed(), pos, j),
        ensures
            match r {
                Some(ws) => {
                    &&& t_way_fields(*self, pos, tile, ws)
                    &&& forall|k: int|
                        0 <= k < ws.dir ==> (match #[trigger] spec_way_candidate(
                            *self,
                            pos,
                            tile,
                            k,
                        ) {
                            Some(nd) => nd.0 * ws.d2_den >= ws.d2_num * nd.1,
                            None => true,
                        })
                    &&& forall|k: int|
                        ws.dir < k < 4 ==> (match #[trigger] spec_way_candidate(
                            *self,
                            pos,
                            tile,
                            k,
                        ) {
                            Some(nd) => nd.0 * ws.d2_den > ws.d2_num * nd.1,
                            None => true,
                        })
                },
                None => forall|k: int|
                    0 <= k < 4 ==> #[trigger] spec_way_candidate(*self, pos, tile, k) is None,
            },
    {
        let ghost seed = self.seed();
        let home = centers[4];
        let mut best: Option<WaySample> = None;
        let mut d: usize = 0;
        while d < 4
            invariant
                self.wf(),
                world_in_range(pos),
                seed == self.seed(),
                d <= 4,
                centers@.len() == 9,
                home == spec_nb_center(seed, pos, 4),
                forall|j2: int|
                    0 <= j2 < 9 ==> #[trigger] centers@[j2] == spec_nb_center(seed, pos, j2),
                match best {
                    Some(ws) => {
                        &&& (ws.dir as int) < d
                        &&& t_way_fields(*self, pos, tile, ws)
                        &&& forall|k: int|
                            0 <= k < ws.dir ==> (match #[trigger] spec_way_candidate(
                                *self,
                                pos,
                                tile,
                                k,
                            ) {
                                Some(nd) => nd.0 * ws.d2_den >= ws.d2_num * nd.1,
                                None => true,
                            })
                        &&& forall|k: int|
                            ws.dir < k < d ==> (match #[trigger] spec_way_candidate(
                                *self,
                                pos,
                                tile,
                                k,
                            ) {
                                Some(nd) => nd.0 * ws.d2_den > ws.d2_num * nd.1,
                                None => true,
                            })
                    },
                    None => forall|k: int|
                        0 <= k < d ==> #[trigger] spec_way_candidate(*self, pos, tile, k) is None,
                },
            decreases 4 - d,
        {
            match way_slot(&tile.ways, d) {
                Some(w) => {
                    let nbi: usize = match d {
                        0 => 7,
                        1 => 5,
                        2 => 1,
                        _ => 3,
                    };
                    let a = home;
                    let b = centers[nbi];
                    proof {
                        assert(b == spec_nb_center(seed, pos, spec_way_nb(d as int)));
                        lemma_center_near(seed, pos, 4);
                        lemma_center_near(seed, pos, spec_way_nb(d as int));
                    }
                    let (num, den) = seg_d2(a, b, pos);
                    let ww = w.width() as u64;
                    proof {
                        assert(0 <= (ww as int) * (ww as int) * (den as int) <= 0x100000000)
                            by (nonlinear_arith)
                            requires
                                ww <= 4 && 1 <= den <= 0x80000,
                        ;
                    }
                    if num < ww * ww * den {
                        let cand = WaySample { kind: w, dir: d, a, b, d2_num: num, d2_den: den };
                        proof {
                            assert(spec_way_candidate(*self, pos, tile, d as int) == Some((
                                num as int,
                                den as int,
                            )));
                        }
                        match best {
                            Some(ws) => {
                                if !rat_lt(ws.d2_num, ws.d2_den, num, den) {
                                    proof {
                                        let wsn = ws.d2_num as int;
                                        let wsd = ws.d2_den as int;
                                        assert(wsn * (den as int) >= (num as int) * wsd);
                                        assert forall|k: int|
                                            0 <= k < d implies (match #[trigger] spec_way_candidate(
                                            *self,
                                            pos,
                                            tile,
                                            k,
                                        ) {
                                            Some(nd) => nd.0 * (den as int) >= (num as int)
                                                * nd.1,
                                            None => true,
                                        }) by {
                                            match spec_way_candidate(*self, pos, tile, k) {
                                                Some(nd) => {
                                                    assert(nd.1 >= 1);
                                                    if k == ws.dir {
                                                        assert(nd == (wsn, wsd));
                                                    } else if k < ws.dir {
                                                        lemma_rat_trans_le(
                                                            nd.0,
                                                            nd.1,
                                                            wsn,
                                                            wsd,
                                                            num as int,
                                                            den as int,
                                                        );
                                                    } else {
                                                        lemma_rat_trans_lt(
                                                            nd.0,
                                                            nd.1,
                                                            wsn,
                                                            wsd,
                                                            num as int,
                                                            den as int,
                                                        );
                                                    }
                                                },
                                                None => {},
                                            }
                                        }
                                    }
                                    best = Some(cand);
                                }
                            },
                            None => {
                                best = Some(cand);
                            },
                        }
                    } else {
                        proof {
                            assert(spec_way_candidate(*self, pos, tile, d as int) is None);
                        }
                    }
                },
                None => {},
            }
            d = d + 1;
        }
        best
    }

    #[verifier::rlimit(100)]
    pub fn get_at_block(&self, pos: Coord) -> (r: Sample)
        requires
            self.wf(),
            world_in_range(pos),
        ensures
            exists|ci: int, si: int|
                {
                    &&& #[trigger] first_min(self.seed(), pos, ci)
                    &&& #[trigger] second_min(self.seed(), pos, ci, si)
                    &&& r.plot == self.spec_plot_at(spec_nb_cell(pos, ci))
                    &&& r.closest_d2 == spec_nb_d2(self.seed(), pos, ci)
                    &&& r.second_d2 == spec_nb_d2(self.seed(), pos, si)
                    &&& r.second_closest == spec_nb_cell(pos, si)
                },
            match self.spec_tile_at(spec_cell_of(pos)) {
                Some(t) => {
                    &&& r.tower == (match t.tower {
                        Some(tw) => if spec_nb_d2(self.seed(), pos, 4) < 36 {
                            Some((tw, spec_nb_center(self.seed(), pos, 4)))
                        } else {
                            None
                        },
                        None => None,
                    })
                    &&& match r.way {
                        Some(ws) => {
                            &&& ws.dir < 4
                            &&& t.ways[ws.dir as int] == Some(ws.kind)
                            &&& ws.a == spec_nb_center(self.seed(), pos, 4)
                            &&& ws.b == spec_nb_center(
                                self.seed(),
                                pos,
                                spec_way_nb(ws.dir as int),
                            )
                            &&& spec_way_candidate(*self, pos, t, ws.dir as int) == Some(
                                ((ws.d2_num as int), (ws.d2_den as int)),
                            )
                            &&& forall|k: int|
                                0 <= k < ws.dir ==> (match #[trigger] spec_way_candidate(
                                    *self,
                                    pos,
                                    t,
                                    k,
                                ) {
                                    Some(nd) => nd.0 * ws.d2_den >= ws.d2_num * nd.1,
                                    None => true,
                                })
                            &&& forall|k: int|
                                ws.dir < k < 4 ==> (match #[trigger] spec_way_candidate(
                                    *self,
                                    pos,
                                    t,
                                    k,
                                ) {
                                    Some(nd) => nd.0 * ws.d2_den > ws.d2_num * nd.1,
                                    None => true,
                                })
                        },
                        None => forall|k: int|
                            0 <= k < 4 ==> #[trigger] spec_way_candidate(*self, pos, t, k) is None,
                    }
                },
                None => r.tower is None && r.way is None,
            },
    {
        let ghost seed = self.seed();
        let mut centers: Vec<Coord> = Vec::new();
        let mut i: usize = 0;
        while i < 9
            invariant
                self.wf(),
                world_in_range(pos),
                seed == self.seed(),
                i <= 9,
                centers@.len() == i,
                forall|j: int|
                    0 <= j < i ==> #[trigger] centers@[j] == spec_nb_center(seed, pos, j),
            decreases 9 - i,
        {
            centers.push(self.partition.center(nb_cell(pos, i)));
            i = i + 1;
        }
        let mut ds: Vec<u64> = Vec::new();
        let mut i: usize = 0;
        while i < 9
            invariant
                world_in_range(pos),
                i <= 9,
                centers@.len() == 9,
                forall|j: int|
                    0 <= j < 9 ==> #[trigger] centers@[j] == spec_nb_center(seed, pos, j),
                forall|j: int|
                    0 <= j < 9 ==> -2001000 <= (#[trigger] centers@[j]).x <= 2001000 && -2001000
                        <= centers@[j].y <= 2001000,
                ds@.len() == i,
                forall|j: int| 0 <= j < i ==> #[trigger] ds@[j] == spec_nb_d2(seed, pos, j),
            decreases 9 - i,
        {
            ds.push(d2_u64(centers[i], pos));
            i = i + 1;
        }
        let mut ci: usize = 0;
        let mut j: usize = 1;
        while j < 9
            invariant
                ds@.len() == 9,
                ci < j <= 9,
                forall|k: int| 0 <= k < j ==> #[trigger] ds@[k] >= ds@[ci as int],
                forall|k: int| 0 <= k < ci ==> #[trigger] ds@[k] > ds@[ci as int],
            decreases 9 - j,
        {
            if ds[j] < ds[ci] {
                ci = j;
            }
            j = j + 1;
        }
        let mut si: usize = if ci == 0 {
            1
        } else {
            0
        };
        let mut j: usize = si + 1;
        while j < 9
            invariant
                ds@.len() == 9,
                ci < 9,
                si != ci,
                si < j <= 9,
                si == 0 || (si == 1 && ci == 0) || si > 0,
                forall|k: int| 0 <= k < j && k != ci ==> #[trigger] ds@[k] >= ds@[si as int],
                forall|k: int| 0 <= k < si && k != ci ==> #[trigger] ds@[k] > ds@[si as int],
            decreases 9 - j,
        {
            if j != ci && ds[j] < ds[si] {
                si = j;
            }
            j = j + 1;
        }
        let home = centers[4];
        let home_cell = nb_cell(pos, 4);
        proof {
            assert(spec_nb_cell(pos, 4) == spec_cell_of(pos));
        }
        let t = self.tile_at(home_cell);
        let tower: Option<(Tower, Coord)> = match t {
            Some(tile) => match tile.tower {
                Some(tw) => {
                    if d2_u64(home, pos) < 36 {
                        Some((tw, home))
                    } else {
                        None
                    }
                },
                None => None,
            },
            None => None,
        };
        let way: Option<WaySample> = match t {
            Some(tile) => self.select_way(pos, tile, &centers),
            None => None,
        };
        let plot = self.plot_at(nb_cell(pos, ci));
        let r = Sample {
            plot,
            way,
            tower,
            closest_d2: ds[ci],
            second_d2: ds[si],
            second_closest: nb_cell(pos, si),
        };
        proof {
            assert forall|j: int| 0 <= j < 9 implies #[trigger] spec_nb_d2(seed, pos, j)
                >= spec_nb_d2(seed, pos, ci as int) by {
                assert(ds@[j] >= ds@[ci as int]);
            }
            assert forall|j: int| 0 <= j < ci implies #[trigger] spec_nb_d2(seed, pos, j)
                > spec_nb_d2(seed, pos, ci as int) by {
                assert(ds@[j] > ds@[ci as int]);
            }
            assert forall|j: int| 0 <= j < 9 && j != ci implies #[trigger] spec_nb_d2(seed, pos, j)
                >= spec_nb_d2(seed, pos, si as int) by {
                assert(ds@[j] >= ds@[si as int]);
            }
            assert forall|j: int|
                0 <= j < si && j != ci implies #[trigger] spec_nb_d2(seed, pos, j) > spec_nb_d2(
                seed,
                pos,
                si as int,
            ) by {
                assert(ds@[j] > ds@[si as int]);
            }
            assert(first_min(seed, pos, ci as int));
            assert(second_min(seed, pos, ci as int, si as int));
        }
        r
    }
}

/// Transitivity of rational comparison by cross-multiplication, non-strict.
proof fn lemma_rat_trans_le(n1: int, d1: int, n2: int, d2: int, n3: int, d3: int)
    requires
        d1 >= 1,
        d2 >= 1,
        d3 >= 1,
        n1 * d2 >= n2 * d1,
        n2 * d3 >= n3 * d2,
    ensures
        n1 * d3 >= n3 * d1,
{
    assert((n1 * d2) * d3 >= (n2 * d1) * d3) by (nonlinear_arith)
        requires
            d3 >= 1 && n1 * d2 >= n2 * d1,
    ;
    assert((n2 * d3) * d1 >= (n3 * d2) * d1) by (nonlinear_arith)
        requires
            d1 >= 1 && n2 * d3 >= n3 * d2,
    ;
    assert(n1 * d3 * d2 >= n3 * d1 * d2) by (nonlinear_arith)
        requires
            (n1 * d2) * d3 >= (n2 * d1) * d3 && (n2 * d3) * d1 >= (n3 * d2) * d1,
    ;
    assert(n1 * d3 >= n3 * d1) by (nonlinear_arith)
        requires
            d2 >= 1 && n1 * d3 * d2 >= n3 * d1 * d2,
    ;
}

/// Transitivity of rational comparison by cross-multiplication, strict on
/// the first step.
proof fn lemma_rat_trans_lt(n1: int, d1: int, n2: int, d2: int, n3: int, d3: int)
    requires
        d1 >= 1,
        d2 >= 1,
        d3 >= 1,
        n1 * d2 > n2 * d1,
        n2 * d3 >= n3 * d2,
    ensures
        n1 * d3 > n3 * d1,
{
    assert((n1 * d2) * d3 > (n2 * d1) * d3) by (nonlinear_arith)
        requires
            d3 >= 1 && n1 * d2 > n2 * d1,
    ;
    assert((n2 * d3) * d1 >= (n3 * d2) * d1) by (nonlinear_arith)
        requires
            d1 >= 1 && n2 * d3 >= n3 * d2,
    ;
    assert(n1 * d3 * d2 > n3 * d1 * d2) by (nonlinear_arith)
        requires
            (n1 * d2) * d3 > (n2 * d1) * d3 && (n2 * d3) * d1 >= (n3 * d2) * d1,
    ;
    assert(n1 * d3 > n3 * d1) by (nonlinear_arith)
        requires
            d2 >= 1 && n1 * d3 * d2 > n3 * d1 * d2,
    ;
}

/// The fixed fields of a reported way sample: its marker, segment and
/// rational distance all describe the claimed direction.
pub open spec fn t_way_fields(land: Land, pos: Coord, t: Tile, ws: WaySample) -> bool {
    &&& ws.dir < 4
    &&& t.ways[ws.dir as int] == Some(ws.kind)
    &&& ws.a == spec_nb_center(land.seed(), pos, 4)
    &&& ws.b == spec_nb_center(land.seed(), pos, spec_way_nb(ws.dir as int))
    &&& spec_way_candidate(land, pos, t, ws.dir as int) == Some(
        ((ws.d2_num as int), (ws.d2_den as int)),
    )
    &&& ws.d2_num <= 0x4000000000
    &&& 1 <= ws.d2_den <= 0x80000
}

/// Neighborhood centers stay within one cell of the query position's cell,
/// so their coordinates stay near the query position.
proof fn lemma_center_near(seed: u64, pos: Coord, i: int)
    requires
        world_in_range(pos),
        0 <= i < 9,
    ensures
        -256 <= spec_nb_center(seed, pos, i).x - pos.x <= 256,
        -256 <= spec_nb_center(seed, pos, i).y - pos.y <= 256,
        -2001000 <= spec_nb_center(seed, pos, i).x <= 2001000,
        -2001000 <= spec_nb_center(seed, pos, i).y <= 2001000,
{
    let cell = spec_cell_of(pos);
    vstd::arithmetic::div_mod::lemma_fundamental_div_mod(pos.x as int, 32);
    vstd::arithmetic::div_mod::lemma_fundamental_div_mod(pos.y as int, 32);
    assert(32 * (pos.x as int / 32) <= pos.x < 32 * (pos.x as int / 32) + 32);
    assert(32 * (pos.y as int / 32) <= pos.y < 32 * (pos.y as int / 32) + 32);
    assert(-62501 <= cell.x <= 62501 && -62501 <= cell.y <= 62501);
    let nc = spec_nb_cell(pos, i);
    assert(-62502 <= nc.x <= 62502 && -62502 <= nc.y <= 62502);
    assert(-1 <= spec_off(i).0 <= 1 && -1 <= spec_off(i).1 <= 1);
    assert(nc.x * 32 + 4 <= spec_nb_center(seed, pos, i).x <= nc.x * 32 + 28);
    assert(nc.y * 32 + 4 <= spec_nb_center(seed, pos, i).y <= nc.y * 32 + 28);
    assert(nc.x * 32 == cell.x * 32 + spec_off(i).0 * 32);
    assert(nc.y * 32 == cell.y * 32 + spec_off(i).1 * 32);
}

/// Every in-range cardinal step off a region member lands in the region or
/// on a plot the predicate was seen to reject.
pub open spec fn step_covered<F: Fn(Option<Plot>) -> bool>(
    s: Seq<Coord>,
    land: Land,
    f: F,
    c: Coord,
    d: int,
) -> bool {
    match spec_step(c, d) {
        Some(n) => s.contains(n) || call_ensures(f, (land.spec_plot_at(n),), false),
        None => true,
    }
}

/// A grown region whose frontier emptied: no member has an unvisited
/// neighbor that the predicate was not seen to reject.
pub open spec fn region_saturated<F: Fn(Option<Plot>) -> bool>(
    s: Seq<Coord>,
    land: Land,
    f: F,
) -> bool {
    forall|i: int, d: int| 0 <= i < s.len() && 0 <= d < 4 ==> step_covered(s, land, f, s[i], d)
}

/// A region all of whose in-range cardinal neighbors are inside it.
pub open spec fn closed_under_steps(s: Seq<Coord>) -> bool {
    forall|i: int, d: int|
        0 <= i < s.len() && 0 <= d < 4 ==> match #[trigger] spec_step(s[i], d) {
            Some(n) => s.contains(n),
            None => true,
        }
}

/// The `k`-th coordinate of the row walked from `c0` in direction `sign`.
pub open spec fn row_coord(c0: Coord, sign: int, k: int) -> Coord {
    Coord { x: (c0.x + sign * k) as i32, y: c0.y }
}

/// Walking along a row stays inside a step-closed region: each step of the
/// walk is an in-range cardinal step off a member.
proof fn lemma_row_in_closed(s: Seq<Coord>, c0: Coord, sign: int, k: int)
    requires
        closed_under_steps(s),
        s.contains(c0),
        sign == 1 || sign == -1,
        sign == 1 ==> c0.x <= 0,
        sign == -1 ==> c0.x > 0,
        0 <= k <= GROW_CAP,
    ensures
        s.contains(row_coord(c0, sign, k)),
    decreases k,
{
    if k == 0 {
        assert(row_coord(c0, sign, 0) == c0);
    } else {
        lemma_row_in_closed(s, c0, sign, k - 1);
        let prev = row_coord(c0, sign, k - 1);
        let i = choose|i: int| 0 <= i < s.len() && s[i] == prev;
        let d: int = if sign == 1 {
            1
        } else {
            3
        };
        assert(spec_step(prev, d) == Some(row_coord(c0, sign, k)));
        assert(match spec_step(s[i], d) {
            Some(n) => s.contains(n),
            None => true,
        });
    }
}

/// The set of the first `n` coordinates of a row.
pub open spec fn row_set(c0: Coord, sign: int, n: int) -> Set<Coord> {
    Set::new(
        |c: Coord|
            c.y == c0.y && if sign == 1 {
                c0.x <= c.x < c0.x + n
            } else {
                c0.x - n < c.x <= c0.x
            },
    )
}

/// The first `n` coordinates of a row form a finite set of exactly `n`
/// elements.
proof fn lemma_row_set_card(c0: Coord, sign: int, n: int)
    requires
        sign == 1 || sign == -1,
        sign == 1 ==> c0.x <= 0,
        sign == -1 ==> c0.x > 0,
        0 <= n <= GROW_CAP,
    ensures
        row_set(c0, sign, n).finite(),
        row_set(c0, sign, n).len() == n,
    decreases n,
{
    if n == 0 {
        assert(row_set(c0, sign, 0) =~= Set::<Coord>::empty());
    } else {
        lemma_row_set_card(c0, sign, n - 1);
        let cn = row_coord(c0, sign, n - 1);
        assert(row_set(c0, sign, n) =~= row_set(c0, sign, n - 1).insert(cn));
        assert(!row_set(c0, sign, n - 1).contains(cn));
    }
}

/// A nonempty region closed under cardinal steps cannot be small: it holds a
/// whole coordinate row, so it has at least `n` members for any `n` up to
/// the growth cap.
pub proof fn lemma_closed_seq_len(s: Seq<Coord>, n: int)
    requires
        s.len() >= 1,
        closed_under_steps(s),
        0 <= n <= GROW_CAP,
    ensures
        s.len() >= n,
{
    let c0 = s[0];
    assert(s.contains(c0));
    let sign: int = if c0.x <= 0 {
        1
    } else {
        -1
    };
    let t = row_set(c0, sign, n);
    lemma_row_set_card(c0, sign, n);
    assert forall|c: Coord| t.contains(c) implies s.to_set().contains(c) by {
        let k: int = if sign == 1 {
            c.x - c0.x
        } else {
            c0.x - c.x
        };
        assert(c == row_coord(c0, sign, k));
        lemma_row_in_closed(s, c0, sign, k);
    }
    assert(s.to_set().finite()) by {
        broadcast use vstd::seq_lib::seq_to_set_is_finite;

    }
    vstd::set_lib::lemma_len_subset(t, s.to_set());
    s.lemma_cardinality_of_set();
}

/// Linear membership scan of a coordinate list.
fn vec_contains(v: &Vec<Coord>, c: Coord) -> (r: bool)
    ensures
        r == v@.contains(c),
{
    let mut i: usize = 0;
    while i < v.len()
        invariant
            i <= v@.len(),
            forall|j: int| 0 <= j < i ==> v@[j] != c,
        decreases v@.len() - i,
    {
        if v[i] == c {
            return true;
        }
        i = i + 1;
    }
    false
}

/// Which way slot the step from `a` to `b` marks on `a`: defined only for a
/// cardinal unit step, where exactly one axis changes by exactly one; any
/// other delta marks nothing.
pub open spec fn spec_step_side(a: Coord, b: Coord) -> Option<int> {
    if b.x == a.x && b.y == a.y + 1 {
        Some(0int)
    } else if b.y == a.y && b.x == a.x + 1 {
        Some(1int)
    } else if b.x == a.x && b.y + 1 == a.y {
        Some(2int)
    } else if b.y == a.y && b.x + 1 == a.x {
        Some(3int)
    } else {
        None
    }
}

/// The tile under `k` is present and either carries a way marker on `side`
/// or its plot was seen to be refused by `permit`.
pub open spec fn side_marked_or_rejected<F: Fn(Plot) -> bool>(
    tiles: Map<u64, Tile>,
    plots: Seq<Plot>,
    permit: F,
    k: u64,
    side: int,
) -> bool {
    &&& tiles.contains_key(k)
    &&& (tiles[k].ways[side] is Some || call_ensures(
        permit,
        (plots[tiles[k].plot.idx as int],),
        false,
    ))
}

/// `side_marked_or_rejected` survives further way writing: markers are never
/// cleared, and plot references of existing tiles never change.
proof fn lemma_marked_stable<F: Fn(Plot) -> bool>(
    pre: Map<u64, Tile>,
    post: Map<u64, Tile>,
    plots: Seq<Plot>,
    permit: F,
    k: u64,
    side: int,
    kind: WayKind,
    overwrite: bool,
    hazard: PlotId,
)
    requires
        way_written(pre, post, kind, overwrite, hazard),
        side_marked_or_rejected(pre, plots, permit, k, side),
        0 <= side < 4,
    ensures
        side_marked_or_rejected(post, plots, permit, k, side),
{
}

/// How a tile map may change under way writing: the tile set only grows, a
/// tile created along the way is a bare placeholder referencing the hazard
/// plot, plot and tower state of existing tiles is untouched, a way slot
/// either keeps its value or takes the written kind, a present marker is
/// never cleared, and without `overwrite` a present marker is never changed
/// at all.
pub open spec fn way_written(
    pre: Map<u64, Tile>,
    post: Map<u64, Tile>,
    kind: WayKind,
    overwrite: bool,
    hazard: PlotId,
) -> bool {
    &&& forall|k: u64| pre.contains_key(k) ==> post.contains_key(k)
    &&& forall|k: u64| #[trigger]
        post.contains_key(k) ==> if pre.contains_key(k) {
            post[k].plot == pre[k].plot && post[k].tower == pre[k].tower
        } else {
            post[k].plot == hazard && post[k].tower is None
        }
    &&& forall|k: u64, i: int|
        0 <= i < 4 && #[trigger] post.contains_key(k) ==> #[trigger] post[k].ways[i] == (if pre.contains_key(
            k,
        ) {
            pre[k].ways[i]
        } else {
            None
        }) || post[k].ways[i] == Some(kind)
    &&& forall|k: u64, i: int|
        0 <= i < 4 && pre.contains_key(k) && pre[k].ways[i] is Some ==> (#[trigger] post[k].ways[i]) is Some
    &&& !overwrite ==> forall|k: u64, i: int|
        0 <= i < 4 && pre.contains_key(k) && pre[k].ways[i] is Some ==> #[trigger] post[k].ways[i]
            == pre[k].ways[i]
}

/// `way_written` composes across consecutive writes.
pub proof fn lemma_way_written_trans(
    a: Map<u64, Tile>,
    b: Map<u64, Tile>,
    c: Map<u64, Tile>,
    kind: WayKind,
    overwrite: bool,
    hazard: PlotId,
)
    requires
        way_written(a, b, kind, overwrite, hazard),
        way_written(b, c, kind, overwrite, hazard),
    ensures
        way_written(a, c, kind, overwrite, hazard),
{
}

/// Reads one slot of a way-marker array.
fn way_slot(w: &[Option<WayKind>; 4], i: usize) -> (r: Option<WayKind>)
    requires
        i < 4,
    ensures
        r == w[i as int],
{
    w[i]
}

/// Replaces one slot of a way-marker array.
fn set_way_slot(w: [Option<WayKind>; 4], i: usize, v: Option<WayKind>) -> (r: [Option<
    WayKind,
>; 4])
    requires
        i < 4,
    ensures
        r[i as int] == v,
        forall|j: int| 0 <= j < 4 && j != i ==> r[j] == w[j],
{
    match i {
        0 => [v, way_slot(&w, 1), way_slot(&w, 2), way_slot(&w, 3)],
        1 => [way_slot(&w, 0), v, way_slot(&w, 2), way_slot(&w, 3)],
        2 => [way_slot(&w, 0), way_slot(&w, 1), v, way_slot(&w, 3)],
        _ => [way_slot(&w, 0), way_slot(&w, 1), way_slot(&w, 2), v],
    }
}

} // verus!
