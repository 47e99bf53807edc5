//! The settlement: the top-level orchestrator owning a land, a farm
//! registry, a list of placed structures and an optional town plan, built by
//! a pipeline of hazard designation, farm and field growth, town delegation
//! and collision-checked building placement.

use vstd::prelude::*;

use crate::coord::{adjacent, lemma_key_injective, spec_key, Coord};
use crate::land::{first_min, second_min, spec_nb_cell, spec_nb_d2, way_written, Land};
use crate::noise::{spec_noise, Noise};
use crate::partition::{spec_cell_of, world_in_range};
use crate::plot::{Crop, FarmId, Plot, PlotId, Tile, WayKind};
use crate::rng::GenRng;
use crate::spiral::{cheb, in_spiral_range, spiral};

verus! {

/// The settlement's extent in world blocks.
pub const RADIUS: u32 = 400;

/// The settlement's extent in tiles: its radius over the tile side length.
pub const TILE_RADIUS: u32 = 12;

/// How many farms generation attempts to place.
pub const FARM_COUNT: u32 = 6;

/// How many fields each farm grows.
pub const FIELDS_PER_FARM: u32 = 5;

/// The largest number of tiles a field may cover.
pub const MAX_FIELD_SIZE: u32 = 24;

/// Bound on a settlement's world-space origin, far beyond any world's size
/// but keeping every derived coordinate inside `i32`.
pub open spec fn origin_in_range(c: Coord) -> bool {
    -1000000 <= c.x <= 1000000 && -1000000 <= c.y <= 1000000
}

/// The world simulation as the settlement consumes it: suitability of a
/// chunk for hosting, approximate altitude, and proximity of a world path.
/// Each query is a pure function of its argument, stated by a matching spec
/// function that implementations define.
pub trait WorldOracle {
    /// What `can_host_settlement` answers.
    spec fn spec_can_host(&self, chunk: Coord) -> bool;

    /// What `alt_approx` answers.
    spec fn spec_alt(&self, wpos: Coord) -> i32;

    /// What `near_path` answers.
    spec fn spec_near_path(&self, wpos: Coord) -> bool;

    /// Whether the chunk holding a candidate cell is free of rivers, lakes
    /// and steep slopes.
    fn can_host_settlement(&self, chunk: Coord) -> (r: bool)
        ensures
            r == self.spec_can_host(chunk),
    ;

    /// The approximate ground altitude at a world position.
    fn alt_approx(&self, wpos: Coord) -> (r: i32)
        ensures
            r == self.spec_alt(wpos),
    ;

    /// Whether a world path passes too near a world position to build on.
    fn near_path(&self, wpos: Coord) -> (r: bool)
        ensures
            r == self.spec_near_path(wpos),
    ;
}

/// Generation context: the optional world oracle and the seeded random
/// source threaded through the pipeline.
pub struct GenCtx<'a, O> {
    pub sim: Option<&'a O>,
    pub rng: GenRng,
}

/// An axis-aligned tile-space rectangle, exclusive of its upper bounds.
#[derive(Clone, Copy, PartialEq, Eq, Structural, Debug)]
pub struct Rect {
    pub min: Coord,
    pub max: Coord,
}

/// Whether two rectangles share any point.
pub open spec fn spec_overlap(a: Rect, b: Rect) -> bool {
    a.min.x < b.max.x && b.min.x < a.max.x && a.min.y < b.max.y && b.min.y < a.max.y
}

/// Tests whether two rectangles share any point.
pub fn rects_overlap(a: Rect, b: Rect) -> (r: bool)
    ensures
        r == spec_overlap(a, b),
{
    a.min.x < b.max.x && b.min.x < a.max.x && a.min.y < b.max.y && b.min.y < a.max.y
}

/// An axis-aligned world-space box, exclusive of its upper bounds.
#[derive(Clone, Copy, PartialEq, Eq, Structural, Debug)]
pub struct Cube {
    pub min_x: i32,
    pub min_y: i32,
    pub min_z: i32,
    pub max_x: i32,
    pub max_y: i32,
    pub max_z: i32,
}

/// One town district: its tile-space footprint and its ground altitude.
#[derive(Clone, Copy, PartialEq, Eq, Structural, Debug)]
pub struct District {
    pub aabr: Rect,
    pub alt: i32,
}

/// A town layout, as the delegated town generator returns it.
pub struct TownPlan {
    pub base_tile: Coord,
    pub districts: Vec<District>,
}

/// The delegated town generator: given the settlement's world origin and the
/// chosen base tile, lays out a town's districts.
pub trait TownGenerator {
    fn generate(&mut self, rng: &mut GenRng, origin: Coord, base_tile: Coord) -> TownPlan;
}

/// The footprint a delegated building generator commits to: the building's
/// tile-space 2D bounds and world-space 3D bounds.
#[derive(Clone, Copy, PartialEq, Eq, Structural, Debug)]
pub struct StructurePlan {
    pub bounds_2d: Rect,
    pub bounds: Cube,
}

/// The delegated building generator: given a world position and altitude,
/// commits to a building footprint; `keep` asks for the town's keep rather
/// than a house.
pub trait BuildingGenerator {
    fn generate(&mut self, rng: &mut GenRng, wpos: Coord, alt: i32, keep: bool) -> StructurePlan;
}

/// What kind of building a placed structure is.
#[derive(Clone, Copy, PartialEq, Eq, Structural, Debug)]
pub enum StructureKind {
    House,
    Keep,
}

/// A placed building: its kind and the bounds its generator committed to.
/// Structures are appended in placement order and never moved or removed.
#[derive(Clone, Copy, PartialEq, Eq, Structural, Debug)]
pub struct Structure {
    kind: StructureKind,
    plan: StructurePlan,
}

impl Structure {
    /// The structure's kind.
    pub closed spec fn spec_kind(&self) -> StructureKind {
        self.kind
    }

    /// The structure's 2D bounds.
    pub closed spec fn spec_bounds_2d(&self) -> Rect {
        self.plan.bounds_2d
    }

    /// The structure's 3D bounds.
    pub closed spec fn spec_bounds(&self) -> Cube {
        self.plan.bounds
    }

    /// The structure's 2D bounding rectangle.
    pub fn bounds_2d(&self) -> (r: Rect)
        ensures
            r == self.spec_bounds_2d(),
    {
        self.plan.bounds_2d
    }

    /// The structure's 3D bounding box.
    pub fn bounds(&self) -> (r: Cube)
        ensures
            r == self.spec_bounds(),
    {
        self.plan.bounds
    }

    /// The structure's kind.
    pub fn kind(&self) -> (r: StructureKind)
        ensures
            r == self.spec_kind(),
    {
        self.kind
    }
}

/// A farm: the base tile it was registered at. Farms exist only as grouping
/// keys for fields and are never removed.
#[derive(Clone, Copy, PartialEq, Eq, Structural, Debug)]
pub struct Farm {
    pub base_tile: Coord,
}

/// No two structures' 2D bounds overlap.
pub open spec fn structures_disjoint(ss: Seq<Structure>) -> bool {
    forall|i: int, j: int|
        0 <= i < j < ss.len() ==> !spec_overlap(
            (#[trigger] ss[i]).spec_bounds_2d(),
            (#[trigger] ss[j]).spec_bounds_2d(),
        )
}

/// The settlement itself.
pub struct Settlement {
    name: String,
    seed: u32,
    origin: Coord,
    land: Land,
    farms: Vec<Farm>,
    structures: Vec<Structure>,
    town: Option<TownPlan>,
    noise: Noise,
}

impl Settlement {
    /// The settlement's land.
    pub closed spec fn land(&self) -> Land {
        self.land
    }

    /// The placed structures, in placement order.
    pub closed spec fn structures(&self) -> Seq<Structure> {
        self.structures@
    }

    /// The farm registry.
    pub closed spec fn farms(&self) -> Seq<Farm> {
        self.farms@
    }

    /// The town plan, once town placement has succeeded.
    pub closed spec fn town_base(&self) -> Option<Coord> {
        match self.town {
            Some(t) => Some(t.base_tile),
            None => None,
        }
    }

    /// The placed town's districts, once town placement has succeeded.
    pub closed spec fn town_districts(&self) -> Option<Seq<District>> {
        match self.town {
            Some(t) => Some(t.districts@),
            None => None,
        }
    }

    /// The settlement's world-space origin.
    pub closed spec fn spec_origin(&self) -> Coord {
        self.origin
    }

    /// The settlement's name.
    pub closed spec fn spec_name(&self) -> Seq<char> {
        self.name@
    }

    /// The settlement's seed.
    pub closed spec fn spec_seed(&self) -> u32 {
        self.seed
    }

    /// The dithering noise field's seed.
    pub closed spec fn noise_seed(&self) -> u64 {
        self.noise.seed
    }

    /// Well-formedness: the land is well-formed, no two placed structures
    /// overlap, and the origin is in range.
    pub open spec fn wf(&self) -> bool {
        &&& self.land().wf()
        &&& structures_disjoint(self.structures())
        &&& origin_in_range(self.spec_origin())
    }

    /// The settlement's name.
    pub fn name(&self) -> (r: &str)
        ensures
            r@ == self.spec_name(),
    {
        self.name.as_str()
    }

    /// The settlement's world-space origin.
    pub fn get_origin(&self) -> (r: Coord)
        ensures
            r == self.spec_origin(),
    {
        self.origin
    }

    /// The settlement's seed.
    pub fn seed(&self) -> (r: u32)
        ensures
            r == self.spec_seed(),
    {
        self.seed
    }

    /// The settlement's extent in world blocks.
    pub fn radius(&self) -> (r: i32)
        ensures
            r == RADIUS,
    {
        400
    }

    /// Read access to the land.
    pub fn land_ref(&self) -> (r: &Land)
        ensures
            *r == self.land(),
    {
        &self.land
    }

    /// How many farms were registered.
    pub fn farm_count(&self) -> (r: usize)
        ensures
            r == self.farms().len(),
    {
        self.farms.len()
    }

    /// The farm registered under `id`, if any.
    pub fn farm(&self, id: FarmId) -> (r: Option<Farm>)
        ensures
            r == (if id.idx < self.farms().len() {
                Some(self.farms()[id.idx as int])
            } else {
                None
            }),
    {
        if id.idx < self.farms.len() {
            Some(self.farms[id.idx])
        } else {
            None
        }
    }

    /// How many structures were placed.
    pub fn structure_count(&self) -> (r: usize)
        ensures
            r == self.structures().len(),
    {
        self.structures.len()
    }

    /// The `i`-th placed structure.
    pub fn structure(&self, i: usize) -> (r: Option<Structure>)
        ensures
            r == (if i < self.structures().len() {
                Some(self.structures()[i as int])
            } else {
                None
            }),
    {
        if i < self.structures.len() {
            Some(self.structures[i])
        } else {
            None
        }
    }

    /// The placed town's base tile, once town placement has succeeded.
    pub fn town_base_tile(&self) -> (r: Option<Coord>)
        ensures
            r == self.town_base(),
    {
        match &self.town {
            Some(t) => Some(t.base_tile),
            None => None,
        }
    }

    /// The placed town's `i`-th district, if a town was placed and it has
    /// that many districts.
    pub fn town_district(&self, i: usize) -> (r: Option<District>)
        ensures
            r == (match self.town_districts() {
                Some(ds) => if i < ds.len() {
                    Some(ds[i as int])
                } else {
                    None
                },
                None => None,
            }),
    {
        match &self.town {
            Some(t) => {
                if i < t.districts.len() {
                    Some(t.districts[i])
                } else {
                    None
                }
            },
            None => None,
        }
    }
}

/// The `s`-th of the four sub-points probed inside the tile `c` during
/// hazard designation: the tile's world-space corner plus a half-tile step
/// per axis.
pub open spec fn spec_subpoint(origin: Coord, c: Coord, s: int) -> Coord {
    Coord {
        x: (origin.x + c.x * 32 + (s % 2) * 16) as i32,
        y: (origin.y + c.y * 32 + (s / 2) * 16) as i32,
    }
}

/// Whether the world oracle forces the tile `c` to be designated hazardous:
/// some probed sub-point lies in a chunk that cannot host a settlement.
pub open spec fn spec_oracle_rejects<O: WorldOracle>(sim: &O, origin: Coord, c: Coord) -> bool {
    exists|s: int| 0 <= s < 4 && !sim.spec_can_host(spec_cell_of(#[trigger] spec_subpoint(origin, c, s)))
}

impl Settlement {
    /// Designates hazardous terrain: walks every tile within the settlement's
    /// tile radius in spiral order and marks it `Hazard` when any probed
    /// sub-point's chunk cannot host a settlement, or, for the remaining
    /// tiles, with chance one in sixteen.
    pub fn designate_from_world<O: WorldOracle>(&mut self, sim: &O, rng: &mut GenRng)
        requires
            old(self).wf(),
        ensures
            final(self).wf(),
            final(self).structures() == old(self).structures(),
            final(self).farms() == old(self).farms(),
            final(self).town_base() == old(self).town_base(),
            final(self).spec_origin() == old(self).spec_origin(),
            final(self).spec_seed() == old(self).spec_seed(),
            final(self).spec_name() == old(self).spec_name(),
            final(self).noise_seed() == old(self).noise_seed(),
            final(self).land().plots() == old(self).land().plots(),
            final(self).land().hazard_id() == old(self).land().hazard_id(),
            final(self).land().seed() == old(self).land().seed(),
            forall|c: Coord|
                cheb(c, Coord { x: 0, y: 0 }) <= TILE_RADIUS && spec_oracle_rejects(
                    sim,
                    old(self).spec_origin(),
                    c,
                ) ==> final(self).land().spec_tile_at(c) == Some(
                    Tile {
                        plot: old(self).land().hazard_id(),
                        ways: [None, None, None, None],
                        tower: None,
                    },
                ),
            forall|k: u64| #[trigger]
                final(self).land().tiles().contains_key(k) ==> old(self).land().tiles().contains_key(k) && final(self).land().tiles()[k] == old(self).land().tiles()[k] || (exists|c: Coord|
                    k == #[trigger] spec_key(c) && cheb(c, Coord { x: 0, y: 0 }) <= TILE_RADIUS
                        && final(self).land().tiles()[k] == (Tile {
                        plot: old(self).land().hazard_id(),
                        ways: [None, None, None, None],
                        tower: None,
                    })),
    {
        let ghost entry = *self;
        let zero = Coord { x: 0, y: 0 };
        let cells = spiral(zero, TILE_RADIUS);
        let hazard = self.land.hazard();
        let origin = self.origin;
        let mut i: usize = 0;
        while i < cells.len()
            invariant
                self.wf(),
                entry.wf(),
                i <= cells@.len(),
                zero == (Coord { x: 0, y: 0 }),
                hazard == entry.land().hazard_id(),
                origin == entry.spec_origin(),
                self.name@ == entry.name@,
                self.seed == entry.seed,
                self.origin == entry.origin,
                self.farms@ == entry.farms@,
                self.structures@ == entry.structures@,
                self.town_base() == entry.town_base(),
                self.noise == entry.noise,
                self.land().plots() == entry.land().plots(),
                self.land().hazard_id() == entry.land().hazard_id(),
                self.land().seed() == entry.land().seed(),
                forall|k: int| 0 <= k < cells@.len() ==> cheb(#[trigger] cells@[k], zero)
                    <= TILE_RADIUS,
                forall|c: Coord| cheb(c, zero) <= TILE_RADIUS ==> cells@.contains(c),
                forall|k: int, j: int| 0 <= k < j < cells@.len() ==> cells@[k] != cells@[j],
                forall|j: int|
                    0 <= j < i && spec_oracle_rejects(sim, origin, #[trigger] cells@[j])
                        ==> self.land().spec_tile_at(cells@[j]) == Some(
                        Tile { plot: hazard, ways: [None, None, None, None], tower: None },
                    ),
                forall|k: u64| #[trigger]
                    self.land().tiles().contains_key(k) ==> entry.land().tiles().contains_key(k)
                        && self.land().tiles()[k] == entry.land().tiles()[k] || (exists|c: Coord|
                        k == #[trigger] spec_key(c) && cheb(c, zero) <= TILE_RADIUS
                            && self.land().tiles()[k] == (Tile {
                            plot: hazard,
                            ways: [None, None, None, None],
                            tower: None,
                        })),
            decreases cells@.len() - i,
        {
            let c = cells[i];
            proof {
                assert(cheb(c, zero) <= 12);
                let ax = vstd::math::abs(c.x - zero.x) as int;
                let ay = vstd::math::abs(c.y - zero.y) as int;
                assert(cheb(c, zero) == vstd::math::max(ax, ay));
                assert(ax <= 12 && ay <= 12);
                assert(-12 <= c.x - zero.x <= 12 && -12 <= c.y - zero.y <= 12);
                assert(-2000 <= c.x <= 2000 && -2000 <= c.y <= 2000);
            }
            let rejected = oracle_rejects(sim, origin, c);
            let ghost pre = self.land().tiles();
            if rejected {
                self.land.set(c, hazard);
            } else if rng.range_u32(0, 16) == 0 {
                self.land.set(c, hazard);
            }
            proof {
                assert forall|j: int|
                    0 <= j < i + 1 && spec_oracle_rejects(
                        sim,
                        origin,
                        #[trigger] cells@[j],
                    ) implies self.land().spec_tile_at(cells@[j]) == Some(
                    Tile { plot: hazard, ways: [None, None, None, None], tower: None },
                ) by {
                    if j < i {
                        lemma_key_injective(cells@[j], c);
                    }
                }
            }
            i = i + 1;
        }
        proof {
            assert forall|c: Coord|
                cheb(c, zero) <= TILE_RADIUS && spec_oracle_rejects(
                    sim,
                    entry.spec_origin(),
                    c,
                ) implies self.land().spec_tile_at(c) == Some(
                Tile { plot: hazard, ways: [None, None, None, None], tower: None },
            ) by {
                assert(cells@.contains(c));
                let j = choose|j: int| 0 <= j < cells@.len() && cells@[j] == c;
            }
        }
    }
}

impl Settlement {
    /// Places one field for `farm`: finds an undesignated tile near `origin`,
    /// creates a fresh field plot with a random crop and seed, grows a region
    /// of random bounded size over undesignated tiles, and assigns every
    /// grown tile to the new plot. Reports `None`, changing nothing, when no
    /// undesignated tile lies within the search radius.
    pub fn place_field(&mut self, farm: FarmId, origin: Coord, rng: &mut GenRng) -> (r: Option<
        PlotId,
    >)
        requires
            old(self).wf(),
            in_spiral_range(origin, TILE_RADIUS),
        ensures
            final(self).wf(),
            final(self).structures() == old(self).structures(),
            final(self).farms() == old(self).farms(),
            final(self).town_base() == old(self).town_base(),
            final(self).spec_origin() == old(self).spec_origin(),
            final(self).spec_seed() == old(self).spec_seed(),
            final(self).noise_seed() == old(self).noise_seed(),
            final(self).spec_name() == old(self).spec_name(),
            final(self).land().hazard_id() == old(self).land().hazard_id(),
            final(self).land().seed() == old(self).land().seed(),
            forall|k: u64|
                old(self).land().tiles().contains_key(k) ==> final(self).land().tiles().contains_key(k),
            (forall|c: Coord|
                cheb(c, origin) <= TILE_RADIUS ==> (#[trigger] old(self).land().spec_plot_at(
                    c,
                )) is Some) ==> r is None,
            match r {
                None => {
                    &&& final(self).land().tiles() == old(self).land().tiles()
                    &&& final(self).land().plots() == old(self).land().plots()
                    &&& forall|c: Coord|
                        cheb(c, origin) <= TILE_RADIUS ==> (#[trigger] old(self).land().spec_plot_at(c)) is Some
                },
                Some(id) => {
                    &&& id.idx == old(self).land().plots().len()
                    &&& exists|sd: u32, cr: Crop|
                        final(self).land().plots() == old(self).land().plots().push(
                            Plot::Field { farm, seed: sd, crop: cr },
                        ) && cr != Crop::Turnip && cr != Crop::Sunflower
                    &&& exists|c: Coord|
                        #[trigger] cheb(c, origin) <= TILE_RADIUS && final(self).land().spec_tile_at(c)
                            == Some(Tile { plot: id, ways: [None, None, None, None], tower: None })
                    &&& forall|k: u64|
                        old(self).land().tiles().contains_key(k) ==> #[trigger] final(self).land().tiles()[k] == old(self).land().tiles()[k]
                    &&& forall|k: u64| #[trigger]
                        final(self).land().tiles().contains_key(k) ==> (old(self).land().tiles().contains_key(k) && final(self).land().tiles()[k] == old(self).land().tiles()[k]) || final(self).land().tiles()[k] == (Tile {
                            plot: id,
                            ways: [None, None, None, None],
                            tower: None,
                        })
                },
            },
    {
        let ghost entry = *self;
        let pred = |p: Option<Plot>| -> (b: bool)
            ensures
                b == (p is None),
            { p.is_none() };
        proof {
            assert(forall|p: Option<Plot>| call_requires(pred, (p,)));
        }
        match self.land.find_tile_near(origin, TILE_RADIUS, &pred) {
            Some(center) => {
                proof {
                    assert(call_ensures(pred, (self.land().spec_plot_at(center),), true));
                    if forall|c: Coord|
                        cheb(c, origin) <= TILE_RADIUS ==> (#[trigger] entry.land().spec_plot_at(
                            c,
                        )) is Some {
                        assert(entry.land().spec_plot_at(center) is Some);
                        assert(false);
                    }
                }
                let crop = match rng.range_u32(0, 8) {
                    0 => Crop::Corn,
                    1 => Crop::Wheat,
                    2 => Crop::Cabbage,
                    3 => Crop::Pumpkin,
                    4 => Crop::Flax,
                    5 => Crop::Carrot,
                    6 => Crop::Tomato,
                    7 => Crop::Radish,
                    _ => Crop::Sunflower,
                };
                let field = self.land.new_plot(Plot::Field { farm, seed: rng.next_u32(), crop });
                let size = rng.range_u32(5, MAX_FIELD_SIZE) as usize;
                let tiles = self.land.grow_from(center, size, &pred);
                proof {
                    assert forall|j: int|
                        0 <= j < tiles@.len() implies !entry.land().tiles().contains_key(
                        spec_key(#[trigger] tiles@[j]),
                    ) by {
                        if j == 0 {
                            assert(call_ensures(pred, (self.land().spec_plot_at(center),), true));
                        } else {
                            assert(call_ensures(
                                pred,
                                (self.land().spec_plot_at(tiles@[j]),),
                                true,
                            ));
                        }
                    }
                }
                let mut i: usize = 0;
                while i < tiles.len()
                    invariant
                        self.wf(),
                        i <= tiles@.len(),
                        field.idx < self.land().plots().len(),
                        tiles@.len() >= 1 && tiles@[0] == center,
                        cheb(center, origin) <= TILE_RADIUS,
                        forall|a: int, b: int| 0 <= a < b < tiles@.len() ==> tiles@[a] != tiles@[b],
                        i >= 1 ==> self.land().spec_tile_at(center) == Some(
                            Tile { plot: field, ways: [None, None, None, None], tower: None },
                        ),
                        forall|j: int|
                            0 <= j < tiles@.len() ==> !entry.land().tiles().contains_key(
                                spec_key(#[trigger] tiles@[j]),
                            ),
                        forall|k: u64|
                            entry.land().tiles().contains_key(k) ==> #[trigger] self.land().tiles()[k]
                                == entry.land().tiles()[k],
                        self.name@ == entry.name@,
                        self.seed == entry.seed,
                        self.origin == entry.origin,
                        self.farms@ == entry.farms@,
                        self.structures@ == entry.structures@,
                        self.town_base() == entry.town_base(),
                        self.noise == entry.noise,
                        exists|sd: u32|
                            self.land().plots() == entry.land().plots().push(
                                Plot::Field { farm, seed: sd, crop },
                            ),
                        field.idx == entry.land().plots().len(),
                        self.land().hazard_id() == entry.land().hazard_id(),
                        self.land().seed() == entry.land().seed(),
                        forall|k: u64|
                            entry.land().tiles().contains_key(k) ==> self.land().tiles().contains_key(
                                k,
                            ),
                        forall|k: u64| #[trigger]
                            self.land().tiles().contains_key(k) ==> (entry.land().tiles().contains_key(
                                k,
                            ) && self.land().tiles()[k] == entry.land().tiles()[k])
                                || self.land().tiles()[k] == (Tile {
                                plot: field,
                                ways: [None, None, None, None],
                                tower: None,
                            }),
                    decreases tiles@.len() - i,
                {
                    let pos = tiles[i];
                    self.land.set(pos, field);
                    proof {
                        if i >= 1 {
                            lemma_key_injective(center, pos);
                        }
                    }
                    i = i + 1;
                }
                proof {
                    assert(self.land().spec_tile_at(center) == Some(
                        Tile { plot: field, ways: [None, None, None, None], tower: None },
                    ));
                }
                Some(field)
            },
            None => {
                proof {
                    assert forall|c: Coord| cheb(c, origin) <= TILE_RADIUS implies (#[trigger] self.land().spec_plot_at(
                        c,
                    )) is Some by {
                        assert(call_ensures(pred, (self.land().spec_plot_at(c),), false));
                    }
                }
                None
            },
        }
    }

    /// Places the farms: for each of a fixed number of attempts, finds an
    /// undesignated tile near the settlement center, registers a farm there,
    /// and grows its fields. Attempts that find no undesignated tile are
    /// skipped; in particular, where every tile within the settlement radius
    /// is already designated, no farm and no field is placed at all.
    pub fn place_farms<O: WorldOracle>(&mut self, ctx: &mut GenCtx<'_, O>)
        requires
            old(self).wf(),
        ensures
            final(self).wf(),
            final(self).structures() == old(self).structures(),
            final(self).town_base() == old(self).town_base(),
            final(self).spec_origin() == old(self).spec_origin(),
            final(self).spec_seed() == old(self).spec_seed(),
            final(self).noise_seed() == old(self).noise_seed(),
            final(self).spec_name() == old(self).spec_name(),
            final(self).land().hazard_id() == old(self).land().hazard_id(),
            final(self).land().seed() == old(self).land().seed(),
            final(self).farms().len() >= old(self).farms().len(),
            final(self).farms().len() <= old(self).farms().len() + FARM_COUNT,
            forall|i: int|
                0 <= i < old(self).farms().len() ==> final(self).farms()[i] == old(self).farms()[i],
            forall|k: u64|
                old(self).land().tiles().contains_key(k) ==> final(self).land().tiles().contains_key(k),
            forall|k: u64|
                old(self).land().tiles().contains_key(k) ==> #[trigger] final(self).land().tiles()[k] == old(self).land().tiles()[k],
            forall|j: int|
                0 <= j < old(self).land().plots().len() ==> final(self).land().plots()[j] == old(self).land().plots()[j],
            forall|k: u64| #[trigger]
                final(self).land().tiles().contains_key(k) && !old(self).land().tiles().contains_key(k)
                    ==> (final(self).land().plots()[final(self).land().tiles()[k].plot.idx as int] matches Plot::Field { .. }),
            forall|i: int|
                old(self).farms().len() <= i < final(self).farms().len() ==> (match final(self).land().spec_plot_at(
                    (#[trigger] final(self).farms()[i]).base_tile,
                ) {
                    None => true,
                    Some(Plot::Field { .. }) => true,
                    _ => false,
                }),
            (forall|c: Coord|
                cheb(c, Coord { x: 0, y: 0 }) <= TILE_RADIUS ==> (#[trigger] old(self).land().spec_plot_at(c)) is Some) ==> {
                &&& final(self).farms() == old(self).farms()
                &&& final(self).land().tiles() == old(self).land().tiles()
                &&& final(self).land().plots() == old(self).land().plots()
            },
            (exists|c: Coord|
                #[trigger] cheb(c, Coord { x: 0, y: 0 }) <= TILE_RADIUS && old(self).land().spec_plot_at(c) is None) ==> final(self).farms().len() > old(self).farms().len(),
    {
        let ghost entry = *self;
        let zero = Coord { x: 0, y: 0 };
        let pred = |p: Option<Plot>| -> (b: bool)
            ensures
                b == (p is None),
            { p.is_none() };
        proof {
            assert(forall|p: Option<Plot>| call_requires(pred, (p,)));
        }
        let mut n: u32 = 0;
        while n < FARM_COUNT
            invariant
                self.wf(),
                entry.wf(),
                zero == (Coord { x: 0, y: 0 }),
                n <= FARM_COUNT,
                forall|p: Option<Plot>| call_requires(pred, (p,)),
                forall|p: Option<Plot>, b: bool| call_ensures(pred, (p,), b) ==> b == (p is None),
                self.name@ == entry.name@,
                self.seed == entry.seed,
                self.origin == entry.origin,
                self.structures@ == entry.structures@,
                self.town_base() == entry.town_base(),
                self.noise == entry.noise,
                self.farms@.len() >= entry.farms@.len(),
                self.farms@.len() <= entry.farms@.len() + n,
                forall|i: int| 0 <= i < entry.farms@.len() ==> self.farms@[i] == entry.farms@[i],
                self.land().hazard_id() == entry.land().hazard_id(),
                self.land().seed() == entry.land().seed(),
                forall|k: u64|
                    entry.land().tiles().contains_key(k) ==> self.land().tiles().contains_key(k),
                forall|k: u64|
                    entry.land().tiles().contains_key(k) ==> #[trigger] self.land().tiles()[k]
                        == entry.land().tiles()[k],
                forall|j: int|
                    0 <= j < entry.land().plots().len() ==> self.land().plots()[j]
                        == entry.land().plots()[j],
                self.land().plots().len() >= entry.land().plots().len(),
                forall|k: u64| #[trigger]
                    self.land().tiles().contains_key(k) && !entry.land().tiles().contains_key(k)
                        ==> (self.land().plots()[self.land().tiles()[k].plot.idx as int] matches Plot::Field { .. }),
                forall|i: int|
                    entry.farms@.len() <= i < self.farms@.len() ==> (match self.land().spec_plot_at(
                        (#[trigger] self.farms@[i]).base_tile,
                    ) {
                        None => true,
                        Some(Plot::Field { .. }) => true,
                        _ => false,
                    }),
                (forall|c: Coord|
                    cheb(c, zero) <= TILE_RADIUS ==> (#[trigger] entry.land().spec_plot_at(
                        c,
                    )) is Some) ==> {
                    &&& self.farms@ == entry.farms@
                    &&& self.land().tiles() == entry.land().tiles()
                    &&& self.land().plots() == entry.land().plots()
                },
                n == 0 ==> self.farms@ == entry.farms@ && self.land().tiles()
                    == entry.land().tiles() && self.land().plots() == entry.land().plots(),
                n >= 1 && (exists|c: Coord|
                    #[trigger] cheb(c, zero) <= TILE_RADIUS && entry.land().spec_plot_at(
                        c,
                    ) is None) ==> self.farms@.len() > entry.farms@.len(),
            decreases FARM_COUNT - n,
        {
            match self.land.find_tile_near(zero, TILE_RADIUS, &pred) {
                Some(base_tile) => {
                    proof {
                        assert(call_ensures(pred, (self.land().spec_plot_at(base_tile),), true));
                        if forall|c: Coord|
                            cheb(c, zero) <= TILE_RADIUS ==> (#[trigger] entry.land().spec_plot_at(
                                c,
                            )) is Some {
                            assert(entry.land().spec_plot_at(base_tile) is Some);
                            assert(false);
                        }
                    }
                    proof {
                        let ax = vstd::math::abs(base_tile.x - zero.x) as int;
                        let ay = vstd::math::abs(base_tile.y - zero.y) as int;
                        assert(cheb(base_tile, zero) == vstd::math::max(ax, ay));
                        assert(-12 <= base_tile.x <= 12 && -12 <= base_tile.y <= 12);
                    }
                    let farmland = FarmId { idx: self.farms.len() };
                    self.farms.push(Farm { base_tile });
                    let mut f: u32 = 0;
                    while f < FIELDS_PER_FARM
                        invariant
                            self.wf(),
                            entry.wf(),
                            f <= FIELDS_PER_FARM,
                            in_spiral_range(base_tile, TILE_RADIUS),
                            self.name@ == entry.name@,
                            self.seed == entry.seed,
                            self.origin == entry.origin,
                            self.structures@ == entry.structures@,
                            self.town_base() == entry.town_base(),
                            self.noise == entry.noise,
                            self.farms@.len() > entry.farms@.len(),
                            self.farms@.len() <= entry.farms@.len() + n + 1,
                            forall|i: int|
                                0 <= i < entry.farms@.len() ==> self.farms@[i] == entry.farms@[i],
                            self.land().hazard_id() == entry.land().hazard_id(),
                            self.land().seed() == entry.land().seed(),
                            forall|k: u64|
                                entry.land().tiles().contains_key(k)
                                    ==> self.land().tiles().contains_key(k),
                            forall|k: u64|
                                entry.land().tiles().contains_key(k) ==> #[trigger] self.land().tiles()[k]
                                    == entry.land().tiles()[k],
                            forall|j: int|
                                0 <= j < entry.land().plots().len() ==> self.land().plots()[j]
                                    == entry.land().plots()[j],
                            self.land().plots().len() >= entry.land().plots().len(),
                            forall|k: u64| #[trigger]
                                self.land().tiles().contains_key(k)
                                    && !entry.land().tiles().contains_key(k)
                                    ==> (self.land().plots()[self.land().tiles()[k].plot.idx as int] matches Plot::Field { .. }),
                            forall|i: int|
                                entry.farms@.len() <= i < self.farms@.len() ==> (match self.land().spec_plot_at(
                                    (#[trigger] self.farms@[i]).base_tile,
                                ) {
                                    None => true,
                                    Some(Plot::Field { .. }) => true,
                                    _ => false,
                                }),
                        decreases FIELDS_PER_FARM - f,
                    {
                        self.place_field(farmland, base_tile, &mut ctx.rng);
                        f = f + 1;
                    }
                },
                None => {
                    proof {
                        if n == 0 && exists|c: Coord|
                            #[trigger] cheb(c, zero) <= TILE_RADIUS && entry.land().spec_plot_at(
                                c,
                            ) is None {
                            let c = choose|c: Coord|
                                #[trigger] cheb(c, zero) <= TILE_RADIUS
                                    && entry.land().spec_plot_at(c) is None;
                            assert(call_ensures(pred, (self.land().spec_plot_at(c),), false));
                            assert(false);
                        }
                    }
                },
            }
            n = n + 1;
        }
    }
}

/// Whether a coordinate lies inside a rectangle.
pub open spec fn in_rect(c: Coord, r: Rect) -> bool {
    r.min.x <= c.x < r.max.x && r.min.y <= c.y < r.max.y
}

/// Whether the map key `k` belongs to a coordinate covered by one of the
/// districts' footprints.
pub open spec fn within_districts(ds: Seq<District>, k: u64) -> bool {
    exists|di: int, c: Coord|
        #![trigger ds[di], spec_key(c)]
        0 <= di < ds.len() && in_rect(c, ds[di].aabr) && spec_key(c) == k
}

/// Inserting a tile at one coordinate's key leaves every other coordinate's
/// entry untouched.
proof fn lemma_tile_insert_other(
    pre: Map<u64, Tile>,
    post: Map<u64, Tile>,
    c0: Coord,
    t: Tile,
    c: Coord,
)
    requires
        post == pre.insert(spec_key(c0), t),
        c != c0,
    ensures
        post.contains_key(spec_key(c)) <==> pre.contains_key(spec_key(c)),
        pre.contains_key(spec_key(c)) ==> post[spec_key(c)] == pre[spec_key(c)],
{
    lemma_key_injective(c, c0);
}

/// Way writing changed the land only along a bounded set of routes, each a
/// chain of cardinal unit steps ending at the town center.
pub open spec fn routes_confine(
    routes: Seq<Seq<Coord>>,
    town_center: Coord,
    pre: Map<u64, Tile>,
    post: Map<u64, Tile>,
) -> bool {
    &&& routes.len() <= 6
    &&& forall|i: int|
        0 <= i < routes.len() ==> {
            &&& (#[trigger] routes[i]).len() >= 1
            &&& routes[i][routes[i].len() - 1] == town_center
            &&& forall|j: int|
                0 <= j < routes[i].len() - 1 ==> adjacent(routes[i][j], #[trigger] routes[i][j + 1])
        }
    &&& forall|k: u64| #[trigger]
        post.contains_key(k) ==> (pre.contains_key(k) && post[k] == pre[k]) || exists|i: int, j: int|
            #![trigger routes[i][j]]
            0 <= i < routes.len() && 0 <= j < routes[i].len() && spec_key(routes[i][j]) == k
}

/// Whether a plot can seat the town: an existing field or dirt tile.
pub open spec fn town_site_ok(p: Option<Plot>) -> bool {
    match p {
        Some(Plot::Field { .. }) => true,
        Some(Plot::Dirt) => true,
        _ => false,
    }
}

/// Whether any already placed structure's footprint overlaps `r`.
fn any_overlap(ss: &Vec<Structure>, r: Rect) -> (b: bool)
    ensures
        b == exists|i: int|
            0 <= i < ss@.len() && spec_overlap((#[trigger] ss@[i]).spec_bounds_2d(), r),
{
    let mut i: usize = 0;
    while i < ss.len()
        invariant
            i <= ss@.len(),
            forall|j: int| 0 <= j < i ==> !spec_overlap((#[trigger] ss@[j]).spec_bounds_2d(), r),
        decreases ss@.len() - i,
    {
        if rects_overlap(ss[i].bounds_2d(), r) {
            return true;
        }
        i = i + 1;
    }
    false
}

impl Settlement {
    /// Places the town: picks a random tile-space search origin, looks for a
    /// field or dirt tile up to a fixed number of times, and on the first
    /// success delegates the layout to the town generator, then copies every
    /// district's footprint into the land as town plots, skipping cells
    /// already designated hazardous. Where no field or dirt tile exists at
    /// all, the town stays absent and the land is untouched.
    pub fn place_town<O: WorldOracle, T: TownGenerator>(
        &mut self,
        ctx: &mut GenCtx<'_, O>,
        town_gen: &mut T,
    )
        requires
            old(self).wf(),
        ensures
            final(self).wf(),
            final(self).structures() == old(self).structures(),
            final(self).farms() == old(self).farms(),
            final(self).spec_origin() == old(self).spec_origin(),
            final(self).spec_seed() == old(self).spec_seed(),
            final(self).noise_seed() == old(self).noise_seed(),
            final(self).spec_name() == old(self).spec_name(),
            final(self).land().hazard_id() == old(self).land().hazard_id(),
            final(self).land().seed() == old(self).land().seed(),
            forall|k: u64|
                old(self).land().tiles().contains_key(k) ==> final(self).land().tiles().contains_key(k),
            (forall|c: Coord| !town_site_ok(#[trigger] old(self).land().spec_plot_at(c))) ==> {
                &&& final(self).town_base() == old(self).town_base()
                &&& final(self).land().tiles() == old(self).land().tiles()
                &&& final(self).land().plots() == old(self).land().plots()
            },
            (exists|c: Coord|
                #[trigger] cheb(c, Coord { x: 0, y: 0 }) <= 10 && town_site_ok(
                    old(self).land().spec_plot_at(c),
                )) ==> final(self).town_base() is Some,
            final(self).land().plots().len() >= old(self).land().plots().len(),
            forall|j: int|
                0 <= j < old(self).land().plots().len() ==> final(self).land().plots()[j] == old(self).land().plots()[j],
            forall|c: Coord|
                old(self).land().spec_plot_at(c) == Some(Plot::Hazard) ==> final(self).land().spec_tile_at(c) == #[trigger] old(self).land().spec_tile_at(c),
            old(self).town_base() is None && final(self).town_base() is None ==> final(self).land().tiles() == old(self).land().tiles() && final(self).land().plots() == old(self).land().plots(),
            old(self).town_base() is None && final(self).town_base() is Some ==> {
                let ds = final(self).town_districts()->Some_0;
                &&& forall|di: int, c: Coord|
                    0 <= di < ds.len() && #[trigger] in_rect(c, ds[di].aabr) && old(self).land().spec_plot_at(c) != Some(Plot::Hazard) ==> (final(self).land().spec_plot_at(c) matches Some(Plot::Town { .. }))
                &&& forall|k: u64| #[trigger]
                    final(self).land().tiles().contains_key(k) ==> (old(self).land().tiles().contains_key(k) && final(self).land().tiles()[k] == old(self).land().tiles()[k]) || within_districts(ds, k)
            },
    {
        let ghost entry = *self;
        let pred = |p: Option<Plot>| -> (b: bool)
            ensures
                b == town_site_ok(p),
            {
                match p {
                    Some(Plot::Field { .. }) => true,
                    Some(Plot::Dirt) => true,
                    _ => false,
                }
            };
        proof {
            assert(forall|p: Option<Plot>| call_requires(pred, (p,)));
        }
        let mut origin = Coord { x: ctx.rng.range_i32(-2, 3), y: ctx.rng.range_i32(-2, 3) };
        let ghost zero2 = Coord { x: 0, y: 0 };
        let mut i: u32 = 0;
        while i < 3
            invariant
                self.wf(),
                entry.wf(),
                i <= 3,
                forall|p: Option<Plot>| call_requires(pred, (p,)),
                forall|p: Option<Plot>, b: bool| call_ensures(pred, (p,), b) ==> b == town_site_ok(
                    p,
                ),
                -15 <= origin.x <= 15 && -15 <= origin.y <= 15,
                i == 0 ==> -2 <= origin.x <= 2 && -2 <= origin.y <= 2,
                self.spec_name() == entry.spec_name(),
                self.seed == entry.seed,
                self.origin == entry.origin,
                self.farms@ == entry.farms@,
                self.structures@ == entry.structures@,
                self.noise == entry.noise,
                self.land().hazard_id() == entry.land().hazard_id(),
                self.land().seed() == entry.land().seed(),
                forall|k: u64|
                    entry.land().tiles().contains_key(k) ==> self.land().tiles().contains_key(k),
                (forall|c: Coord| !town_site_ok(#[trigger] entry.land().spec_plot_at(c))) ==> {
                    &&& self.town_base() == entry.town_base()
                    &&& self.land().tiles() == entry.land().tiles()
                    &&& self.land().plots() == entry.land().plots()
                },
                zero2 == (Coord { x: 0, y: 0 }),
                i == 0 ==> self.land().tiles() == entry.land().tiles() && self.land().plots()
                    == entry.land().plots() && self.town_base() == entry.town_base(),
                i >= 1 && (exists|c: Coord|
                    #[trigger] cheb(c, zero2) <= 10 && town_site_ok(
                        entry.land().spec_plot_at(c),
                    )) ==> self.town_base() is Some,
                self.land().plots().len() >= entry.land().plots().len(),
                forall|j: int|
                    0 <= j < entry.land().plots().len() ==> self.land().plots()[j]
                        == entry.land().plots()[j],
                forall|c: Coord|
                    entry.land().spec_plot_at(c) == Some(Plot::Hazard) ==> self.land().spec_tile_at(
                        c,
                    ) == #[trigger] entry.land().spec_tile_at(c),
                entry.town_base() is None && self.town_base() is None ==> self.land().tiles()
                    == entry.land().tiles() && self.land().plots() == entry.land().plots(),
                entry.town_base() is None && self.town_base() is Some ==> {
                    let ds = self.town_districts()->Some_0;
                    &&& forall|di: int, c: Coord|
                        0 <= di < ds.len() && #[trigger] in_rect(c, ds[di].aabr)
                            && entry.land().spec_plot_at(c) != Some(Plot::Hazard)
                            ==> (self.land().spec_plot_at(c) matches Some(Plot::Town { .. }))
                    &&& forall|k: u64| #[trigger]
                        self.land().tiles().contains_key(k) ==> (entry.land().tiles().contains_key(
                            k,
                        ) && self.land().tiles()[k] == entry.land().tiles()[k])
                            || within_districts(ds, k)
                },
            decreases 3 - i,
        {
            match self.land.find_tile_near(origin, TILE_RADIUS, &pred) {
                Some(base_tile) => {
                    proof {
                        assert(call_ensures(pred, (self.land().spec_plot_at(base_tile),), true));
                        if forall|c: Coord|
                            !town_site_ok(#[trigger] entry.land().spec_plot_at(c)) {
                            assert(!town_site_ok(entry.land().spec_plot_at(base_tile)));
                            assert(false);
                        }
                    }
                    if i == 0 {
                        let plan = town_gen.generate(&mut ctx.rng, self.origin, base_tile);
                        let districts = plan.districts;
                        let ghost dsv = districts@;
                        let mut di: usize = 0;
                        while di < districts.len()
                            invariant
                                self.wf(),
                                entry.wf(),
                                di <= districts@.len(),
                                dsv == districts@,
                                self.spec_name() == entry.spec_name(),
                                self.seed == entry.seed,
                                self.origin == entry.origin,
                                self.farms@ == entry.farms@,
                                self.structures@ == entry.structures@,
                                self.noise == entry.noise,
                                self.town_base() == entry.town_base(),
                                self.land().hazard_id() == entry.land().hazard_id(),
                                self.land().seed() == entry.land().seed(),
                                forall|k: u64|
                                    entry.land().tiles().contains_key(k)
                                        ==> self.land().tiles().contains_key(k),
                                self.land().plots().len() >= entry.land().plots().len(),
                                forall|j: int|
                                    0 <= j < entry.land().plots().len() ==> self.land().plots()[j]
                                        == entry.land().plots()[j],
                                forall|c2: Coord|
                                    entry.land().spec_plot_at(c2) == Some(Plot::Hazard)
                                        ==> self.land().spec_tile_at(c2) == #[trigger] entry.land().spec_tile_at(c2),
                                forall|dj: int, c2: Coord|
                                    0 <= dj < di && #[trigger] in_rect(c2, dsv[dj].aabr)
                                        && entry.land().spec_plot_at(c2) != Some(Plot::Hazard)
                                        ==> (self.land().spec_plot_at(c2) matches Some(
                                        Plot::Town { .. },
                                    )),
                                forall|k: u64| #[trigger]
                                    self.land().tiles().contains_key(k) ==> (entry.land().tiles().contains_key(
                                        k,
                                    ) && self.land().tiles()[k] == entry.land().tiles()[k]) || (
                                    within_districts(dsv, k)
                                        && self.land().plots()[self.land().tiles()[k].plot.idx as int] matches Plot::Town { .. }),
                            decreases districts@.len() - di,
                        {
                            let d = districts[di];
                            let district_plot = self.land.new_plot(
                                Plot::Town { district: Some(crate::plot::DistrictId { idx: di }) },
                            );
                            let mut x = d.aabr.min.x;
                            while x < d.aabr.max.x
                                invariant
                                    self.wf(),
                                    entry.wf(),
                                    di < dsv.len(),
                                    d == dsv[di as int],
                                    d.aabr.min.x <= x,
                                    district_plot.idx < self.land().plots().len(),
                                    self.land().plots()[district_plot.idx as int] matches Plot::Town { .. },
                                    self.spec_name() == entry.spec_name(),
                                    self.seed == entry.seed,
                                    self.origin == entry.origin,
                                    self.farms@ == entry.farms@,
                                    self.structures@ == entry.structures@,
                                    self.noise == entry.noise,
                                    self.town_base() == entry.town_base(),
                                    self.land().hazard_id() == entry.land().hazard_id(),
                                    self.land().seed() == entry.land().seed(),
                                    forall|k: u64|
                                        entry.land().tiles().contains_key(k)
                                            ==> self.land().tiles().contains_key(k),
                                    self.land().plots().len() >= entry.land().plots().len(),
                                    forall|j: int|
                                        0 <= j < entry.land().plots().len() ==> self.land().plots()[j]
                                            == entry.land().plots()[j],
                                    forall|c2: Coord|
                                        entry.land().spec_plot_at(c2) == Some(Plot::Hazard)
                                            ==> self.land().spec_tile_at(c2) == #[trigger] entry.land().spec_tile_at(c2),
                                    forall|dj: int, c2: Coord|
                                        0 <= dj < di && #[trigger] in_rect(c2, dsv[dj].aabr)
                                            && entry.land().spec_plot_at(c2) != Some(Plot::Hazard)
                                            ==> (self.land().spec_plot_at(c2) matches Some(
                                            Plot::Town { .. },
                                        )),
                                    forall|c2: Coord|
                                        #[trigger] in_rect(c2, d.aabr) && c2.x < x
                                            && entry.land().spec_plot_at(c2) != Some(Plot::Hazard)
                                            ==> (self.land().spec_plot_at(c2) matches Some(
                                            Plot::Town { .. },
                                        )),
                                    forall|k: u64| #[trigger]
                                        self.land().tiles().contains_key(k) ==> (entry.land().tiles().contains_key(
                                            k,
                                        ) && self.land().tiles()[k] == entry.land().tiles()[k]) || (
                                        within_districts(dsv, k)
                                            && self.land().plots()[self.land().tiles()[k].plot.idx as int] matches Plot::Town { .. }),
                                decreases d.aabr.max.x - x,
                            {
                                let mut y = d.aabr.min.y;
                                while y < d.aabr.max.y
                                    invariant
                                        self.wf(),
                                        entry.wf(),
                                        di < dsv.len(),
                                        d == dsv[di as int],
                                        d.aabr.min.x <= x < d.aabr.max.x,
                                        d.aabr.min.y <= y,
                                        district_plot.idx < self.land().plots().len(),
                                        self.land().plots()[district_plot.idx as int] matches Plot::Town { .. },
                                        self.spec_name() == entry.spec_name(),
                                        self.seed == entry.seed,
                                        self.origin == entry.origin,
                                        self.farms@ == entry.farms@,
                                        self.structures@ == entry.structures@,
                                        self.noise == entry.noise,
                                        self.town_base() == entry.town_base(),
                                        self.land().hazard_id() == entry.land().hazard_id(),
                                        self.land().seed() == entry.land().seed(),
                                        forall|k: u64|
                                            entry.land().tiles().contains_key(k)
                                                ==> self.land().tiles().contains_key(k),
                                        self.land().plots().len() >= entry.land().plots().len(),
                                        forall|j: int|
                                            0 <= j < entry.land().plots().len()
                                                ==> self.land().plots()[j] == entry.land().plots()[j],
                                        forall|c2: Coord|
                                            entry.land().spec_plot_at(c2) == Some(Plot::Hazard)
                                                ==> self.land().spec_tile_at(c2)
                                                == #[trigger] entry.land().spec_tile_at(c2),
                                        forall|dj: int, c2: Coord|
                                            0 <= dj < di && #[trigger] in_rect(c2, dsv[dj].aabr)
                                                && entry.land().spec_plot_at(c2) != Some(
                                                Plot::Hazard,
                                            ) ==> (self.land().spec_plot_at(c2) matches Some(
                                                Plot::Town { .. },
                                            )),
                                        forall|c2: Coord|
                                            #[trigger] in_rect(c2, d.aabr) && (c2.x < x || (c2.x
                                                == x && c2.y < y)) && entry.land().spec_plot_at(c2)
                                                != Some(Plot::Hazard)
                                                ==> (self.land().spec_plot_at(c2) matches Some(
                                                Plot::Town { .. },
                                            )),
                                        forall|k: u64| #[trigger]
                                            self.land().tiles().contains_key(k) ==> (
                                            entry.land().tiles().contains_key(k)
                                                && self.land().tiles()[k]
                                                == entry.land().tiles()[k]) || (within_districts(
                                                dsv,
                                                k,
                                            )
                                                && self.land().plots()[self.land().tiles()[k].plot.idx as int] matches Plot::Town { .. }),
                                    decreases d.aabr.max.y - y,
                                {
                                    let c = Coord { x, y };
                                    let ghost pre_land = self.land();
                                    let is_hazard = match self.land.plot_at(c) {
                                        Some(Plot::Hazard) => true,
                                        _ => false,
                                    };
                                    proof {
                                        if entry.land().spec_plot_at(c) == Some(Plot::Hazard) {
                                            assert(self.land().spec_tile_at(c)
                                                == entry.land().spec_tile_at(c));
                                            let t = entry.land().spec_tile_at(c)->Some_0;
                                            assert(t.plot.idx < entry.land().plots().len());
                                            assert(self.land().spec_plot_at(c) == Some(
                                                Plot::Hazard,
                                            ));
                                        }
                                        if !is_hazard
                                            && self.land().tiles().contains_key(spec_key(c))
                                            && !(entry.land().tiles().contains_key(spec_key(c))
                                            && self.land().tiles()[spec_key(c)]
                                            == entry.land().tiles()[spec_key(c)]) {
                                            assert(self.land().spec_plot_at(c) matches Some(
                                                Plot::Town { .. },
                                            ));
                                        }
                                    }
                                    if !is_hazard {
                                        self.land.set(c, district_plot);
                                        proof {
                                            assert(in_rect(c, d.aabr));
                                            assert(within_districts(dsv, spec_key(c))) by {
                                                assert(in_rect(c, dsv[di as int].aabr));
                                            }
                                            assert forall|c2: Coord|
                                                c2 != c implies self.land().spec_tile_at(c2)
                                                == pre_land.spec_tile_at(c2) by {
                                                lemma_tile_insert_other(
                                                    pre_land.tiles(),
                                                    self.land().tiles(),
                                                    c,
                                                    Tile {
                                                        plot: district_plot,
                                                        ways: [None, None, None, None],
                                                        tower: None,
                                                    },
                                                    c2,
                                                );
                                            }
                                            assert(self.land().spec_plot_at(c) matches Some(
                                                Plot::Town { .. },
                                            ));
                                        }
                                    }
                                    y = y + 1;
                                }
                                x = x + 1;
                            }
                            di = di + 1;
                        }
                        self.town = Some(TownPlan { base_tile, districts });
                        proof {
                            let ax = vstd::math::abs(base_tile.x - origin.x) as int;
                            let ay = vstd::math::abs(base_tile.y - origin.y) as int;
                            assert(cheb(base_tile, origin) == vstd::math::max(ax, ay));
                            assert(-14 <= base_tile.x <= 14 && -14 <= base_tile.y <= 14);
                        }
                        origin = base_tile;
                    }
                },
                None => {
                    proof {
                        if i == 0 && exists|c: Coord|
                            #[trigger] cheb(c, zero2) <= 10 && town_site_ok(
                                entry.land().spec_plot_at(c),
                            ) {
                            let c = choose|c: Coord|
                                #[trigger] cheb(c, zero2) <= 10 && town_site_ok(
                                    entry.land().spec_plot_at(c),
                                );
                            let ax = vstd::math::abs(c.x - origin.x) as int;
                            let ay = vstd::math::abs(c.y - origin.y) as int;
                            assert(cheb(c, origin) == vstd::math::max(ax, ay));
                            let zx = vstd::math::abs(c.x - zero2.x) as int;
                            let zy = vstd::math::abs(c.y - zero2.y) as int;
                            assert(cheb(c, zero2) == vstd::math::max(zx, zy));
                            assert(zx <= 10 && zy <= 10);
                            assert(-10 <= c.x <= 10 && -10 <= c.y <= 10);
                            assert(-2 <= origin.x <= 2 && -2 <= origin.y <= 2);
                            assert(ax <= 12 && ay <= 12);
                            assert(cheb(c, origin) <= TILE_RADIUS);
                            assert(call_ensures(pred, (self.land().spec_plot_at(c),), false));
                            assert(false);
                        }
                    }
                },
            }
            i = i + 1;
        }
    }
}

impl Settlement {
    /// Places the town's buildings: walks a fixed-size spiral of tiles
    /// around the town center and, per tile, attempts to place a small
    /// random number of buildings, each with a bounded number of random
    /// offsets. An offset is rejected when it falls on or too near a path,
    /// outside town plots, or when the generated building's footprint would
    /// overlap an already placed structure; the very first structure at the
    /// town center is the keep. Without a placed town, nothing happens.
    /// However placement goes, no two placed structures ever overlap.
    pub fn place_buildings<O: WorldOracle, B: BuildingGenerator>(
        &mut self,
        ctx: &mut GenCtx<'_, O>,
        building_gen: &mut B,
    )
        requires
            old(self).wf(),
        ensures
            final(self).wf(),
            final(self).farms() == old(self).farms(),
            final(self).town_base() == old(self).town_base(),
            final(self).spec_origin() == old(self).spec_origin(),
            final(self).spec_seed() == old(self).spec_seed(),
            final(self).noise_seed() == old(self).noise_seed(),
            final(self).spec_name() == old(self).spec_name(),
            final(self).land() == old(self).land(),
            structures_disjoint(final(self).structures()),
            final(self).structures().len() >= old(self).structures().len(),
            forall|i: int|
                0 <= i < old(self).structures().len() ==> final(self).structures()[i] == old(self).structures()[i],
            old(self).town_base() is None ==> final(self).structures() == old(self).structures(),
    {
        let ghost entry = *self;
        let town_center = match &self.town {
            Some(t) => t.base_tile,
            None => {
                return ;
            },
        };
        if town_center.x > 100000 || town_center.x < -100000 || town_center.y > 100000
            || town_center.y < -100000 {
            return ;
        }
        let cells = spiral(town_center, 8);
        let origin = self.origin;
        let mut idx: usize = 0;
        while idx < cells.len() && idx < 256
            invariant
                self.wf(),
                entry.wf(),
                idx <= cells@.len(),
                origin == entry.spec_origin(),
                origin_in_range(origin),
                -100000 <= town_center.x <= 100000 && -100000 <= town_center.y <= 100000,
                forall|k: int| 0 <= k < cells@.len() ==> cheb(#[trigger] cells@[k], town_center)
                    <= 8,
                self.spec_name() == entry.spec_name(),
                self.seed == entry.seed,
                self.origin == entry.origin,
                self.farms@ == entry.farms@,
                self.town_base() == entry.town_base(),
                self.noise == entry.noise,
                self.land() == entry.land(),
                self.structures@.len() >= entry.structures@.len(),
                forall|i: int|
                    0 <= i < entry.structures@.len() ==> self.structures@[i]
                        == entry.structures@[i],
            decreases cells@.len() - idx,
        {
            let cell = cells[idx];
            proof {
                let ax = vstd::math::abs(cell.x - town_center.x) as int;
                let ay = vstd::math::abs(cell.y - town_center.y) as int;
                assert(cheb(cell, town_center) == vstd::math::max(ax, ay));
                assert(-100008 <= cell.x <= 100008 && -100008 <= cell.y <= 100008);
            }
            let n = ctx.rng.range_u32(2, 5);
            let mut b: u32 = 0;
            while b < n
                invariant
                    self.wf(),
                    entry.wf(),
                    b <= n,
                    origin == entry.spec_origin(),
                    origin_in_range(origin),
                    -100008 <= cell.x <= 100008 && -100008 <= cell.y <= 100008,
                    idx < cells@.len(),
                    self.spec_name() == entry.spec_name(),
                    self.seed == entry.seed,
                    self.origin == entry.origin,
                    self.farms@ == entry.farms@,
                    self.town_base() == entry.town_base(),
                    self.noise == entry.noise,
                    self.land() == entry.land(),
                    self.structures@.len() >= entry.structures@.len(),
                    forall|i: int|
                        0 <= i < entry.structures@.len() ==> self.structures@[i]
                            == entry.structures@[i],
                decreases n - b,
            {
                let mut attempt: u32 = 0;
                while attempt < 25
                    invariant
                        self.wf(),
                        entry.wf(),
                        attempt <= 25,
                        origin == entry.spec_origin(),
                        origin_in_range(origin),
                        -100008 <= cell.x <= 100008 && -100008 <= cell.y <= 100008,
                        idx < cells@.len(),
                        self.spec_name() == entry.spec_name(),
                        self.seed == entry.seed,
                        self.origin == entry.origin,
                        self.farms@ == entry.farms@,
                        self.town_base() == entry.town_base(),
                        self.noise == entry.noise,
                        self.land() == entry.land(),
                        self.structures@.len() >= entry.structures@.len(),
                        forall|i: int|
                            0 <= i < entry.structures@.len() ==> self.structures@[i]
                                == entry.structures@[i],
                    decreases 25 - attempt,
                {
                    let house_pos = Coord {
                        x: cell.x * 32 + 16 + ctx.rng.range_i32(-8, 8),
                        y: cell.y * 32 + 16 + ctx.rng.range_i32(-8, 8),
                    };
                    let tile_pos = crate::partition::cell_of(house_pos);
                    let on_path = match self.land.tile_at(tile_pos) {
                        Some(t) => t.contains(WayKind::Path),
                        None => true,
                    };
                    let near_world_path = match ctx.sim {
                        Some(sim) => sim.near_path(
                            Coord { x: origin.x + house_pos.x, y: origin.y + house_pos.y },
                        ),
                        None => false,
                    };
                    if on_path || near_world_path {
                        attempt = attempt + 1;
                        continue ;
                    }
                    let in_town = match self.land.plot_at(tile_pos) {
                        Some(Plot::Town { .. }) => true,
                        _ => false,
                    };
                    if !in_town {
                        attempt = attempt + 1;
                        continue ;
                    }
                    let alt = match ctx.sim {
                        Some(sim) => sim.alt_approx(
                            Coord { x: origin.x + house_pos.x, y: origin.y + house_pos.y },
                        ),
                        None => 0,
                    };
                    let keep = idx == 0 && b == 0;
                    let plan = building_gen.generate(&mut ctx.rng, house_pos, alt, keep);
                    if any_overlap(&self.structures, plan.bounds_2d) {
                        attempt = attempt + 1;
                        continue ;
                    }
                    let structure = Structure {
                        kind: if keep {
                            StructureKind::Keep
                        } else {
                            StructureKind::House
                        },
                        plan,
                    };
                    self.structures.push(structure);
                    break ;
                }
                b = b + 1;
            }
            idx = idx + 1;
        }
    }

    /// Generates a settlement at `wpos`: seeds the land and noise, designates
    /// hazardous terrain from the world oracle, places farms and their
    /// fields, delegates the town layout, and places buildings around the
    /// town center with collision-checked footprints. Where the oracle
    /// rejects every chunk, every tile within the settlement's tile radius
    /// is designated hazardous and no farm, town or structure is placed.
    pub fn generate<O: WorldOracle, T: TownGenerator, B: BuildingGenerator>(
        name: String,
        wpos: Coord,
        sim: Option<&O>,
        town_gen: &mut T,
        building_gen: &mut B,
        seed: u64,
    ) -> (r: Settlement)
        requires
            origin_in_range(wpos),
        ensures
            r.wf(),
            r.spec_origin() == wpos,
            r.spec_name() == name@,
            structures_disjoint(r.structures()),
            (match sim {
                Some(o) => forall|ch: Coord| !(#[trigger] o.spec_can_host(ch)),
                None => false,
            }) ==> {
                &&& forall|c: Coord|
                    cheb(c, Coord { x: 0, y: 0 }) <= TILE_RADIUS ==> r.land().spec_plot_at(c)
                        == Some(Plot::Hazard)
                &&& r.farms().len() == 0
                &&& r.structures().len() == 0
                &&& r.town_base() is None
            },
            sim is None ==> r.farms().len() > 0,
    {
        let mut ctx = GenCtx { sim, rng: GenRng::new(seed) };
        let settlement_seed = ctx.rng.next_u32();
        let noise_seed = ctx.rng.next_u32();
        let land = Land::new(&mut ctx.rng);
        let mut this = Settlement {
            name,
            seed: settlement_seed,
            origin: wpos,
            land,
            farms: Vec::new(),
            structures: Vec::new(),
            town: None,
            noise: Noise::new(noise_seed as u64),
        };
        let ghost fresh = this;
        match ctx.sim {
            Some(sim_ref) => {
                this.designate_from_world(sim_ref, &mut ctx.rng);
            },
            None => {},
        }
        let ghost designated = this;
        this.place_farms(&mut ctx);
        let ghost farmed = this;
        this.place_town(&mut ctx, town_gen);
        let ghost towned = this;
        this.place_buildings(&mut ctx, building_gen);
        proof {
            let zero = Coord { x: 0, y: 0 };
            if sim is None {
                assert(designated.land().spec_plot_at(zero) is None);
                assert(cheb(zero, zero) <= TILE_RADIUS);
                assert(farmed.farms().len() > designated.farms().len());
            }
            if sim is Some && (forall|ch: Coord| !(#[trigger] sim->0.spec_can_host(ch))) {
                let o = sim->0;
                assert forall|c: Coord|
                    cheb(c, zero) <= TILE_RADIUS implies designated.land().spec_plot_at(c) == Some(
                    Plot::Hazard,
                ) by {
                    assert(!o.spec_can_host(spec_cell_of(spec_subpoint(wpos, c, 0))));
                    assert(spec_oracle_rejects(o, wpos, c));
                    assert(designated.land().spec_tile_at(c) == Some(
                        Tile {
                            plot: designated.land().hazard_id(),
                            ways: [None, None, None, None],
                            tower: None,
                        },
                    ));
                }
                assert forall|c: Coord| !town_site_ok(
                    #[trigger] designated.land().spec_plot_at(c),
                ) by {
                    if designated.land().tiles().contains_key(spec_key(c)) {
                        lemma_all_tiles_hazard(designated, fresh, c);
                    }
                }
                assert(forall|c: Coord|
                    cheb(c, zero) <= TILE_RADIUS ==> (#[trigger] designated.land().spec_plot_at(
                        c,
                    )) is Some);
                assert(farmed.farms() == designated.farms());
                assert(farmed.land().tiles() == designated.land().tiles());
                assert(farmed.land().plots() == designated.land().plots());
                assert forall|c: Coord| !town_site_ok(
                    #[trigger] farmed.land().spec_plot_at(c),
                ) by {
                    assert(farmed.land().spec_plot_at(c) == designated.land().spec_plot_at(c));
                }
                assert(towned.town_base() == farmed.town_base());
                assert(towned.land().tiles() == farmed.land().tiles());
                assert(towned.land().plots() == farmed.land().plots());
                assert(towned.town_base() is None);
                assert(this.structures() == towned.structures());
                assert forall|c: Coord|
                    cheb(c, zero) <= TILE_RADIUS implies this.land().spec_plot_at(c) == Some(
                    Plot::Hazard,
                ) by {
                    assert(this.land() == towned.land());
                    assert(towned.land().spec_plot_at(c) == designated.land().spec_plot_at(c));
                }
            }
        }
        this
    }
}

/// After hazard designation of a fresh land, every present tile references
/// the hazard plot, so no plot anywhere can seat a town.
proof fn lemma_all_tiles_hazard(designated: Settlement, fresh: Settlement, c: Coord)
    requires
        designated.wf(),
        fresh.land().tiles() == Map::<u64, Tile>::empty(),
        designated.land().hazard_id().idx == 0,
        forall|k: u64| #[trigger]
            designated.land().tiles().contains_key(k) ==> fresh.land().tiles().contains_key(k)
                && designated.land().tiles()[k] == fresh.land().tiles()[k] || (exists|c2: Coord|
                k == #[trigger] spec_key(c2) && cheb(c2, Coord { x: 0, y: 0 }) <= TILE_RADIUS
                    && designated.land().tiles()[k] == (Tile {
                    plot: designated.land().hazard_id(),
                    ways: [None, None, None, None],
                    tower: None,
                })),
        designated.land().tiles().contains_key(spec_key(c)),
    ensures
        designated.land().spec_plot_at(c) == Some(designated.land().plots()[0]),
{
    assert(!fresh.land().tiles().contains_key(spec_key(c)));
}

/// The index the sampler resolves a position to: the unique first minimum
/// among the nine neighborhood centers.
pub open spec fn spec_closest_idx(seed: u64, pos: Coord) -> int {
    choose|ci: int| first_min(seed, pos, ci)
}

/// Two first minima are the same index.
pub proof fn lemma_first_min_unique(seed: u64, pos: Coord, a: int, b: int)
    requires
        first_min(seed, pos, a),
        first_min(seed, pos, b),
    ensures
        a == b,
{
    if a < b {
        assert(spec_nb_d2(seed, pos, a) > spec_nb_d2(seed, pos, b));
        assert(spec_nb_d2(seed, pos, b) >= spec_nb_d2(seed, pos, a));
    }
    if b < a {
        assert(spec_nb_d2(seed, pos, b) > spec_nb_d2(seed, pos, a));
        assert(spec_nb_d2(seed, pos, a) >= spec_nb_d2(seed, pos, b));
    }
}

/// The plot a sample at `pos` reports: the plot of the tile at the nearest
/// center's cell.
pub open spec fn spec_sample_plot(land: Land, pos: Coord) -> Option<Plot> {
    land.spec_plot_at(spec_nb_cell(pos, spec_closest_idx(land.seed(), pos)))
}

/// Spawn rules for world features at a position.
#[derive(Clone, Copy, PartialEq, Eq, Structural, Debug)]
pub struct SpawnRules {
    pub trees: bool,
}

/// An 8-bit color.
#[derive(Clone, Copy, PartialEq, Eq, Structural, Debug)]
pub struct Rgb {
    pub r: u8,
    pub g: u8,
    pub b: u8,
}

/// The color table the settlement paints from.
#[derive(Clone, Copy, PartialEq, Eq, Debug)]
pub struct Colors {
    pub plot_town_path: (u8, u8, u8),
    pub plot_field_dirt: (u8, u8, u8),
    pub plot_field_mound: (u8, u8, u8),
    pub wall_low: (u8, u8, u8),
    pub wall_high: (u8, u8, u8),
    pub tower_color: (u8, u8, u8),
    pub plot_dirt: (u8, u8, u8),
    pub plot_grass: (u8, u8, u8),
    pub plot_water: (u8, u8, u8),
    pub plot_town: (u8, u8, u8),
}

/// Saturating byte addition.
pub open spec fn sat_add_u8(a: u8, b: u8) -> u8 {
    if a + b > 255 {
        255u8
    } else {
        (a + b) as u8
    }
}

/// Saturating byte subtraction.
pub open spec fn sat_sub_u8(a: u8, b: u8) -> u8 {
    if a < b {
        0u8
    } else {
        (a - b) as u8
    }
}

/// One dithered town-color channel: the base value, raised by a seeded noise
/// nibble and lowered by eight, saturating at both ends.
pub open spec fn spec_dither(nseed: u64, pos: Coord, salt: u64, e: u8) -> u8 {
    sat_sub_u8(sat_add_u8(e, (spec_noise(nseed, pos, salt) % 16) as u8), 8)
}

/// The furrow direction of a field, keyed by the field's seed.
pub open spec fn spec_furrow_dir(fseed: u32) -> (int, int) {
    if fseed % 4 == 0 {
        (1, 0)
    } else if fseed % 4 == 1 {
        (0, 1)
    } else if fseed % 4 == 2 {
        (1, 1)
    } else {
        (-1, 1)
    }
}

/// Whether `pos` lies in a furrow of a field with seed `fseed`: positions
/// are banded by their projection onto the furrow direction.
pub open spec fn spec_in_furrow(fseed: u32, pos: Coord) -> bool {
    let d = spec_furrow_dir(fseed);
    (pos.x * d.0 + pos.y * d.1) % 6 < 3
}

/// The color of a field at `pos`: a fixed furrow tone, or a mound tone mixed
/// from the field seed's bytes.
pub open spec fn spec_field_color(fseed: u32, pos: Coord) -> Rgb {
    Rgb {
        r: if spec_in_furrow(fseed, pos) {
            100u8
        } else {
            (32 + fseed % 64) as u8
        },
        g: (64 + (fseed >> 8u32) % 128) as u8,
        b: (16 + (fseed >> 16u32) % 32) as u8,
    }
}

/// The minimap color of a plot at `pos`: fixed tones for dirt, grass and
/// water, a dithered town tone, the furrow-banded field tone, and nothing
/// for hazards and undesignated ground.
pub open spec fn spec_plot_color(
    nseed: u64,
    plot: Option<Plot>,
    pos: Coord,
    colors: Colors,
) -> Option<Rgb> {
    match plot {
        Some(Plot::Dirt) => Some(
            Rgb { r: colors.plot_dirt.0, g: colors.plot_dirt.1, b: colors.plot_dirt.2 },
        ),
        Some(Plot::Grass) => Some(
            Rgb { r: colors.plot_grass.0, g: colors.plot_grass.1, b: colors.plot_grass.2 },
        ),
        Some(Plot::Water) => Some(
            Rgb { r: colors.plot_water.0, g: colors.plot_water.1, b: colors.plot_water.2 },
        ),
        Some(Plot::Town { .. }) => Some(
            Rgb {
                r: spec_dither(nseed, pos, 0, colors.plot_town.0),
                g: spec_dither(nseed, pos, 5, colors.plot_town.1),
                b: spec_dither(nseed, pos, 10, colors.plot_town.2),
            },
        ),
        Some(Plot::Field { seed, .. }) => Some(spec_field_color(seed, pos)),
        _ => None,
    }
}

/// Computes one dithered town-color channel.
fn dither(noise: &Noise, pos: Coord, salt: u64, e: u8) -> (r: u8)
    ensures
        r == spec_dither(noise.seed, pos, salt, e),
{
    let n = (noise.get(pos, salt) % 16) as u8;
    let raised = if e as u32 + n as u32 > 255 {
        255u8
    } else {
        e + n
    };
    if raised < 8 {
        0
    } else {
        raised - 8
    }
}

impl Settlement {
    /// Resolves the sample at relative position `rpos` and hands back its
    /// plot, pinned to the sampler's unique nearest cell.
    fn sample_plot(&self, rpos: Coord) -> (r: Option<Plot>)
        requires
            self.wf(),
            world_in_range(rpos),
        ensures
            r == spec_sample_plot(self.land(), rpos),
    {
        let sample = self.land.get_at_block(rpos);
        proof {
            let seed = self.land().seed();
            let (ci, si) = choose|ci: int, si: int|
                {
                    &&& #[trigger] first_min(seed, rpos, ci)
                    &&& #[trigger] second_min(seed, rpos, ci, si)
                    &&& sample.plot == self.land().spec_plot_at(spec_nb_cell(rpos, ci))
                    &&& sample.closest_d2 == spec_nb_d2(seed, rpos, ci)
                    &&& sample.second_d2 == spec_nb_d2(seed, rpos, si)
                    &&& sample.second_closest == spec_nb_cell(rpos, si)
                };
            lemma_first_min_unique(seed, rpos, ci, spec_closest_idx(seed, rpos));
        }
        sample.plot
    }

    /// Whether trees may spawn at the world position `wpos`: only on ground
    /// the settlement has left hazardous or undesignated.
    pub fn spawn_rules(&self, wpos: Coord) -> (r: SpawnRules)
        requires
            self.wf(),
            origin_in_range(wpos),
        ensures
            r.trees == (match spec_sample_plot(
                self.land(),
                Coord {
                    x: (wpos.x - self.spec_origin().x) as i32,
                    y: (wpos.y - self.spec_origin().y) as i32,
                },
            ) {
                Some(Plot::Hazard) => true,
                None => true,
                _ => false,
            }),
    {
        let rpos = Coord { x: wpos.x - self.origin.x, y: wpos.y - self.origin.y };
        let trees = match self.sample_plot(rpos) {
            Some(Plot::Hazard) => true,
            None => true,
            _ => false,
        };
        SpawnRules { trees }
    }

    /// The minimap color at the relative position `pos`, resolved from the
    /// sampled plot and the settlement's dithering noise.
    pub fn get_color(&self, colors: &Colors, pos: Coord) -> (r: Option<Rgb>)
        requires
            self.wf(),
            world_in_range(pos),
        ensures
            r == spec_plot_color(
                self.noise_seed(),
                spec_sample_plot(self.land(), pos),
                pos,
                *colors,
            ),
    {
        match self.sample_plot(pos) {
            Some(Plot::Dirt) => Some(
                Rgb { r: colors.plot_dirt.0, g: colors.plot_dirt.1, b: colors.plot_dirt.2 },
            ),
            Some(Plot::Grass) => Some(
                Rgb { r: colors.plot_grass.0, g: colors.plot_grass.1, b: colors.plot_grass.2 },
            ),
            Some(Plot::Water) => Some(
                Rgb { r: colors.plot_water.0, g: colors.plot_water.1, b: colors.plot_water.2 },
            ),
            Some(Plot::Town { .. }) => Some(
                Rgb {
                    r: dither(&self.noise, pos, 0, colors.plot_town.0),
                    g: dither(&self.noise, pos, 5, colors.plot_town.1),
                    b: dither(&self.noise, pos, 10, colors.plot_town.2),
                },
            ),
            Some(Plot::Field { seed, .. }) => Some(field_color(seed, pos)),
            _ => None,
        }
    }

    /// Whether a reproducible entity spawn falls on the relative position
    /// `rpos`: only town plots spawn, with a small seeded per-coordinate
    /// chance; the result tells whether the spawn is a training dummy rather
    /// than a live creature. What body a live creature gets is not decided
    /// here and need not be reproducible.
    pub fn supplement_spawn_at(&self, rpos: Coord) -> (r: Option<bool>)
        requires
            self.wf(),
            world_in_range(rpos),
        ensures
            r == (if spec_sample_plot(self.land(), rpos) matches Some(Plot::Town { .. })
                && spec_noise(self.spec_seed() as u64, rpos, 3) % 2000 == 0 {
                Some(spec_noise(self.spec_seed() as u64, rpos, 4) % 15 == 0)
            } else {
                None
            }),
    {
        let is_town = match self.sample_plot(rpos) {
            Some(Plot::Town { .. }) => true,
            _ => false,
        };
        let presence = Noise::new(self.seed as u64);
        if is_town && presence.chance_one_in(rpos, 3, 2000) {
            Some(presence.chance_one_in(rpos, 4, 15))
        } else {
            None
        }
    }
}

/// Computes the field color at `pos`.
fn field_color(fseed: u32, pos: Coord) -> (r: Rgb)
    requires
        world_in_range(pos),
    ensures
        r == spec_field_color(fseed, pos),
{
    let (dx, dy): (i32, i32) = match fseed % 4 {
        0 => (1, 0),
        1 => (0, 1),
        2 => (1, 1),
        _ => (-1, 1),
    };
    proof {
        assert(-2000000 <= (pos.x as i64) * (dx as i64) <= 2000000 && -2000000 <= (pos.y as i64)
            * (dy as i64) <= 2000000) by (nonlinear_arith)
            requires
                -1 <= dx <= 1 && -1 <= dy <= 1 && -2000000 <= pos.x <= 2000000 && -2000000
                    <= pos.y <= 2000000,
        ;
    }
    let proj = (pos.x as i64) * (dx as i64) + (pos.y as i64) * (dy as i64);
    let band = match proj.checked_rem_euclid(6) {
        Some(m) => m,
        None => 0,
    };
    let furrow = band < 3;
    proof {
        assert(furrow == spec_in_furrow(fseed, pos));
    }
    Rgb {
        r: if furrow {
            100
        } else {
            (32 + fseed % 64) as u8
        },
        g: (64 + (fseed >> 8u32) % 128) as u8,
        b: (16 + (fseed >> 16u32) % 32) as u8,
    }
}

impl Settlement {
    /// Writes paths: for each of a fixed number of attempts, picks a random
    /// tile-space origin within the settlement radius, finds a field tile
    /// near it, searches a route to the town center with costs favoring dirt
    /// and avoiding water, hazards and walls, and marks the route with path
    /// way markers, never clearing a marker already present. Without a
    /// placed town, or where no field tile or route is found, the attempt is
    /// skipped.
    pub fn place_paths(&mut self, rng: &mut GenRng)
        requires
            old(self).wf(),
        ensures
            final(self).wf(),
            final(self).structures() == old(self).structures(),
            final(self).farms() == old(self).farms(),
            final(self).town_base() == old(self).town_base(),
            final(self).spec_origin() == old(self).spec_origin(),
            final(self).spec_seed() == old(self).spec_seed(),
            final(self).noise_seed() == old(self).noise_seed(),
            final(self).spec_name() == old(self).spec_name(),
            final(self).land().plots() == old(self).land().plots(),
            final(self).land().hazard_id() == old(self).land().hazard_id(),
            final(self).land().seed() == old(self).land().seed(),
            way_written(
                old(self).land().tiles(),
                final(self).land().tiles(),
                WayKind::Path,
                false,
                old(self).land().hazard_id(),
            ),
            old(self).town_base() is None ==> final(self).land().tiles() == old(self).land().tiles(),
            old(self).town_base() is Some ==> exists|routes: Seq<Seq<Coord>>|
                #[trigger] routes_confine(
                    routes,
                    old(self).town_base()->Some_0,
                    old(self).land().tiles(),
                    final(self).land().tiles(),
                ),
    {
        let ghost entry = *self;
        let town_center = match &self.town {
            Some(t) => t.base_tile,
            None => {
                return ;
            },
        };
        let field_pred = |p: Option<Plot>| -> (b: bool)
            ensures
                b == (p matches Some(Plot::Field { .. })),
            {
                match p {
                    Some(Plot::Field { .. }) => true,
                    _ => false,
                }
            };
        proof {
            assert(forall|p: Option<Plot>| call_requires(field_pred, (p,)));
        }
        let permit = |p: Plot| -> (b: bool)
            ensures
                b,
            { true };
        proof {
            assert(forall|p: Plot| call_requires(permit, (p,)));
        }
        let ghost mut routes: Seq<Seq<Coord>> = Seq::empty();
        let mut n: u32 = 0;
        while n < 6
            invariant
                self.wf(),
                entry.wf(),
                n <= 6,
                entry.town_base() == Some(town_center),
                routes.len() <= n,
                forall|i: int|
                    0 <= i < routes.len() ==> {
                        &&& (#[trigger] routes[i]).len() >= 1
                        &&& routes[i][routes[i].len() - 1] == town_center
                        &&& forall|j: int|
                            0 <= j < routes[i].len() - 1 ==> adjacent(
                                routes[i][j],
                                #[trigger] routes[i][j + 1],
                            )
                    },
                forall|k: u64| #[trigger]
                    self.land().tiles().contains_key(k) ==> (entry.land().tiles().contains_key(k)
                        && self.land().tiles()[k] == entry.land().tiles()[k]) || exists|
                        i: int,
                        j: int,
                    |
                        #![trigger routes[i][j]]
                        0 <= i < routes.len() && 0 <= j < routes[i].len() && spec_key(
                            routes[i][j],
                        ) == k,
                forall|p: Option<Plot>| call_requires(field_pred, (p,)),
                forall|p: Plot| call_requires(permit, (p,)),
                self.spec_name() == entry.spec_name(),
                self.seed == entry.seed,
                self.origin == entry.origin,
                self.farms@ == entry.farms@,
                self.structures@ == entry.structures@,
                self.town_base() == entry.town_base(),
                self.noise == entry.noise,
                self.land().plots() == entry.land().plots(),
                self.land().hazard_id() == entry.land().hazard_id(),
                self.land().seed() == entry.land().seed(),
                way_written(
                    entry.land().tiles(),
                    self.land().tiles(),
                    WayKind::Path,
                    false,
                    entry.land().hazard_id(),
                ),
            decreases 6 - n,
        {
            let search_origin = Coord { x: rng.range_i32(-12, 13), y: rng.range_i32(-12, 13) };
            match self.land.find_tile_near(search_origin, TILE_RADIUS, &field_pred) {
                Some(path_origin) => {
                    let land = &self.land;
                    let plot_count = land.plot_count();
                    let cost = |a: Option<Tile>, b: Option<Tile>| -> (c: u64)
                        {
                            match (a, b) {
                                (_, Some(bt)) => {
                                    let bp = if bt.plot.idx < plot_count {
                                        land.plot_checked(bt.plot)
                                    } else {
                                        None
                                    };
                                    match bp {
                                        Some(Plot::Dirt) => 0,
                                        Some(Plot::Water) => 20,
                                        Some(Plot::Hazard) => 50,
                                        _ => match a {
                                            Some(at) => {
                                                if at.contains(WayKind::Wall) {
                                                    if bt.contains(WayKind::Wall) {
                                                        1000
                                                    } else {
                                                        10
                                                    }
                                                } else {
                                                    1
                                                }
                                            },
                                            None => 1000,
                                        },
                                    }
                                },
                                _ => 1000,
                            }
                        };
                    proof {
                        assert(forall|a: Option<Tile>, b: Option<Tile>|
                            call_requires(cost, (a, b)));
                    }
                    match land.find_path(path_origin, town_center, &cost) {
                        Some(route) => {
                            let ghost pre = self.land().tiles();
                            let ghost pre_routes = routes;
                            self.land.write_path(&route, WayKind::Path, &permit, false);
                            proof {
                                crate::land::lemma_way_written_trans(
                                    entry.land().tiles(),
                                    pre,
                                    self.land().tiles(),
                                    WayKind::Path,
                                    false,
                                    entry.land().hazard_id(),
                                );
                                routes = routes.push(route@);
                                assert forall|k: u64| #[trigger]
                                    self.land().tiles().contains_key(k) implies (
                                entry.land().tiles().contains_key(k) && self.land().tiles()[k]
                                    == entry.land().tiles()[k]) || exists|i: int, j: int|
                                    #![trigger routes[i][j]]
                                    0 <= i < routes.len() && 0 <= j < routes[i].len() && spec_key(
                                        routes[i][j],
                                    ) == k by {
                                    if pre.contains_key(k) && self.land().tiles()[k] == pre[k] {
                                        if !(entry.land().tiles().contains_key(k)
                                            && pre[k] == entry.land().tiles()[k]) {
                                            let (i, j) = choose|i: int, j: int|
                                                #![trigger pre_routes[i][j]]
                                                0 <= i < pre_routes.len() && 0 <= j
                                                    < pre_routes[i].len() && spec_key(
                                                    pre_routes[i][j],
                                                ) == k;
                                            assert(routes[i][j] == pre_routes[i][j]);
                                        }
                                    } else {
                                        let w = choose|w: int|
                                            0 <= w < route@.len() && spec_key(
                                                #[trigger] route@[w],
                                            ) == k;
                                        assert(routes[routes.len() - 1][w] == route@[w]);
                                    }
                                }
                            }
                        },
                        None => {},
                    }
                },
                None => {},
            }
            n = n + 1;
        }
        proof {
            assert(old(self).town_base() == Some(town_center));
            assert(routes_confine(
                routes,
                town_center,
                old(self).land().tiles(),
                self.land().tiles(),
            ));
            assert(old(self).town_base()->Some_0 == town_center);
            assert(routes_confine(
                routes,
                old(self).town_base()->Some_0,
                old(self).land().tiles(),
                self.land().tiles(),
            ));
            assert(exists|rs: Seq<Seq<Coord>>|
                #[trigger] routes_confine(
                    rs,
                    old(self).town_base()->Some_0,
                    old(self).land().tiles(),
                    self.land().tiles(),
                ));
        }
    }
}

/// Probes the four sub-points of tile `c` against the oracle.
fn oracle_rejects<O: WorldOracle>(sim: &O, origin: Coord, c: Coord) -> (r: bool)
    requires
        origin_in_range(origin),
        -2000 <= c.x <= 2000 && -2000 <= c.y <= 2000,
    ensures
        r == spec_oracle_rejects(sim, origin, c),
{
    let mut s: usize = 0;
    let mut r = false;
    while s < 4
        invariant
            origin_in_range(origin),
            -2000 <= c.x <= 2000 && -2000 <= c.y <= 2000,
            s <= 4,
            r == exists|t: int|
                0 <= t < s && !sim.spec_can_host(
                    spec_cell_of(#[trigger] spec_subpoint(origin, c, t)),
                ),
        decreases 4 - s,
    {
        let sx = (s as i32) % 2;
        let sy = (s as i32) / 2;
        let p = Coord { x: origin.x + c.x * 32 + sx * 16, y: origin.y + c.y * 32 + sy * 16 };
        proof {
            assert(p == spec_subpoint(origin, c, s as int));
        }
        if !sim.can_host_settlement(crate::partition::cell_of(p)) {
            r = true;
            proof {
                assert(!sim.spec_can_host(spec_cell_of(spec_subpoint(origin, c, s as int))));
            }
        }
        s = s + 1;
    }
    r
}

} // verus!
