//! Plot classification, way and tower markers, tiles, and the append-only
//! plot arena whose identifiers stay valid for the arena's whole lifetime.

use vstd::prelude::*;

verus! {

/// Identifier of a plot in a [`PlotStore`]: a plain index. The arena never
/// removes entries, so an issued identifier is always dereferenceable.
#[derive(Clone, Copy, PartialEq, Eq, Structural, Debug)]
pub struct PlotId {
    pub idx: usize,
}

/// Identifier of a farm in a settlement's farm registry.
#[derive(Clone, Copy, PartialEq, Eq, Structural, Debug)]
pub struct FarmId {
    pub idx: usize,
}

/// Identifier of a district in a town plan.
#[derive(Clone, Copy, PartialEq, Eq, Structural, Debug)]
pub struct DistrictId {
    pub idx: usize,
}

/// The crop kinds a field can carry.
#[derive(Clone, Copy, PartialEq, Eq, Structural, Debug)]
pub enum Crop {
    Corn,
    Wheat,
    Cabbage,
    Pumpkin,
    Flax,
    Carrot,
    Tomato,
    Radish,
    Turnip,
    Sunflower,
}

/// The terrain/use classification of a tile-space cell.
#[derive(Clone, Copy, PartialEq, Eq, Structural, Debug)]
pub enum Plot {
    Hazard,
    Dirt,
    Grass,
    Water,
    Town { district: Option<DistrictId> },
    Field { farm: FarmId, seed: u32, crop: Crop },
}

/// A path or wall marker on one side of a tile.
#[derive(Clone, Copy, PartialEq, Eq, Structural, Debug)]
pub enum WayKind {
    Path,
    Wall,
}

impl WayKind {
    /// The rendering width of the way, in blocks.
    pub fn width(&self) -> (r: u32)
        ensures
            r == spec_way_width(*self),
    {
        match self {
            WayKind::Path => 4,
            WayKind::Wall => 3,
        }
    }
}

/// The rendering width of a way kind, in blocks.
pub open spec fn spec_way_width(w: WayKind) -> u32 {
    match w {
        WayKind::Path => 4u32,
        WayKind::Wall => 3u32,
    }
}

/// A point feature attached to a tile.
#[derive(Clone, Copy, PartialEq, Eq, Structural, Debug)]
pub enum Tower {
    Wall,
}

impl Tower {
    /// The tower's radius of effect, in blocks.
    pub fn radius(&self) -> (r: u32)
        ensures
            r == 6,
    {
        match self {
            Tower::Wall => 6,
        }
    }
}

/// The per-cell record of the land: one plot reference, four optional way
/// markers (one per cardinal direction, in the order +y, +x, -y, -x), and an
/// optional tower marker.
#[derive(Clone, Copy, PartialEq, Eq, Debug)]
pub struct Tile {
    pub plot: PlotId,
    pub ways: [Option<WayKind>; 4],
    pub tower: Option<Tower>,
}

impl Tile {
    /// Whether any side of the tile carries a way marker of `kind`.
    pub fn contains(&self, kind: WayKind) -> (r: bool)
        ensures
            r == exists|i: int| 0 <= i < 4 && self.ways[i] == Some(kind),
    {
        let r = self.ways[0] == Some(kind) || self.ways[1] == Some(kind) || self.ways[2]
            == Some(kind) || self.ways[3] == Some(kind);
        proof {
            if r {
                assert(exists|i: int| 0 <= i < 4 && self.ways[i] == Some(kind));
            } else {
                assert(forall|i: int| 0 <= i < 4 ==> self.ways[i] != Some(kind)) by {
                    assert(self.ways[0] != Some(kind));
                    assert(self.ways[1] != Some(kind));
                    assert(self.ways[2] != Some(kind));
                    assert(self.ways[3] != Some(kind));
                }
            }
        }
        r
    }
}

/// Append-only store of plots. Entries are never removed or replaced, so a
/// [`PlotId`] handed out by [`PlotStore::insert`] resolves for the store's
/// whole lifetime.
pub struct PlotStore {
    items: Vec<Plot>,
}

impl View for PlotStore {
    type V = Seq<Plot>;

    closed spec fn view(&self) -> Seq<Plot> {
        self.items@
    }
}

impl PlotStore {
    /// An empty store.
    pub fn new() -> (r: PlotStore)
        ensures
            r@ == Seq::<Plot>::empty(),
    {
        PlotStore { items: Vec::new() }
    }

    /// How many plots the store holds.
    pub fn len(&self) -> (r: usize)
        ensures
            r == self@.len(),
    {
        self.items.len()
    }

    /// Appends a plot and returns its identifier.
    pub fn insert(&mut self, plot: Plot) -> (id: PlotId)
        ensures
            final(self)@ == old(self)@.push(plot),
            id.idx == old(self)@.len(),
    {
        let idx = self.items.len();
        self.items.push(plot);
        PlotId { idx }
    }

    /// Resolves an identifier. Every identifier the store has issued is in
    /// range.
    pub fn get(&self, id: PlotId) -> (r: &Plot)
        requires
            id.idx < self@.len(),
        ensures
            *r == self@[id.idx as int],
    {
        &self.items[id.idx]
    }
}

} // verus!
