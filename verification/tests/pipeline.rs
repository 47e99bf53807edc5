use settlement::coord::Coord;
use settlement::plot::Plot;
use settlement::rng::GenRng;
use settlement::settlement::{
    BuildingGenerator, Cube, District, Rect, Settlement, StructurePlan, TownGenerator, TownPlan,
    WorldOracle,
};

struct OpenWorld;

impl WorldOracle for OpenWorld {
    fn spec_can_host(&self, _chunk: Coord) -> bool {
        true
    }

    fn spec_alt(&self, _wpos: Coord) -> i32 {
        10
    }

    fn spec_near_path(&self, _wpos: Coord) -> bool {
        false
    }

    fn can_host_settlement(&self, _chunk: Coord) -> bool {
        true
    }

    fn alt_approx(&self, _wpos: Coord) -> i32 {
        10
    }

    fn near_path(&self, _wpos: Coord) -> bool {
        false
    }
}

struct ClosedWorld;

impl WorldOracle for ClosedWorld {
    fn spec_can_host(&self, _chunk: Coord) -> bool {
        false
    }

    fn spec_alt(&self, _wpos: Coord) -> i32 {
        0
    }

    fn spec_near_path(&self, _wpos: Coord) -> bool {
        false
    }

    fn can_host_settlement(&self, _chunk: Coord) -> bool {
        false
    }

    fn alt_approx(&self, _wpos: Coord) -> i32 {
        0
    }

    fn near_path(&self, _wpos: Coord) -> bool {
        false
    }
}

struct SquareTown;

impl TownGenerator for SquareTown {
    fn generate(&mut self, _rng: &mut GenRng, _origin: Coord, base_tile: Coord) -> TownPlan {
        TownPlan {
            base_tile,
            districts: vec![District {
                aabr: Rect {
                    min: Coord::new(base_tile.x - 4, base_tile.y - 4),
                    max: Coord::new(base_tile.x + 5, base_tile.y + 5),
                },
                alt: 10,
            }],
        }
    }
}

struct BoxBuildings;

impl BuildingGenerator for BoxBuildings {
    fn generate(&mut self, _rng: &mut GenRng, wpos: Coord, alt: i32, keep: bool) -> StructurePlan {
        let half = if keep { 6 } else { 4 };
        StructurePlan {
            bounds_2d: Rect {
                min: Coord::new(wpos.x - half, wpos.y - half),
                max: Coord::new(wpos.x + half, wpos.y + half),
            },
            bounds: Cube {
                min_x: wpos.x - half,
                min_y: wpos.y - half,
                min_z: alt,
                max_x: wpos.x + half,
                max_y: wpos.y + half,
                max_z: alt + 8,
            },
        }
    }
}

fn generate_with_open_world(seed: u64) -> Settlement {
    let oracle = OpenWorld;
    let mut towns = SquareTown;
    let mut buildings = BoxBuildings;
    Settlement::generate(
        String::from("riverholm"),
        Coord::new(1000, -2000),
        Some(&oracle),
        &mut towns,
        &mut buildings,
        seed,
    )
}

fn rects_overlap(a: Rect, b: Rect) -> bool {
    a.min.x < b.max.x && b.min.x < a.max.x && a.min.y < b.max.y && b.min.y < a.max.y
}

#[test]
fn generation_is_deterministic_for_a_fixed_seed() {
    let s1 = generate_with_open_world(12345);
    let s2 = generate_with_open_world(12345);
    assert_eq!(s1.seed(), s2.seed());
    assert_eq!(s1.get_origin(), s2.get_origin());
    assert_eq!(s1.farm_count(), s2.farm_count());
    assert_eq!(s1.structure_count(), s2.structure_count());
    assert_eq!(s1.town_base_tile(), s2.town_base_tile());
    for x in -20..21 {
        for y in -20..21 {
            let c = Coord::new(x, y);
            assert_eq!(s1.land_ref().tile_at(c), s2.land_ref().tile_at(c));
            assert_eq!(s1.land_ref().plot_at(c), s2.land_ref().plot_at(c));
        }
    }
    for i in 0..s1.structure_count() {
        let a = s1.structure(i).unwrap();
        let b = s2.structure(i).unwrap();
        assert_eq!(a.bounds_2d(), b.bounds_2d());
        assert_eq!(a.bounds(), b.bounds());
        assert_eq!(a.kind(), b.kind());
    }
}

#[test]
fn generated_settlement_places_farms_and_fields() {
    let s = generate_with_open_world(99);
    assert!(s.farm_count() > 0);
    let mut fields = 0;
    for x in -20..21 {
        for y in -20..21 {
            if let Some(Plot::Field { farm, .. }) = s.land_ref().plot_at(Coord::new(x, y)) {
                fields += 1;
                assert!(s.farm(farm).is_some());
            }
        }
    }
    assert!(fields > 0);
}

#[test]
fn structures_never_overlap() {
    for seed in [1u64, 2, 3, 99, 12345] {
        let s = generate_with_open_world(seed);
        let n = s.structure_count();
        for i in 0..n {
            for j in 0..i {
                let a = s.structure(i).unwrap().bounds_2d();
                let b = s.structure(j).unwrap().bounds_2d();
                assert!(!rects_overlap(a, b), "structures {i} and {j} overlap at seed {seed}");
            }
        }
    }
}

#[test]
fn tile_plot_ids_always_resolve_in_generated_land() {
    let s = generate_with_open_world(7);
    let land = s.land_ref();
    for x in -30..31 {
        for y in -30..31 {
            let c = Coord::new(x, y);
            if let Some(t) = land.tile_at(c) {
                assert!(t.plot.idx < land.plot_count());
                assert!(land.plot_at(c).is_some());
            }
        }
    }
}

#[test]
fn rejecting_world_hazards_everything_and_places_nothing() {
    let oracle = ClosedWorld;
    let mut towns = SquareTown;
    let mut buildings = BoxBuildings;
    let s = Settlement::generate(
        String::from("nowhere"),
        Coord::new(0, 0),
        Some(&oracle),
        &mut towns,
        &mut buildings,
        4242,
    );
    for x in -12..13 {
        for y in -12..13 {
            assert_eq!(s.land_ref().plot_at(Coord::new(x, y)), Some(Plot::Hazard));
        }
    }
    assert_eq!(s.farm_count(), 0);
    assert_eq!(s.structure_count(), 0);
    assert!(s.town_base_tile().is_none());
}

#[test]
fn town_placement_succeeds_on_open_world() {
    let s = generate_with_open_world(2024);
    let base = s.town_base_tile().expect("town placed");
    let mut town_tiles = 0;
    for x in base.x - 6..base.x + 7 {
        for y in base.y - 6..base.y + 7 {
            if let Some(Plot::Town { .. }) = s.land_ref().plot_at(Coord::new(x, y)) {
                town_tiles += 1;
            }
        }
    }
    assert!(town_tiles > 0);
}

#[test]
fn town_districts_cover_their_footprint() {
    let s = generate_with_open_world(321);
    let base = s.town_base_tile().expect("town placed");
    let d = s.town_district(0).expect("one district");
    assert!(s.town_district(1).is_none());
    assert_eq!(d.aabr.min, Coord::new(base.x - 4, base.y - 4));
    for x in d.aabr.min.x..d.aabr.max.x {
        for y in d.aabr.min.y..d.aabr.max.y {
            let plot = s.land_ref().plot_at(Coord::new(x, y));
            assert!(
                matches!(plot, Some(Plot::Town { .. })) || plot == Some(Plot::Hazard),
                "district cell ({x},{y}) holds {plot:?}"
            );
        }
    }
}

#[test]
fn settlement_reports_its_identity() {
    let s = generate_with_open_world(5);
    assert_eq!(s.name(), "riverholm");
    assert_eq!(s.get_origin(), Coord::new(1000, -2000));
    assert_eq!(s.radius(), 400);
}

#[test]
fn generation_without_oracle_designates_nothing() {
    let mut towns = SquareTown;
    let mut buildings = BoxBuildings;
    let s = Settlement::generate(
        String::from("plain"),
        Coord::new(0, 0),
        Option::<&OpenWorld>::None,
        &mut towns,
        &mut buildings,
        77,
    );
    let mut hazards = 0;
    for x in -12..13 {
        for y in -12..13 {
            if s.land_ref().plot_at(Coord::new(x, y)) == Some(Plot::Hazard) {
                hazards += 1;
            }
        }
    }
    assert_eq!(hazards, 0);
    assert!(s.farm_count() > 0);
}

#[test]
fn seeded_rng_is_reproducible_and_in_range() {
    let mut a = GenRng::new(555);
    let mut b = GenRng::new(555);
    for _ in 0..100 {
        assert_eq!(a.next_u32(), b.next_u32());
    }
    let mut c = GenRng::new(556);
    for _ in 0..100 {
        let v = c.range_u32(3, 17);
        assert!((3..17).contains(&v));
        let w = c.range_i32(-5, 6);
        assert!((-5..6).contains(&w));
    }
    let mut d = GenRng::new(1);
    assert_eq!(d.range_u32(5, 6), 5);
    assert_eq!(d.range_i32(-9, -8), -9);
}
