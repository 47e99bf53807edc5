use settlement::coord::Coord;
use settlement::land::Land;
use settlement::noise::Noise;
use settlement::partition::to_tile;
use settlement::plot::{Plot, Tower, WayKind};
use settlement::rng::GenRng;
use settlement::settlement::{
    BuildingGenerator, Colors, Cube, District, Rect, Settlement, StructurePlan, TownGenerator,
    TownPlan, WorldOracle,
};

struct OpenWorld;

impl WorldOracle for OpenWorld {
    fn spec_can_host(&self, _chunk: Coord) -> bool {
        true
    }

    fn spec_alt(&self, _wpos: Coord) -> i32 {
        10
    }

    fn spec_near_path(&self, _wpos: Coord) -> bool {
        false
    }

    fn can_host_settlement(&self, _chunk: Coord) -> bool {
        true
    }

    fn alt_approx(&self, _wpos: Coord) -> i32 {
        10
    }

    fn near_path(&self, _wpos: Coord) -> bool {
        false
    }
}

struct SquareTown;

impl TownGenerator for SquareTown {
    fn generate(&mut self, _rng: &mut GenRng, _origin: Coord, base_tile: Coord) -> TownPlan {
        TownPlan {
            base_tile,
            districts: vec![District {
                aabr: Rect {
                    min: Coord::new(base_tile.x - 4, base_tile.y - 4),
                    max: Coord::new(base_tile.x + 5, base_tile.y + 5),
                },
                alt: 10,
            }],
        }
    }
}

struct BoxBuildings;

impl BuildingGenerator for BoxBuildings {
    fn generate(&mut self, _rng: &mut GenRng, wpos: Coord, alt: i32, keep: bool) -> StructurePlan {
        let half = if keep { 6 } else { 4 };
        StructurePlan {
            bounds_2d: Rect {
                min: Coord::new(wpos.x - half, wpos.y - half),
                max: Coord::new(wpos.x + half, wpos.y + half),
            },
            bounds: Cube {
                min_x: wpos.x - half,
                min_y: wpos.y - half,
                min_z: alt,
                max_x: wpos.x + half,
                max_y: wpos.y + half,
                max_z: alt + 8,
            },
        }
    }
}

fn open_settlement(seed: u64) -> Settlement {
    let oracle = OpenWorld;
    let mut towns = SquareTown;
    let mut buildings = BoxBuildings;
    Settlement::generate(
        String::from("lakeview"),
        Coord::new(0, 0),
        Some(&oracle),
        &mut towns,
        &mut buildings,
        seed,
    )
}

fn test_colors() -> Colors {
    Colors {
        plot_town_path: (80, 70, 60),
        plot_field_dirt: (55, 45, 35),
        plot_field_mound: (60, 60, 40),
        wall_low: (100, 100, 100),
        wall_high: (140, 140, 140),
        tower_color: (90, 90, 90),
        plot_dirt: (90, 70, 50),
        plot_grass: (50, 120, 50),
        plot_water: (30, 50, 150),
        plot_town: (120, 110, 100),
    }
}

fn expected_field_color(fseed: u32, pos: Coord) -> (u8, u8, u8) {
    let (dx, dy): (i64, i64) = match fseed % 4 {
        0 => (1, 0),
        1 => (0, 1),
        2 => (1, 1),
        _ => (-1, 1),
    };
    let furrow = ((pos.x as i64) * dx + (pos.y as i64) * dy).rem_euclid(6) < 3;
    (
        if furrow { 100 } else { (32 + fseed % 64) as u8 },
        (64 + (fseed >> 8) % 128) as u8,
        (16 + (fseed >> 16) % 32) as u8,
    )
}

#[test]
fn noise_is_reproducible_and_salt_sensitive() {
    let n = Noise::new(987654321);
    let c = Coord::new(17, -42);
    assert_eq!(n.get(c, 0), n.get(c, 0));
    let m = Noise::new(987654321);
    assert_eq!(n.get(c, 5), m.get(c, 5));
    assert!(n.chance_one_in(c, 0, 1));
    let mut differs = false;
    for salt in 1..10 {
        if n.get(c, salt) != n.get(c, 0) {
            differs = true;
        }
    }
    assert!(differs);
}

#[test]
fn to_tile_floors_toward_negative_infinity() {
    assert_eq!(to_tile(0), 0);
    assert_eq!(to_tile(31), 0);
    assert_eq!(to_tile(32), 1);
    assert_eq!(to_tile(-1), -1);
    assert_eq!(to_tile(-32), -1);
    assert_eq!(to_tile(-33), -2);
}

#[test]
fn sample_reports_no_plot_on_empty_land() {
    let mut rng = GenRng::new(3);
    let land = Land::new(&mut rng);
    for x in [-100, -1, 0, 50] {
        for y in [-70, 0, 3, 99] {
            let s = land.get_at_block(Coord::new(x, y));
            assert!(s.plot.is_none());
            assert!(s.way.is_none());
            assert!(s.tower.is_none());
            assert!(s.second_d2 >= s.closest_d2);
        }
    }
}

#[test]
fn sample_resolves_a_uniform_plot_everywhere_nearby() {
    let mut rng = GenRng::new(8);
    let mut land = Land::new(&mut rng);
    let grass = land.new_plot(Plot::Grass);
    for x in -6..7 {
        for y in -6..7 {
            land.set(Coord::new(x, y), grass);
        }
    }
    for wx in -64..65 {
        for wy in -64..65 {
            let s = land.get_at_block(Coord::new(wx, wy));
            assert_eq!(s.plot, Some(Plot::Grass));
        }
    }
}

#[test]
fn sample_sees_way_markers_near_their_segment() {
    let mut rng = GenRng::new(21);
    let mut land = Land::new(&mut rng);
    let grass = land.new_plot(Plot::Grass);
    for x in -2..3 {
        for y in -2..3 {
            land.set(Coord::new(x, y), grass);
        }
    }
    let path: Vec<Coord> = vec![Coord::new(0, 0), Coord::new(1, 0), Coord::new(2, 0)];
    land.write_path(&path, WayKind::Path, &|_p: Plot| true, false);
    let mut seen = 0;
    for wx in 0..96 {
        for wy in 0..32 {
            if let Some(ws) = land.get_at_block(Coord::new(wx, wy)).way {
                assert_eq!(ws.kind, WayKind::Path);
                assert!(ws.d2_den >= 1);
                assert!(ws.d2_num < 16 * ws.d2_den);
                seen += 1;
            }
        }
    }
    assert!(seen > 0);
}

#[test]
fn sample_reports_towers_within_radius() {
    let mut rng = GenRng::new(33);
    let mut land = Land::new(&mut rng);
    let grass = land.new_plot(Plot::Grass);
    let cell = Coord::new(0, 0);
    land.set(cell, grass);
    land.set_tower(cell, Tower::Wall);
    let mut seen = 0;
    for wx in 0..32 {
        for wy in 0..32 {
            if let Some((tower, at)) = land.get_at_block(Coord::new(wx, wy)).tower {
                assert_eq!(tower, Tower::Wall);
                let dx = (at.x - wx) as i64;
                let dy = (at.y - wy) as i64;
                assert!(dx * dx + dy * dy < 36);
                seen += 1;
            }
        }
    }
    assert!(seen > 0);
}

#[test]
fn get_color_matches_the_sampled_plot() {
    let s = open_settlement(31);
    let colors = test_colors();
    let mut fields = 0;
    let mut towns = 0;
    for wx in (-380..380).step_by(7) {
        for wy in (-380..380).step_by(7) {
            let pos = Coord::new(wx, wy);
            let sample = s.land_ref().get_at_block(pos);
            let color = s.get_color(&colors, pos);
            match sample.plot {
                Some(Plot::Field { seed, .. }) => {
                    fields += 1;
                    let (r, g, b) = expected_field_color(seed, pos);
                    let c = color.expect("field color");
                    assert_eq!((c.r, c.g, c.b), (r, g, b));
                }
                Some(Plot::Town { .. }) => {
                    towns += 1;
                    assert!(color.is_some());
                }
                Some(Plot::Dirt) => {
                    let c = color.unwrap();
                    assert_eq!((c.r, c.g, c.b), colors.plot_dirt);
                }
                Some(Plot::Grass) => {
                    let c = color.unwrap();
                    assert_eq!((c.r, c.g, c.b), colors.plot_grass);
                }
                Some(Plot::Water) => {
                    let c = color.unwrap();
                    assert_eq!((c.r, c.g, c.b), colors.plot_water);
                }
                Some(Plot::Hazard) | None => assert!(color.is_none()),
            }
        }
    }
    assert!(fields > 0);
    assert!(towns > 0);
}

#[test]
fn spawn_rules_allow_trees_only_off_the_settlement() {
    let s = open_settlement(64);
    let mut denied = 0;
    for wx in (-380..380).step_by(11) {
        for wy in (-380..380).step_by(11) {
            let pos = Coord::new(wx, wy);
            let rules = s.spawn_rules(pos);
            let plot = s.land_ref().get_at_block(pos).plot;
            let expected = matches!(plot, Some(Plot::Hazard) | None);
            assert_eq!(rules.trees, expected);
            if !rules.trees {
                denied += 1;
            }
        }
    }
    assert!(denied > 0);
}

#[test]
fn entity_spawns_are_reproducible_and_town_bound() {
    let s = open_settlement(111);
    for wx in (-380..380).step_by(5) {
        for wy in (-380..380).step_by(5) {
            let pos = Coord::new(wx, wy);
            let a = s.supplement_spawn_at(pos);
            let b = s.supplement_spawn_at(pos);
            assert_eq!(a, b);
            if a.is_some() {
                let plot = s.land_ref().get_at_block(pos).plot;
                assert!(matches!(plot, Some(Plot::Town { .. })));
            }
        }
    }
}

#[test]
fn paths_written_after_generation_preserve_markers() {
    let mut s = open_settlement(400);
    let mut rng = GenRng::new(9);
    let mut before = Vec::new();
    for x in -20..21 {
        for y in -20..21 {
            let c = Coord::new(x, y);
            if let Some(t) = s.land_ref().tile_at(c) {
                for d in 0..4 {
                    if t.ways[d].is_some() {
                        before.push((c, d, t.ways[d]));
                    }
                }
            }
        }
    }
    s.place_paths(&mut rng);
    for (c, d, w) in before {
        assert_eq!(s.land_ref().tile_at(c).unwrap().ways[d], w);
    }
}
