use settlement::coord::{key, Coord};
use settlement::land::Land;
use settlement::plot::{Plot, Tile, WayKind};
use settlement::rng::GenRng;

fn fresh_land(seed: u64) -> Land {
    let mut rng = GenRng::new(seed);
    Land::new(&mut rng)
}

fn adjacent(a: Coord, b: Coord) -> bool {
    (a.x == b.x && (b.y == a.y + 1 || b.y + 1 == a.y))
        || (a.y == b.y && (b.x == a.x + 1 || b.x + 1 == a.x))
}

#[test]
fn grow_region_of_five_from_isolated_tile() {
    let land = fresh_land(7);
    let start = Coord::new(100, 100);
    let region = land.grow_from(start, 5, &|_p: Option<Plot>| true);
    assert_eq!(region.len(), 5);
    let mut expected = vec![
        start,
        Coord::new(100, 101),
        Coord::new(101, 100),
        Coord::new(100, 99),
        Coord::new(99, 100),
    ];
    let mut actual = region.clone();
    let sort_key = |c: &Coord| (c.x, c.y);
    expected.sort_by_key(sort_key);
    actual.sort_by_key(sort_key);
    assert_eq!(actual, expected);
}

#[test]
fn grow_region_exact_bound_and_connected() {
    let land = fresh_land(11);
    let start = Coord::new(-3, 8);
    let region = land.grow_from(start, 24, &|_p: Option<Plot>| true);
    assert_eq!(region.len(), 24);
    assert_eq!(region[0], start);
    for i in 0..region.len() {
        for j in 0..i {
            assert_ne!(region[i], region[j]);
        }
        if i > 0 {
            assert!((0..i).any(|j| adjacent(region[j], region[i])));
        }
    }
}

#[test]
fn grow_region_blocked_everywhere_returns_start_only() {
    let land = fresh_land(13);
    let start = Coord::new(0, 0);
    let region = land.grow_from(start, 10, &|_p: Option<Plot>| false);
    assert_eq!(region.len(), 1);
    assert_eq!(region[0], start);
}

#[test]
fn grow_region_zero_budget_still_returns_start() {
    let land = fresh_land(17);
    let start = Coord::new(2, 2);
    let region = land.grow_from(start, 0, &|_p: Option<Plot>| true);
    assert_eq!(region.len(), 1);
    assert_eq!(region[0], start);
}

#[test]
fn path_over_open_grid_has_manhattan_length() {
    let land = fresh_land(19);
    let a = Coord::new(0, 0);
    let b = Coord::new(5, 3);
    let route = land
        .find_path(a, b, &|_f: Option<Tile>, _t: Option<Tile>| 1u64)
        .expect("open grid route");
    assert_eq!(route[0], a);
    assert_eq!(*route.last().unwrap(), b);
    for w in route.windows(2) {
        assert!(adjacent(w[0], w[1]));
    }
    assert_eq!(route.len(), 9);
}

#[test]
fn path_to_self_is_single_tile() {
    let land = fresh_land(23);
    let a = Coord::new(4, -2);
    let route = land
        .find_path(a, a, &|_f: Option<Tile>, _t: Option<Tile>| 1u64)
        .expect("trivial route");
    assert_eq!(route, vec![a]);
}

#[test]
fn path_budget_exhaustion_reports_none() {
    let land = fresh_land(29);
    let a = Coord::new(0, 0);
    let b = Coord::new(500, 500);
    assert!(land.find_path(a, b, &|_f: Option<Tile>, _t: Option<Tile>| 1u64).is_none());
}

#[test]
fn write_path_marks_both_sides_when_tiles_exist() {
    let mut land = fresh_land(31);
    let hazard = land.hazard();
    let a = Coord::new(0, 0);
    let b = Coord::new(0, 1);
    land.set(a, hazard);
    land.set(b, hazard);
    land.write_path(&vec![a, b], WayKind::Path, &|_p: Plot| true, false);
    assert_eq!(land.tile_at(a).unwrap().ways[0], Some(WayKind::Path));
    assert_eq!(land.tile_at(b).unwrap().ways[2], Some(WayKind::Path));
}

#[test]
fn write_path_creates_placeholder_for_missing_first_tile() {
    let mut land = fresh_land(37);
    let a = Coord::new(5, 5);
    let b = Coord::new(6, 5);
    land.write_path(&vec![a, b], WayKind::Path, &|_p: Plot| true, false);
    let t = land.tile_at(a).expect("placeholder tile");
    assert_eq!(t.plot, land.hazard());
    assert_eq!(t.ways[1], Some(WayKind::Path));
    assert!(land.tile_at(b).is_none());
}

#[test]
fn write_path_without_overwrite_keeps_existing_marker() {
    let mut land = fresh_land(41);
    let hazard = land.hazard();
    let a = Coord::new(0, 0);
    let b = Coord::new(0, 1);
    land.set(a, hazard);
    land.set(b, hazard);
    land.write_path(&vec![a, b], WayKind::Path, &|_p: Plot| true, false);
    land.write_path(&vec![a, b], WayKind::Wall, &|_p: Plot| true, false);
    assert_eq!(land.tile_at(a).unwrap().ways[0], Some(WayKind::Path));
    assert_eq!(land.tile_at(b).unwrap().ways[2], Some(WayKind::Path));
}

#[test]
fn write_path_with_overwrite_replaces_but_never_clears() {
    let mut land = fresh_land(43);
    let hazard = land.hazard();
    let a = Coord::new(0, 0);
    let b = Coord::new(0, 1);
    land.set(a, hazard);
    land.set(b, hazard);
    land.write_path(&vec![a, b], WayKind::Path, &|_p: Plot| true, false);
    land.write_path(&vec![a, b], WayKind::Wall, &|_p: Plot| true, true);
    assert_eq!(land.tile_at(a).unwrap().ways[0], Some(WayKind::Wall));
    assert_eq!(land.tile_at(b).unwrap().ways[2], Some(WayKind::Wall));
}

#[test]
fn write_path_skips_zero_step_pairs() {
    let mut land = fresh_land(47);
    let a = Coord::new(1, 1);
    land.write_path(&vec![a, a], WayKind::Path, &|_p: Plot| true, false);
    assert!(land.tile_at(a).is_none());
}

#[test]
fn write_path_skips_non_cardinal_steps() {
    let mut land = fresh_land(49);
    let hazard = land.hazard();
    let a = Coord::new(0, 0);
    let diag = Coord::new(1, 1);
    let far = Coord::new(0, 3);
    land.set(a, hazard);
    land.set(diag, hazard);
    land.set(far, hazard);
    land.write_path(&vec![a, diag], WayKind::Path, &|_p: Plot| true, false);
    land.write_path(&vec![a, far], WayKind::Path, &|_p: Plot| true, false);
    assert_eq!(land.tile_at(a).unwrap().ways, [None, None, None, None]);
    assert_eq!(land.tile_at(diag).unwrap().ways, [None, None, None, None]);
    assert_eq!(land.tile_at(far).unwrap().ways, [None, None, None, None]);
}

#[test]
fn set_overwrites_way_state_destructively() {
    let mut land = fresh_land(53);
    let hazard = land.hazard();
    let a = Coord::new(0, 0);
    let b = Coord::new(1, 0);
    land.set(a, hazard);
    land.set(b, hazard);
    land.write_path(&vec![a, b], WayKind::Path, &|_p: Plot| true, false);
    assert_eq!(land.tile_at(a).unwrap().ways[1], Some(WayKind::Path));
    land.set(a, hazard);
    assert_eq!(land.tile_at(a).unwrap().ways, [None, None, None, None]);
}

#[test]
fn find_tile_near_prefers_origin_and_respects_cap() {
    let land = fresh_land(59);
    let origin = Coord::new(3, -4);
    let hit = land.find_tile_near(origin, 12, &|p: Option<Plot>| p.is_none());
    assert_eq!(hit, Some(origin));
    let miss = land.find_tile_near(origin, 12, &|_p: Option<Plot>| false);
    assert_eq!(miss, None);
}

#[test]
fn arena_ids_resolve_for_every_tile() {
    let mut land = fresh_land(61);
    let grass = land.new_plot(Plot::Grass);
    let water = land.new_plot(Plot::Water);
    land.set(Coord::new(0, 0), grass);
    land.set(Coord::new(0, 1), water);
    land.set(Coord::new(7, 7), grass);
    for x in -2..9 {
        for y in -2..9 {
            let c = Coord::new(x, y);
            if let Some(t) = land.tile_at(c) {
                assert!(t.plot.idx < land.plot_count());
                let p = land.plot_at(c).unwrap();
                assert!(p == Plot::Grass || p == Plot::Water || p == Plot::Hazard);
            }
        }
    }
}

#[test]
fn packed_keys_are_distinct_for_distinct_coords() {
    let mut seen = std::collections::HashMap::new();
    for x in -5..6 {
        for y in -5..6 {
            let c = Coord::new(x, y);
            let k = key(c);
            assert!(seen.insert(k, c).is_none());
        }
    }
}
