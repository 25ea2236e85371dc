use hexworld::geom::Vec2;
use hexworld::location::{Location, Portal, Sector, TerrainQuery};
use hexworld::world::World;
use rand::Rng;

#[test]
fn test_wraparound() {
    let l1 = Location::new(0, 0, 0);
    let l2 = l1.add(Vec2::new(300, 300));
    assert_eq!((44, 44), (l2.x, l2.y));
}

#[test]
fn test_morton() {
    let mut rng = rand::thread_rng();

    for _ in 0..1000 {
        let x = rng.gen::<u32>() & 0xff_ffff;
        assert_eq!(x, Location::from_morton(x).to_morton());
    }
}

#[test]
fn test_location_to_sector() {
    let s = Sector::new(0, 0, 0);
    assert_eq!(s.origin(), Location::new(0, 0, 0));

    // Sector division near origin
    assert_eq!(Location::new(0, 0, 0).sector(), Sector::new(0, 0, 0));
    assert_eq!(Location::new(-1, -1, 0).sector(), Sector::new(0, -1, 0));
    assert_eq!(Location::new(0, 1, 0).sector(), Sector::new(-1, 0, 0));
    assert_eq!(Location::new(-1, 0, 0).sector(), Sector::new(-1, -1, 0));

    for y in -100..100 {
        for x in -100..100 {
            let loc = Location::new(x, y, 0);
            let (u, v) = loc.to_rect_coords();
            assert_eq!(loc, Location::from_rect_coords(u, v, loc.z), "u: {}, v: {}", u, v);

            assert!(
                loc.sector().iter().iter().find(|&&x| x == loc).is_some(),
                "{:?} not found in sector {:?}",
                loc,
                loc.sector()
            );
        }
    }
}

#[test]
fn test_sector_iter() {
    let s = Sector::new(0, 0, 0);

    for loc in s.iter() {
        assert_eq!(s, loc.sector(), "Location: {:?}", loc);
    }
}

#[test]
fn rect_coords_round_trip_whole_plane() {
    for z in [-128i8, 0, 5, 127] {
        for y in -128..=127i8 {
            for x in -128..=127i8 {
                let loc = Location::new(x, y, z);
                let (u, v) = loc.to_rect_coords();
                assert_eq!(loc, Location::from_rect_coords(u, v, z));
            }
        }
    }
}

#[test]
fn rect_coords_values() {
    assert_eq!(Location::new(3, 1, 0).to_rect_coords(), (2, 2));
    assert_eq!(Location::new(-1, -2, 0).to_rect_coords(), (1, -2));
    assert_eq!(Location::new(-128, 127, 0).to_rect_coords(), (-255, -1));
    assert_eq!(Location::from_rect_coords(1, -2, 4), Location::new(-1, -2, 4));
    // Rectangular coordinates far outside the byte range wrap around.
    assert_eq!(Location::from_rect_coords(512, 256, 0), Location::new(0, 0, 0));
    assert_eq!(Location::from_rect_coords(i32::MAX, i32::MIN, 0), Location::new(0, 1, 0));
}

#[test]
fn morton_round_trip_every_location() {
    for z in [-128i8, -1, 0, 1, 127] {
        for y in -128..=127i8 {
            for x in -128..=127i8 {
                let loc = Location::new(x, y, z);
                let code = loc.to_morton();
                assert!(code < 0x100_0000);
                assert_eq!(Location::from_morton(code), loc);
            }
        }
    }
}

#[test]
fn morton_values() {
    assert_eq!(Location::new(1, 0, 0).to_morton(), 1);
    assert_eq!(Location::new(0, 1, 0).to_morton(), 2);
    assert_eq!(Location::new(3, 0, 0).to_morton(), 5);
    assert_eq!(Location::new(0, 0, 1).to_morton(), 0x10000);
    assert_eq!(Location::new(-1, -1, -1).to_morton(), 0xff_ffff);
    assert_eq!(Location::from_morton(0b1110), Location::new(2, 3, 0));
    // Bits above the 24th are ignored.
    assert_eq!(Location::from_morton(0xff00_0003), Location::new(1, 1, 0));
}

#[test]
fn sector_cells_hold_each_location_once() {
    for (x, y) in [(0i8, 0i8), (127, -128), (-128, 127), (-77, 33), (100, 100)] {
        let loc = Location::new(x, y, 3);
        let cells = loc.sector().iter();
        assert_eq!(cells.len(), 880);
        assert_eq!(cells.iter().filter(|&&c| c == loc).count(), 1);
    }
}

#[test]
fn sector_anchors() {
    let s = Sector::new(1, -1, 2);
    assert_eq!(s.origin(), Location::from_rect_coords(40, -22, 2));
    assert_eq!(s.center(), Location::from_rect_coords(59, -12, 2));
    assert_eq!(s.rect_coord_loc(3, 4), Location::from_rect_coords(43, -18, 2));
    assert_eq!(s.iter()[41], s.rect_coord_loc(1, 1));
    assert_eq!(s.center().sector(), s);
}

#[test]
fn distances() {
    let a = Location::new(0, 0, 0);
    assert_eq!(a.distance_from(Location::new(3, 3, 0)), Some(3));
    assert_eq!(a.distance_from(Location::new(2, -3, 0)), Some(5));
    assert_eq!(a.distance_from(Location::new(-4, 1, 0)), Some(5));
    assert_eq!(a.distance_from(Location::new(0, -6, 0)), Some(6));
    assert_eq!(a.distance_from(Location::new(1, 1, 1)), None);
    assert_eq!(a.metric_distance(Location::new(-2, -5, 0)), 5);
    assert_eq!(a.metric_distance(Location::new(0, 0, 1)), i32::MAX);
    assert_eq!(
        Location::new(-128, 0, 0).v2_at(Location::new(127, 0, 0)),
        Some(Vec2::new(255, 0))
    );
    assert_eq!(a.v2_at(Location::new(0, 0, 2)), None);
}

#[test]
fn vector_arithmetic_wraps() {
    let l = Location::new(120, -120, 5);
    assert_eq!(l.add(Vec2::new(10, -10)), Location::new(-126, 126, 5));
    assert_eq!(l.sub(Vec2::new(-10, 10)), Location::new(-126, 126, 5));
    assert_eq!(l.add(Vec2::new(256, -512)), l);
    assert_eq!(Location::origin().sub(Vec2::new(1, 2)), Location::new(-1, -2, 0));
}

#[test]
fn neighbors_are_the_six_directions() {
    let n = Location::new(127, 0, 1).neighbors();
    assert_eq!(
        n,
        vec![
            Location::new(126, -1, 1),
            Location::new(127, -1, 1),
            Location::new(-128, 0, 1),
            Location::new(-128, 1, 1),
            Location::new(127, 1, 1),
            Location::new(126, 0, 1),
        ]
    );
}

#[test]
fn portals_compose() {
    let a = Location::new(10, 20, 0);
    let b = Location::new(-100, 120, 1);
    let c = Location::new(50, -60, 2);
    let p1 = Portal::new(a, b);
    let p2 = Portal::new(b, c);
    assert_eq!(p1, Portal { dx: -110, dy: 100, z: 1 });
    assert_eq!(a.add_portal(p1), b);
    assert_eq!(a.add_portal(p1).add_portal(p2), a.add_portal(p1.add(p2)));
    assert_eq!(a.add_portal(p1.add(p2)), c);
    assert_eq!(p1.add(p2), Portal { dx: 40, dy: -80, z: 2 });
}

#[test]
fn jump_follows_one_portal() {
    let gate = Location::new(2, 0, 0);
    let far = Location::new(-50, 40, 3);
    let mut world = World::new();
    world.set_portal(gate, Portal::new(gate, far));
    let start = Location::new(1, 0, 0);
    assert_eq!(start.jump(&world, Vec2::new(1, 0)), far);
    // Without a portal at the target a jump is plain displacement.
    assert_eq!(start.jump(&world, Vec2::new(0, 1)), start.add(Vec2::new(0, 1)));
    // The portal is followed once, even if another one waits at its far end.
    world.set_portal(far, Portal::new(far, start));
    assert_eq!(start.jump(&world, Vec2::new(1, 0)), far);
}

#[test]
fn world_portals() {
    let mut world = World::new();
    let a = Location::new(5, 5, 0);
    let b = Location::new(-5, 7, 1);
    assert_eq!(world.portal(a), None);
    world.set_portal(a, Portal::new(a, b));
    assert_eq!(world.portal(a), Some(Portal::new(a, b)));
    assert_eq!(world.portal(b), None);
    // Setting a portal again replaces the old one.
    world.set_portal(a, Portal::new(a, a));
    assert_eq!(world.portal(a), Some(Portal { dx: 0, dy: 0, z: 0 }));
    world.set_portal(b, Portal::new(b, a));
    assert_eq!(world.portal(a), Some(Portal { dx: 0, dy: 0, z: 0 }));
    assert_eq!(world.portal(b), Some(Portal { dx: 10, dy: -2, z: 0 }));
}

#[test]
fn game_view_starts_with_rock_brush() {
    let view = hexworld::game_view::GameView::new(World::new());
    assert_eq!(view.terrain_brush, 7);
    assert_eq!(view.world.portal(Location::origin()), None);
}
