use hexworld::fov::{FovStatus, HexFov};
use hexworld::polar::PolarPoint;
use hexworld::geom::{hex_length, Dir6, Vec2};
use std::collections::HashSet;

fn scan<F: Fn(Vec2) -> bool>(mut fov: HexFov<F>) -> Vec<Vec2> {
    let mut out = Vec::new();
    while let Some(p) = fov.next() {
        out.push(p);
    }
    out
}

fn disk(r: i32) -> HashSet<Vec2> {
    let mut s = HashSet::new();
    for y in -r..=r {
        for x in -r..=r {
            let v = Vec2::new(x, y);
            if hex_length(v) <= r {
                s.insert(v);
            }
        }
    }
    s
}

#[test]
fn open_field_range_one_sees_seven_cells() {
    let out = scan(HexFov::new(|_p: Vec2| false, 1));
    let seen: HashSet<Vec2> = out.iter().cloned().collect();
    assert_eq!(seen.len(), 7);
    assert_eq!(seen, disk(1));
    // The origin comes first, then the first ring from the north.
    assert_eq!(out[0], Vec2::new(0, 0));
    assert_eq!(out[1], Vec2::new(-1, -1));
    assert_eq!(out[2], Vec2::new(0, -1));
}

#[test]
fn open_field_sees_the_whole_disk() {
    for r in 0..8u32 {
        let seen: HashSet<Vec2> = scan(HexFov::new(|_p: Vec2| false, r)).into_iter().collect();
        let reach = if r == 0 { 1 } else { r as i32 };
        assert_eq!(seen, disk(reach));
        assert_eq!(seen.len() as i32, 1 + 3 * reach * (reach + 1));
    }
}

#[test]
fn a_single_wall_casts_a_shadow() {
    let out = scan(HexFov::new(|p: Vec2| p == Vec2::new(1, 0), 3));
    let seen: HashSet<Vec2> = out.iter().cloned().collect();
    // The wall itself is seen, the cells straight behind it are not.
    assert!(seen.contains(&Vec2::new(1, 0)));
    assert!(!seen.contains(&Vec2::new(2, 0)));
    assert!(!seen.contains(&Vec2::new(3, 0)));
    // The cells beside the shadow are.
    assert!(seen.contains(&Vec2::new(1, -1)));
    assert!(seen.contains(&Vec2::new(2, 1)));
    assert_eq!(seen.len(), 33);
    assert_eq!(out.len(), 36);
}

#[test]
fn a_wall_in_any_direction_casts_a_shadow() {
    for i in 0..6 {
        let d = Dir6::from_int(i).to_v2();
        let left = Dir6::from_int(i - 1).to_v2();
        let right = Dir6::from_int(i + 1).to_v2();
        for range in 2..7u32 {
            let seen: HashSet<Vec2> =
                scan(HexFov::new(move |p: Vec2| p == d, range)).into_iter().collect();
            assert!(!seen.contains(&Vec2::new(2 * d.x, 2 * d.y)), "direction {} range {}", i, range);
            assert!(seen.contains(&Vec2::new(d.x + left.x, d.y + left.y)));
            assert!(seen.contains(&Vec2::new(d.x + right.x, d.y + right.y)));
        }
    }
}

#[test]
fn opaque_origin_ring_stops_the_scan() {
    let seen: HashSet<Vec2> = scan(HexFov::new(|_p: Vec2| true, 5)).into_iter().collect();
    assert_eq!(seen, disk(1));
}

#[test]
fn fake_isometric_shows_acute_corners() {
    let wall = |p: Vec2| hex_length(p) >= 2;
    let plain: HashSet<Vec2> = scan(HexFov::new(wall, 5)).into_iter().collect();
    let out = scan(HexFov::new(wall, 5).fake_isometric());
    let fancy: HashSet<Vec2> = out.iter().cloned().collect();
    assert_eq!(plain, disk(2));
    assert_eq!(out.len(), 25);
    let extra: HashSet<Vec2> = fancy.difference(&plain).cloned().collect();
    let expected: HashSet<Vec2> =
        [Vec2::new(-2, 1), Vec2::new(-1, 2), Vec2::new(1, -2), Vec2::new(2, -1)]
            .into_iter()
            .collect();
    assert_eq!(extra, expected);
}

#[test]
fn scan_stays_done() {
    let mut fov = HexFov::new(|_p: Vec2| true, 0);
    let mut n = 0;
    while fov.next().is_some() {
        n += 1;
    }
    assert_eq!(n, 8);
    assert_eq!(fov.next(), None);
}

#[test]
fn polar_point_cells() {
    let p = PolarPoint::new(0, 1, 1);
    assert_eq!(p.to_v2(), Vec2::new(-1, -1));
    let q = p.next();
    assert_eq!(q, PolarPoint::new(1, 2, 1));
    assert_eq!(q.to_v2(), Vec2::new(0, -1));
    assert!(q.is_below(PolarPoint::new(6, 1, 1)));
    assert!(!PolarPoint::new(13, 2, 1).is_below(PolarPoint::new(6, 1, 1)));
    // Carried one ring out, the point keeps its angle.
    let f = q.further();
    assert_eq!(f, PolarPoint::new(1, 2, 2));
    assert_eq!(f.to_v2(), Vec2::new(-1, -2));
    // Ring two, cell seven: on the southern side.
    assert_eq!(PolarPoint::new(7, 2, 2).to_v2(), Vec2::new(1, 2));
    assert_eq!(PolarPoint::new(0, 1, 0).to_v2(), Vec2::new(0, 0));
}

#[test]
fn polar_point_side_cells() {
    // Along the eastern rim going south.
    let p = PolarPoint::new(1, 1, 2);
    assert_eq!(p.to_v2(), Vec2::new(0, -2));
    assert_eq!(p.next().to_v2(), Vec2::new(1, -1));
    assert_eq!(p.side_point(), Some(Vec2::new(1, -2)));
    // Along the western rim going north.
    let w = PolarPoint::new(8, 2, 2);
    assert_eq!(w.to_v2(), Vec2::new(0, 2));
    assert_eq!(w.side_point(), Some(Vec2::new(-1, 2)));
    assert_eq!(PolarPoint::new(0, 1, 2).side_point(), None);
}

#[test]
fn directions() {
    assert_eq!(Dir6::from_int(0), Dir6::North);
    assert_eq!(Dir6::from_int(-1), Dir6::NorthWest);
    assert_eq!(Dir6::from_int(8), Dir6::SouthEast);
    assert_eq!(Dir6::South.to_v2(), Vec2::new(1, 1));
    assert_eq!(hex_length(Vec2::new(-3, 4)), 7);
    assert_eq!(hex_length(Vec2::new(-3, -4)), 4);
}

#[test]
fn fov_status_values() {
    assert_ne!(FovStatus::Seen, FovStatus::Remembered);
}

#[test]
fn polar_point_past_a_full_turn() {
    // Cell seven of the first ring is cell one again.
    let p = PolarPoint::new(13, 2, 1);
    assert_eq!(p.to_v2(), Vec2::new(0, -1));
    assert_eq!(p.next(), PolarPoint::new(15, 2, 1));
    assert_eq!(p.next().to_v2(), Vec2::new(1, 0));
    let side = p.side_point().unwrap();
    assert_eq!(side, Vec2::new(1, -1));
    assert_eq!(hex_length(side), 2);
}
