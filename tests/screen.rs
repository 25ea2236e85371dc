use hexworld::geom::Vec2;
use hexworld::screen::{on_screen, onscreen_locations};
use std::collections::HashSet;

#[test]
fn screen_edges() {
    assert!(on_screen(Vec2::new(0, 0)));
    assert!(on_screen(Vec2::new(20, 0)));
    assert!(!on_screen(Vec2::new(21, 0)));
    assert!(on_screen(Vec2::new(-19, 0)));
    assert!(!on_screen(Vec2::new(-20, 0)));
    assert!(!on_screen(Vec2::new(0, 21)));
    assert!(!on_screen(Vec2::new(0, -22)));
    assert!(on_screen(Vec2::new(10, 11)));
    assert!(!on_screen(Vec2::new(11, 11)));
}

#[test]
fn onscreen_points() {
    let pts = onscreen_locations();
    assert_eq!(pts.len(), 879);
    assert_eq!(pts[0], Vec2::new(-2, -20));
    let set: HashSet<Vec2> = pts.iter().cloned().collect();
    assert_eq!(set.len(), pts.len());
    for p in &pts {
        assert!(on_screen(*p));
    }
}
