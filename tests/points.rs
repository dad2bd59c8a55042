use rust_colors::bounding_box::BoundingBox;
use rust_colors::points::{ColorPoint, Point, SpacePoint};

#[test]
fn space_point_packs_and_unpacks() {
    let s = SpacePoint::new(17, 4000);
    assert_eq!(s.0, 4000 * 4096 + 17);
    assert_eq!(s.xy(), (17, 4000));
    assert_eq!(s.offset(), 4000 * 4096 + 17);
    assert_eq!(SpacePoint::zero(), SpacePoint::new(0, 0));
}

#[test]
fn neighbors_inside_and_at_edges() {
    let mut v = Vec::new();
    SpacePoint::new(5, 5).get_neighbors(&mut v);
    assert_eq!(v, vec![SpacePoint::new(4, 5), SpacePoint::new(6, 5), SpacePoint::new(5, 4), SpacePoint::new(5, 6)]);
    SpacePoint::new(0, 0).get_neighbors(&mut v);
    assert_eq!(v, vec![SpacePoint::new(1, 0), SpacePoint::new(0, 1)]);
    SpacePoint::new(4095, 4095).get_neighbors(&mut v);
    assert_eq!(v, vec![SpacePoint::new(4094, 4095), SpacePoint::new(4095, 4094)]);
}

#[test]
fn color_distance_and_offset() {
    let a = ColorPoint::new(0, 0, 0);
    let b = ColorPoint::new(255, 255, 255);
    assert_eq!(a.distance_to(&b), 3 * 255 * 255);
    assert_eq!(ColorPoint::new(1, 2, 3).distance_to(&ColorPoint::new(4, 0, 3)), 13);
    assert_eq!(ColorPoint::new(1, 2, 3).offset(), 1 + 2 * 256 + 3 * 65536);
    assert_eq!(ColorPoint::default(), a);
}

#[test]
fn point_accessors() {
    let p = Point::new(SpacePoint::new(1, 2), ColorPoint::new(3, 4, 5));
    assert_eq!(*p.space(), SpacePoint::new(1, 2));
    assert_eq!(*p.color(), ColorPoint::new(3, 4, 5));
}

#[test]
fn box_around_contains_center() {
    let c = ColorPoint::new(0, 128, 255);
    for r in [1, 5, 300] {
        let bb = BoundingBox::from_around(&c, r);
        assert!(bb.contains_color(&c));
    }
    let bb = BoundingBox::from_around(&c, 2);
    assert_eq!(bb, BoundingBox::new(-2, 126, 253, 2, 130, 257));
}

#[test]
fn box_intersection_is_symmetric() {
    let a = BoundingBox::new(0, 0, 0, 10, 10, 10);
    let b = BoundingBox::new(10, 10, 10, 20, 20, 20);
    let c = BoundingBox::new(11, 0, 0, 20, 10, 10);
    assert!(a.intersects(&b) && b.intersects(&a));
    assert!(!a.intersects(&c) && !c.intersects(&a));
    assert!(a.contains(&BoundingBox::new(1, 1, 1, 9, 9, 9)));
    assert!(!a.contains(&b));
}

#[test]
fn box_octants() {
    let root = BoundingBox::new(0, 0, 0, 255, 255, 255);
    assert_eq!(root.sub_for_idx(0, 128), BoundingBox::new(0, 0, 0, 127, 127, 127));
    assert_eq!(root.sub_for_idx(4, 128), BoundingBox::new(128, 0, 0, 255, 127, 127));
    assert_eq!(root.sub_for_idx(3, 128), BoundingBox::new(0, 128, 128, 127, 255, 255));
    let mut bb = root;
    bb.set_around(&ColorPoint::new(10, 10, 10), 3);
    assert_eq!(bb, BoundingBox::new(7, 7, 7, 13, 13, 13));
}
