use rust_colors::bounding_box::BoundingBox;
use rust_colors::nn_search_3d::NnSearch3d;
use rust_colors::octree_leafy::OctreeLeafy;
use rust_colors::points::{ColorPoint, Point, SpacePoint};

#[test]
fn test_octree_leafy_add_remove() {
    let mut tree = OctreeLeafy::init_tree(3);
    let mut spare_vectors = Vec::new();
    assert!(tree.is_empty());

    let point = Point::new(SpacePoint::new(0, 0), ColorPoint::new(0, 0, 0));
    tree.add(point.clone(), &mut spare_vectors);
    assert!(!tree.is_empty());

    assert!(tree.has_point(&point));
    assert!(tree.has(point.space()));

    tree.remove(point.clone(), &mut spare_vectors);
    assert!(tree.is_empty());

    assert!(!tree.has_point(&point));
    assert!(!tree.has(point.space()));
}

#[test]
fn test_octree_init_bounds() {
    let tree = OctreeLeafy::init_tree(2);

    let OctreeLeafy::Node { bounds, .. } = &tree else { panic!("Root should be node") };

    assert_eq!(bounds, &BoundingBox::new(0, 0, 0, 255, 255, 255));

    let colors_to_check = [
        ColorPoint::new(0, 0, 0),
        ColorPoint::new(255, 255, 255),
        ColorPoint::new(0, 0, 255),
        ColorPoint::new(0, 255, 0),
        ColorPoint::new(0, 255, 255),
        ColorPoint::new(255, 0, 0),
        ColorPoint::new(255, 0, 255),
        ColorPoint::new(255, 255, 0),
    ];

    for color in colors_to_check.iter() {
        let child = tree.child_for(color);
        let Some(OctreeLeafy::Node { bounds, .. }) = child
            else { panic!("Child should be node") };

        assert!(bounds.contains_color(&color), "Child node for color {color:?} should contain it, but bounds are {bounds:?}");
    }
}

#[test]
fn test_octree_find_nearest_single() {
    let mut tree = OctreeLeafy::init_tree(2);
    let mut spare_vectors = Vec::new();

    let point = Point::new(SpacePoint::new(0, 0), ColorPoint::new(0, 0, 0));
    tree.add(point.clone(), &mut spare_vectors);

    let colors_to_check = [
        ColorPoint::new(0, 0, 0),
        ColorPoint::new(255, 255, 255),
        ColorPoint::new(0, 0, 255),
        ColorPoint::new(0, 255, 0),
        ColorPoint::new(0, 255, 255),
        ColorPoint::new(255, 0, 0),
        ColorPoint::new(255, 0, 255),
        ColorPoint::new(255, 255, 0),
    ];

    // With only one sample point, all should just find it
    for color in colors_to_check.iter() {
        let nearest = tree.find_nearest(color);
        assert_eq!(nearest, Some(point.clone()));
    }
}

#[test]
fn test_octree_find_nearest_multi() {
    let mut tree = OctreeLeafy::init_tree(4);
    let mut spare_vectors = Vec::new();

    let placed_points = [
        ColorPoint::new(15, 118, 246),
        ColorPoint::new(39, 85, 206),
        ColorPoint::new(108, 135, 90),
        ColorPoint::new(249, 228, 159),
        ColorPoint::new(83, 27, 105),
        ColorPoint::new(20, 198, 200),
        ColorPoint::new(99, 184, 189),
        ColorPoint::new(87, 221, 39),
        ColorPoint::new(148, 27, 114),
        ColorPoint::new(94, 189, 2),
        ColorPoint::new(88, 186, 237),
        ColorPoint::new(162, 144, 96),
        ColorPoint::new(195, 95, 154),
        ColorPoint::new(246, 14, 205),
        ColorPoint::new(238, 40, 80),
        ColorPoint::new(183, 146, 75),
    ];

    for pt in placed_points {
        // Just use 0, 0 for space
        let point = Point::new(SpacePoint::new(0, 0), pt);
        tree.add(point, &mut spare_vectors);
    }

    let search_points = [
        ColorPoint::new(50, 6, 84),
        ColorPoint::new(62, 93, 91),
        ColorPoint::new(224, 185, 93),
        ColorPoint::new(209, 17, 203),
        ColorPoint::new(134, 202, 34),
        ColorPoint::new(43, 153, 89),
        ColorPoint::new(110, 142, 160),
        ColorPoint::new(116, 107, 233),
        ColorPoint::new(38, 196, 2),
        ColorPoint::new(240, 20, 107),
        ColorPoint::new(233, 56, 187),
        ColorPoint::new(248, 8, 36),
        ColorPoint::new(51, 202, 123),
        ColorPoint::new(20, 65, 92),
        ColorPoint::new(247, 3, 245),
        ColorPoint::new(192, 158, 162),
    ];

    for search_color in search_points {
        // Brute force to find the actual nearest
        let nearest_control = placed_points.iter().min_by(|a, b| {
            let a_dist = a.distance_to(&search_color);
            let b_dist = b.distance_to(&search_color);
            a_dist.partial_cmp(&b_dist).unwrap()
        }).unwrap();

        let nearest = tree.find_nearest(&search_color);

        assert!(nearest.is_some(), "Nearest should be found for color {:?}", search_color);

        let nearest_color = *nearest.unwrap().color();

        assert_eq!(
            nearest_color,
            *nearest_control,
            "Search color {:?} should find nearest {:?} at {}, but found {:?} at {}",
            search_color,
            nearest_control, nearest_control.distance_to(&search_color),
            nearest_color, nearest_color.distance_to(&search_color)
        );
    }
}

#[test]
fn octree_empty_finds_nothing() {
    let tree = OctreeLeafy::init_tree(4);
    assert_eq!(tree.find_nearest(&ColorPoint::new(1, 2, 3)), None);
    assert_eq!(tree.len(), 0);
}

#[test]
fn octree_add_remove_restores_len() {
    let mut tree = OctreeLeafy::init_tree(4);
    let mut spare = Vec::new();
    let a = Point::new(SpacePoint::new(1, 1), ColorPoint::new(10, 20, 30));
    let b = Point::new(SpacePoint::new(2, 1), ColorPoint::new(200, 20, 30));
    tree.add(a, &mut spare);
    let before = tree.len();
    tree.add(b, &mut spare);
    assert_eq!(tree.len(), before + 1);
    tree.remove(b, &mut spare);
    assert_eq!(tree.len(), before);
    assert!(!tree.has_point(&b));
    assert!(tree.has_point(&a));
    // removing a point that is not stored changes nothing
    tree.remove(b, &mut spare);
    assert_eq!(tree.len(), before);
}

#[test]
fn octree_duplicates_removed_one_at_a_time() {
    let mut tree = OctreeLeafy::init_tree(3);
    let mut spare = Vec::new();
    let a = Point::new(SpacePoint::new(5, 6), ColorPoint::new(1, 1, 1));
    tree.add(a, &mut spare);
    tree.add(a, &mut spare);
    assert_eq!(tree.len(), 2);
    tree.remove(a, &mut spare);
    assert_eq!(tree.len(), 1);
    assert!(tree.has_point(&a));
    assert!(tree.has(&SpacePoint::new(5, 6)));
    assert!(!tree.has(&SpacePoint::new(6, 5)));
}

#[test]
fn octree_nearest_across_octants() {
    let mut tree = OctreeLeafy::init_tree(7);
    let mut spare = Vec::new();
    // the query's own octant holds a far point; the nearest sits just across a split
    let far = Point::new(SpacePoint::new(0, 0), ColorPoint::new(0, 0, 0));
    let near = Point::new(SpacePoint::new(1, 0), ColorPoint::new(128, 127, 127));
    tree.add(far, &mut spare);
    tree.add(near, &mut spare);
    assert_eq!(tree.find_nearest(&ColorPoint::new(127, 127, 127)), Some(near));
    assert_eq!(tree.find_nearest(&ColorPoint::new(0, 0, 0)), Some(far));
}

#[test]
fn octree_precalc_path_holds_point() {
    let mut tree = OctreeLeafy::init_tree(2);
    let mut spare = Vec::new();
    let a = Point::new(SpacePoint::new(3, 3), ColorPoint::new(250, 3, 100));
    tree.add(a, &mut spare);
    assert!(tree.precalc_path(a).contains(&a));
    assert_eq!(OctreeLeafy::radius(0), 128);
    assert_eq!(OctreeLeafy::radius(3), 16);
}

#[test]
fn octree_has_requested_depth() {
    for depth in 1..4usize {
        let tree = OctreeLeafy::init_tree(depth);
        let mut node = &tree;
        let mut steps = 0;
        while let OctreeLeafy::Node { children, .. } = node {
            assert_eq!(children.len(), 8);
            node = &children[7];
            steps += 1;
        }
        assert_eq!(steps, depth);
        let OctreeLeafy::Leaf { bounds, .. } = node else { panic!("should end at a leaf") };
        assert_eq!(bounds.ur - bounds.lr + 1, 256 >> depth);
        assert_eq!(bounds.ur, 255);
    }
}

#[test]
fn octree_ties_go_to_least_point() {
    let mut tree = OctreeLeafy::init_tree(4);
    let mut spare = Vec::new();
    let c = ColorPoint::new(40, 50, 60);
    let later = Point::new(SpacePoint::new(9, 9), c);
    let earlier = Point::new(SpacePoint::new(3, 9), c);
    tree.add(later, &mut spare);
    tree.add(earlier, &mut spare);
    assert_eq!(tree.find_nearest(&c), Some(earlier));
    // equally far on either side of the query
    let mut tree = OctreeLeafy::init_tree(4);
    let a = Point::new(SpacePoint::new(7, 0), ColorPoint::new(100, 100, 90));
    let b = Point::new(SpacePoint::new(2, 0), ColorPoint::new(100, 100, 110));
    tree.add(a, &mut spare);
    tree.add(b, &mut spare);
    assert_eq!(tree.find_nearest(&ColorPoint::new(100, 100, 100)), Some(b));
    assert_eq!(tree.find_nearest(&ColorPoint::new(100, 100, 100)), Some(b));
}
