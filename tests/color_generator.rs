use rust_colors::color_generator::ColorGenerator;
use rust_colors::points::ColorPoint;

fn offset(x: u32, y: u32) -> usize {
    (y as usize) * 4096 + x as usize
}

#[test]
fn growth_single_seed_tiny_image() {
    let colors: Vec<ColorPoint> = (0..16u8).map(|i| ColorPoint::new(i * 16, 255 - i * 16, (i * 37) % 251)).collect();
    let mut generator = ColorGenerator::with_colors(4, 4, colors.clone());
    generator.add_next_seed_pixel(2, 2, &mut Vec::new());
    generator.grow_pixels_to(16);

    let image = generator.image();
    let mut placed_at = vec![None; 16];
    for y in 0..4u32 {
        for x in 0..4u32 {
            assert!(image.has(offset(x, y)), "pixel {x},{y} should be set");
            let c = image.color_at(offset(x, y));
            let idx = colors.iter().position(|k| *k == c).expect("color from the sequence");
            assert!(placed_at[idx].is_none(), "color used twice");
            placed_at[idx] = Some((x, y));
        }
    }
    // nothing outside the 4 x 4 corner
    assert!(!image.has(offset(4, 0)));
    assert!(!image.has(offset(0, 4)));
    assert_eq!(placed_at[0], Some((2, 2)));
    // every later placement touches an earlier one
    for j in 1..16 {
        let (x, y) = placed_at[j].unwrap();
        let touches = (0..j).any(|i| {
            let (a, b) = placed_at[i].unwrap();
            (a as i32 - x as i32).abs() + (b as i32 - y as i32).abs() == 1
        });
        assert!(touches, "placement {j} is not next to an earlier one");
    }
}

#[test]
fn growth_places_nearest_color() {
    // two seeds of very different colors; the next color goes next to the similar one
    let colors = vec![
        ColorPoint::new(0, 0, 0),
        ColorPoint::new(255, 255, 255),
        ColorPoint::new(250, 250, 250),
    ];
    let mut generator = ColorGenerator::with_colors(8, 1, colors);
    generator.add_next_seed_pixel(0, 0, &mut Vec::new());
    generator.add_next_seed_pixel(7, 0, &mut Vec::new());
    generator.grow_pixels_to(3);
    let image = generator.image();
    assert_eq!(image.color_at(offset(6, 0)), ColorPoint::new(250, 250, 250));
    assert!(!image.has(offset(1, 0)));
}

#[test]
fn full_size_generator_grows_a_little() {
    let mut generator = ColorGenerator::new();
    generator.shuffle_colors();
    generator.add_next_seed_pixel(2048, 2048, &mut Vec::with_capacity(4));
    generator.grow_pixels_to(200);
    let image = generator.image();
    let mut set = 0;
    for y in 2030..2067u32 {
        for x in 2030..2067u32 {
            if image.has(offset(x, y)) {
                set += 1;
            }
        }
    }
    assert_eq!(set, 200);
}

#[test]
fn shuffle_reorders_colors() {
    let mut generator = ColorGenerator::new();
    generator.shuffle_colors();
    generator.add_next_seed_pixel(0, 0, &mut Vec::new());
    generator.add_next_seed_pixel(1, 0, &mut Vec::new());
    let image = generator.image();
    let first = image.color_at(offset(0, 0));
    let second = image.color_at(offset(1, 0));
    // without a shuffle the table starts with (0, 0, 0) and (0, 0, 1)
    assert!(first != ColorPoint::new(0, 0, 0) || second != ColorPoint::new(0, 0, 1));
}

#[test]
fn unshuffled_seed_takes_first_color() {
    let mut generator = ColorGenerator::new();
    generator.add_next_seed_pixel(10, 20, &mut Vec::new());
    generator.add_next_seed_pixel(11, 20, &mut Vec::new());
    let image = generator.image();
    assert_eq!(image.color_at(offset(10, 20)), ColorPoint::new(0, 0, 0));
    assert_eq!(image.color_at(offset(11, 20)), ColorPoint::new(0, 0, 1));
}

#[test]
fn grow_one_takes_nearest_entry() {
    let colors = vec![
        ColorPoint::new(0, 0, 0),
        ColorPoint::new(255, 255, 255),
        ColorPoint::new(10, 10, 10),
    ];
    let mut generator = ColorGenerator::with_colors(6, 1, colors);
    generator.add_next_seed_pixel(0, 0, &mut Vec::new());
    generator.add_next_seed_pixel(5, 0, &mut Vec::new());
    let taken = generator.grow_one(&mut Vec::new()).expect("frontier is not empty");
    assert_eq!(taken.space().xy(), (1, 0));
    assert_eq!(*taken.color(), ColorPoint::new(0, 0, 0));
    assert_eq!(generator.image().color_at(offset(1, 0)), ColorPoint::new(10, 10, 10));
}

#[test]
fn grow_one_on_full_grid_places_nothing() {
    let colors = vec![ColorPoint::new(1, 2, 3), ColorPoint::new(4, 5, 6), ColorPoint::new(7, 8, 9)];
    let mut generator = ColorGenerator::with_colors(2, 1, colors);
    generator.add_next_seed_pixel(0, 0, &mut Vec::new());
    assert!(generator.grow_one(&mut Vec::new()).is_some());
    assert!(generator.grow_one(&mut Vec::new()).is_none());
    generator.grow_pixels_to(3);
    assert!(!generator.image().has(offset(2, 0)));
}
