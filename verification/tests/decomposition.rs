use image::{DynamicImage, Rgba, RgbaImage};
use quadtree_art::config::QuadConfig;
use quadtree_art::driver::{subdivide_nodes, subdivide_nodes_capped, MAX_QUADS};
use quadtree_art::paint::{fill_quad_with_color, new_canvas};
use quadtree_art::quad::Quad;
use quadtree_art::Color;

fn settings(max_depth: u32, color_threshold: u32, size_threshold: u32) -> QuadConfig {
    QuadConfig { max_depth, color_threshold, size_threshold, output_file: String::new() }
}

fn gradient() -> DynamicImage {
    let mut img = RgbaImage::new(100, 100);
    for x in 0..100 {
        for y in 0..100 {
            let r = (x * 255 / 100) as u8;
            let g = (y * 255 / 100) as u8;
            let b = ((x + y) * 255 / 200) as u8;
            img.put_pixel(x, y, Rgba([r, g, b, 255]));
        }
    }
    DynamicImage::ImageRgba8(img)
}

fn two_halves() -> DynamicImage {
    let mut img = RgbaImage::new(64, 64);
    for x in 0..64 {
        for y in 0..32 {
            img.put_pixel(x, y, Rgba([255, 0, 0, 255]));
        }
        for y in 32..64 {
            img.put_pixel(x, y, Rgba([0, 0, 255, 255]));
        }
    }
    DynamicImage::ImageRgba8(img)
}

fn grey_gradient() -> DynamicImage {
    let mut img = RgbaImage::new(32, 32);
    for x in 0..32 {
        for y in 0..32 {
            let intensity = ((x + y) * 255 / 64) as u8;
            img.put_pixel(x, y, Rgba([intensity, intensity, intensity, 255]));
        }
    }
    DynamicImage::ImageRgba8(img)
}

fn shape(q: &Quad) -> (u32, u32, u32, u32, u32) {
    (q.x(), q.y(), q.width(), q.height(), q.cur_depth())
}

fn rgb(r: u8, g: u8, b: u8) -> Color {
    Color { r, g, b, a: 255 }
}

#[test]
fn test_end_to_end_processing() {
    let dynamic_img = two_halves();
    let config = QuadConfig {
        max_depth: 3,
        color_threshold: 5_000,
        size_threshold: 8,
        output_file: "test_output.png".to_string(),
    };

    let initial_quad = Quad::new(dynamic_img, 0, 0, 64, 64, config.clone());
    let leaves = subdivide_nodes(initial_quad, &config);
    assert!(!leaves.is_empty());

    let mut canvas = new_canvas(64, 64).unwrap();
    for leaf in leaves.iter() {
        fill_quad_with_color(&mut canvas, leaf);
    }
    let painted = canvas.to_rgba8();
    assert_eq!(painted.get_pixel(10, 10).0, [255, 0, 0, 255]);
    assert_eq!(painted.get_pixel(63, 31).0, [255, 0, 0, 255]);
    assert_eq!(painted.get_pixel(0, 32).0, [0, 0, 255, 255]);
    assert_eq!(painted.get_pixel(63, 63).0, [0, 0, 255, 255]);
}

#[test]
fn test_different_configurations() {
    let dynamic_img = grey_gradient();

    let config_high = QuadConfig {
        max_depth: 5,
        color_threshold: 50_000,
        size_threshold: 4,
        output_file: "test_high_threshold.png".to_string(),
    };
    let initial_quad_high = Quad::new(dynamic_img.clone(), 0, 0, 32, 32, config_high.clone());
    let leaves_high = subdivide_nodes(initial_quad_high, &config_high);

    let config_low = QuadConfig {
        max_depth: 5,
        color_threshold: 5_000,
        size_threshold: 4,
        output_file: "test_low_threshold.png".to_string(),
    };
    let initial_quad_low = Quad::new(dynamic_img, 0, 0, 32, 32, config_low.clone());
    let leaves_low = subdivide_nodes(initial_quad_low, &config_low);

    assert!(leaves_low.len() > leaves_high.len());
    assert_eq!(leaves_high.len(), 4);
    assert_eq!(leaves_low.len(), 64);
}

#[test]
fn two_halves_give_two_red_and_two_blue_leaves() {
    let config = settings(3, 5_000, 8);
    let root = Quad::new(two_halves(), 0, 0, 64, 64, config.clone());
    assert_eq!(root.calc_color_distance(), 180_313);
    let leaves = subdivide_nodes(root, &config);
    let found: Vec<_> = leaves.iter().map(|q| (shape(q), q.color())).collect();
    assert_eq!(
        found,
        vec![
            ((0, 0, 32, 32, 1), rgb(255, 0, 0)),
            ((32, 0, 32, 32, 1), rgb(255, 0, 0)),
            ((0, 32, 32, 32, 1), rgb(0, 0, 255)),
            ((32, 32, 32, 32, 1), rgb(0, 0, 255)),
        ]
    );
    for leaf in leaves.iter() {
        let straddles = leaf.y() < 32 && 32 < leaf.bottom();
        if straddles && leaf.calc_color_distance() > 5_000 {
            assert!(leaf.cur_depth() >= 3 || leaf.width() <= 8 || leaf.height() <= 8);
        }
    }
}

#[test]
fn uniform_image_is_one_leaf() {
    let mut img = RgbaImage::new(10, 10);
    for x in 0..10 {
        for y in 0..10 {
            img.put_pixel(x, y, Rgba([255, 0, 0, 255]));
        }
    }
    let config = settings(7, 1, 0);
    let root = Quad::new(DynamicImage::ImageRgba8(img), 0, 0, 10, 10, config.clone());
    let leaves = subdivide_nodes(root, &config);
    assert_eq!(leaves.len(), 1);
    assert_eq!(shape(&leaves[0]), (0, 0, 10, 10, 0));
    assert_eq!(leaves[0].color(), rgb(255, 0, 0));
}

#[test]
fn leaves_come_level_by_level() {
    let mut img = RgbaImage::new(4, 4);
    for x in 0..4 {
        for y in 0..4 {
            img.put_pixel(x, y, Rgba([10, 10, 10, 255]));
        }
    }
    img.put_pixel(0, 0, Rgba([250, 0, 0, 255]));
    img.put_pixel(1, 1, Rgba([0, 250, 0, 255]));
    let config = settings(2, 1_000, 1);
    let root = Quad::new(DynamicImage::ImageRgba8(img), 0, 0, 4, 4, config.clone());
    let leaves = subdivide_nodes(root, &config);
    let found: Vec<_> = leaves.iter().map(|q| (shape(q), q.color())).collect();
    assert_eq!(
        found,
        vec![
            ((2, 0, 2, 2, 1), rgb(10, 10, 10)),
            ((0, 2, 2, 2, 1), rgb(10, 10, 10)),
            ((2, 2, 2, 2, 1), rgb(10, 10, 10)),
            ((0, 0, 1, 1, 2), rgb(250, 0, 0)),
            ((1, 0, 1, 1, 2), rgb(10, 10, 10)),
            ((0, 1, 1, 1, 2), rgb(10, 10, 10)),
            ((1, 1, 1, 1, 2), rgb(0, 250, 0)),
        ]
    );
}

#[test]
fn default_settings_on_a_gradient() {
    let config = QuadConfig::default();
    let root = Quad::new(gradient(), 0, 0, 100, 100, config.clone());
    let leaves = subdivide_nodes(root, &config);
    assert_eq!(leaves.len(), 256);
    assert_eq!(shape(&leaves[0]), (0, 0, 7, 7, 4));
    assert_eq!(leaves[0].color(), rgb(7, 7, 7));
    assert_eq!(shape(&leaves[1]), (7, 0, 6, 7, 4));
    assert_eq!(leaves[1].color(), rgb(23, 7, 15));
    assert_eq!(shape(&leaves[2]), (0, 7, 7, 6, 4));
    assert_eq!(leaves[2].color(), rgb(7, 23, 15));
}

#[test]
fn no_leaf_is_deeper_than_the_maximal_depth() {
    for max_depth in 0..6u32 {
        let config = settings(max_depth, 0, 0);
        let root = Quad::new(gradient(), 0, 0, 100, 100, config.clone());
        let leaves = subdivide_nodes(root, &config);
        assert!(!leaves.is_empty());
        assert!(leaves.iter().all(|q| q.cur_depth() <= max_depth));
        assert!(leaves.iter().any(|q| q.cur_depth() == max_depth));
    }
}

#[test]
fn a_root_below_the_maximal_depth_is_its_own_leaf() {
    let top = Quad::new(gradient(), 0, 0, 100, 100, QuadConfig::default());
    let deep = top.subdivide()[0].subdivide()[0].subdivide()[0].clone();
    assert_eq!(deep.cur_depth(), 3);
    let config = settings(2, 0, 0);
    let leaves = subdivide_nodes(deep, &config);
    assert_eq!(leaves.len(), 1);
    assert_eq!(shape(&leaves[0]), (0, 0, 13, 13, 3));
}

#[test]
fn leaves_tile_the_root() {
    let config = settings(6, 3_000, 1);
    let root = Quad::new(gradient(), 0, 0, 100, 100, config.clone());
    let leaves = subdivide_nodes(root, &config);
    let mut hits = vec![0u32; 100 * 100];
    for leaf in leaves.iter() {
        assert!(leaf.width() > 0 && leaf.height() > 0);
        assert_eq!(leaf.color(), leaf.calc_avg_color());
        for x in leaf.x()..leaf.right() {
            for y in leaf.y()..leaf.bottom() {
                hits[(y * 100 + x) as usize] += 1;
            }
        }
    }
    assert!(hits.iter().all(|&n| n == 1));
}

#[test]
fn the_cap_cuts_the_leaves_short() {
    let config = QuadConfig::default();
    let all = subdivide_nodes(Quad::new(gradient(), 0, 0, 100, 100, config.clone()), &config);
    assert_eq!(all.len(), 256);
    for cap in [0usize, 1, 10, 255, 256, 257, 1000] {
        let root = Quad::new(gradient(), 0, 0, 100, 100, config.clone());
        let (some, cut_short) = subdivide_nodes_capped(root, &config, cap);
        assert_eq!(some.len(), cap.min(256));
        assert_eq!(cut_short, cap < 256);
        for (got, want) in some.iter().zip(all.iter()) {
            assert_eq!(shape(got), shape(want));
            assert_eq!(got.color(), want.color());
        }
    }
    assert_eq!(MAX_QUADS, 100_000);
}

#[test]
fn a_lower_threshold_never_gives_fewer_leaves() {
    let thresholds = [0u32, 1_000, 5_000, 10_000, 20_000, 50_000, 100_000, 441_672];
    let expected = [1024usize, 1024, 1024, 256, 64, 16, 4, 1];
    let mut last = usize::MAX;
    for (threshold, want) in thresholds.iter().zip(expected.iter()) {
        let config = settings(7, *threshold, 5);
        let root = Quad::new(gradient(), 0, 0, 100, 100, config.clone());
        let count = subdivide_nodes(root, &config).len();
        assert_eq!(count, *want);
        assert!(count <= last);
        last = count;
    }
    for cap in [3usize, 20, 300] {
        let mut last = usize::MAX;
        for threshold in thresholds.iter() {
            let config = settings(7, *threshold, 5);
            let root = Quad::new(gradient(), 0, 0, 100, 100, config.clone());
            let count = subdivide_nodes_capped(root, &config, cap).0.len();
            assert!(count <= last && count <= cap);
            last = count;
        }
    }
}

#[test]
fn children_without_pixels_are_dropped() {
    let mut img = RgbaImage::new(1, 2);
    img.put_pixel(0, 0, Rgba([0, 0, 0, 255]));
    img.put_pixel(0, 1, Rgba([3, 4, 0, 255]));
    let config = settings(3, 0, 0);
    let root = Quad::new(DynamicImage::ImageRgba8(img), 0, 0, 1, 2, config.clone());
    let leaves = subdivide_nodes(root, &config);
    let found: Vec<_> = leaves.iter().map(|q| (shape(q), q.color())).collect();
    assert_eq!(
        found,
        vec![((0, 0, 1, 1, 1), rgb(0, 0, 0)), ((0, 1, 1, 1, 1), rgb(3, 4, 0))]
    );
}

#[test]
fn an_empty_root_has_no_leaves() {
    let config = QuadConfig::default();
    let root = Quad::new(gradient(), 0, 0, 0, 100, config.clone());
    assert!(subdivide_nodes(root, &config).is_empty());
    let root = Quad::new(gradient(), 5, 5, 10, 0, config.clone());
    assert!(subdivide_nodes(root, &config).is_empty());
}

#[test]
fn a_root_away_from_the_origin() {
    let mut img = RgbaImage::new(64, 64);
    for x in 0..64u32 {
        for y in 0..64u32 {
            img.put_pixel(x, y, Rgba([(x * 4) as u8, (y * 4) as u8, 0, 255]));
        }
    }
    let config = settings(4, 2_000, 2);
    let root = Quad::new(DynamicImage::ImageRgba8(img), 10, 20, 21, 13, config.clone());
    let leaves = subdivide_nodes(root, &config);
    assert_eq!(leaves.len(), 64);
    assert_eq!(shape(&leaves[0]), (10, 20, 3, 2, 3));
    assert_eq!(leaves[0].color(), rgb(44, 82, 0));
    assert_eq!(shape(&leaves[3]), (13, 22, 3, 2, 3));
    assert_eq!(leaves[3].color(), rgb(56, 90, 0));
    let area: u32 = leaves.iter().map(|q| q.width() * q.height()).sum();
    assert_eq!(area, 21 * 13);
    for leaf in leaves.iter() {
        assert!(10 <= leaf.x() && leaf.right() <= 31 && 20 <= leaf.y() && leaf.bottom() <= 33);
    }
}

#[test]
fn a_root_larger_than_the_image() {
    let config = settings(2, 1_000, 1);
    let root = Quad::new(gradient(), 0, 0, 400, 400, config.clone());
    let leaves = subdivide_nodes(root, &config);
    let found: Vec<_> = leaves.iter().map(shape).collect();
    assert_eq!(
        found,
        vec![
            (200, 0, 200, 200, 1),
            (0, 200, 200, 200, 1),
            (200, 200, 200, 200, 1),
            (0, 0, 100, 100, 2),
            (100, 0, 100, 100, 2),
            (0, 100, 100, 100, 2),
            (100, 100, 100, 100, 2),
        ]
    );
    assert_eq!(leaves[0].color(), rgb(0, 0, 0));
    assert_eq!(leaves[3].color(), rgb(125, 125, 125));
}

#[test]
fn threshold_zero_splits_around_one_odd_pixel() {
    let mut img = RgbaImage::new(2000, 1);
    for x in 0..2000 {
        img.put_pixel(x, 0, Rgba([0, 0, 0, 255]));
    }
    img.put_pixel(1999, 0, Rgba([1, 0, 0, 255]));
    let config = settings(7, 0, 0);
    let root = Quad::new(DynamicImage::ImageRgba8(img), 0, 0, 2000, 1, config.clone());
    let leaves = subdivide_nodes(root, &config);
    let found: Vec<_> = leaves.iter().map(shape).collect();
    assert_eq!(
        found,
        vec![
            (0, 0, 1000, 1, 1),
            (1000, 0, 500, 1, 2),
            (1500, 0, 250, 1, 3),
            (1750, 0, 125, 1, 4),
            (1875, 0, 63, 1, 5),
            (1938, 0, 31, 1, 6),
            (1969, 0, 16, 1, 7),
            (1985, 0, 15, 1, 7),
        ]
    );
}

#[test]
fn regions_without_pixels_left_in_the_queue_cut_nothing_short() {
    let strip = || {
        let mut img = RgbaImage::new(1, 2);
        img.put_pixel(0, 0, Rgba([0, 0, 0, 255]));
        img.put_pixel(0, 1, Rgba([3, 4, 0, 255]));
        DynamicImage::ImageRgba8(img)
    };
    let config = settings(3, 0, 0);
    let (leaves, cut_short) = subdivide_nodes_capped(Quad::new(strip(), 0, 0, 1, 2, config.clone()), &config, 2);
    assert_eq!(leaves.len(), 2);
    assert!(!cut_short);
    let (leaves, cut_short) = subdivide_nodes_capped(Quad::new(strip(), 0, 0, 1, 2, config.clone()), &config, 1);
    assert_eq!(leaves.len(), 1);
    assert_eq!(shape(&leaves[0]), (0, 0, 1, 1, 1));
    assert!(cut_short);
    let (leaves, cut_short) = subdivide_nodes_capped(Quad::new(strip(), 0, 0, 1, 2, config.clone()), &config, 0);
    assert!(leaves.is_empty());
    assert!(cut_short);
    let (leaves, cut_short) = subdivide_nodes_capped(Quad::new(strip(), 0, 0, 0, 2, config.clone()), &config, 0);
    assert!(leaves.is_empty());
    assert!(!cut_short);
    let (leaves, cut_short) = subdivide_nodes_capped(Quad::new(strip(), 0, 0, 1, 2, config.clone()), &config, 3);
    assert_eq!(leaves.len(), 2);
    assert!(!cut_short);
}
