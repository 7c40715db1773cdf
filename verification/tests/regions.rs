use image::{DynamicImage, Rgba, RgbaImage};
use quadtree_art::config::QuadConfig;
use quadtree_art::quad::Quad;
use quadtree_art::Color;

fn create_test_image() -> DynamicImage {
    let mut img = RgbaImage::new(100, 100);
    for x in 0..100 {
        for y in 0..100 {
            let r = (x * 255 / 100) as u8;
            let g = (y * 255 / 100) as u8;
            let b = ((x + y) * 255 / 200) as u8;
            img.put_pixel(x, y, Rgba([r, g, b, 255]));
        }
    }
    DynamicImage::ImageRgba8(img)
}

fn rect_of(q: &Quad) -> (u32, u32, u32, u32) {
    (q.x(), q.y(), q.width(), q.height())
}

#[test]
fn test_quad_creation() {
    let img = create_test_image();
    let config = QuadConfig::default();
    let quad = Quad::new(img, 0, 0, 50, 50, config);

    assert_eq!(quad.x(), 0);
    assert_eq!(quad.y(), 0);
    assert_eq!(quad.width(), 50);
    assert_eq!(quad.height(), 50);
    assert_eq!(quad.cur_depth(), 0);
}

#[test]
fn test_quad_subdivision() {
    let img = create_test_image();
    let config = QuadConfig::default();
    let quad = Quad::new(img, 0, 0, 100, 100, config);
    let children = quad.subdivide();

    assert_eq!(children.len(), 4);

    assert_eq!(children[0].x(), 0);
    assert_eq!(children[0].y(), 0);
    assert_eq!(children[0].width(), 50);
    assert_eq!(children[0].height(), 50);
    assert_eq!(children[0].cur_depth(), 1);
}

#[test]
fn test_config_default() {
    let config = QuadConfig::default();
    assert_eq!(config.max_depth, 7);
    assert_eq!(config.color_threshold as f64 / 1000.0, 10.0);
    assert_eq!(config.color_threshold, 10_000);
    assert_eq!(config.size_threshold, 5);
    assert_eq!(config.output_file, "output.png");
}

#[test]
fn config_clone_keeps_every_field() {
    let config = QuadConfig {
        max_depth: 3,
        color_threshold: 7_500,
        size_threshold: 9,
        output_file: "art.png".to_string(),
    };
    let copy = config.clone();
    assert_eq!(copy.max_depth, 3);
    assert_eq!(copy.color_threshold, 7_500);
    assert_eq!(copy.size_threshold, 9);
    assert_eq!(copy.output_file, "art.png");
}

#[test]
fn new_quad_is_black_and_keeps_its_config() {
    let config = QuadConfig {
        max_depth: 2,
        color_threshold: 1,
        size_threshold: 3,
        output_file: "x.png".to_string(),
    };
    let quad = Quad::new(create_test_image(), 5, 6, 7, 8, config);
    assert_eq!(quad.color(), Color { r: 0, g: 0, b: 0, a: 255 });
    assert_eq!(quad.color(), Color::black());
    assert_eq!(quad.config().max_depth, 2);
    assert_eq!(quad.config().output_file, "x.png");
    assert_eq!(quad.right(), 12);
    assert_eq!(quad.bottom(), 14);
    assert_eq!(quad.image().width(), 100);
}

#[test]
fn subdivide_gives_all_four_children_in_order() {
    let quad = Quad::new(create_test_image(), 0, 0, 100, 100, QuadConfig::default());
    let children = quad.subdivide();
    assert_eq!(rect_of(&children[0]), (0, 0, 50, 50));
    assert_eq!(rect_of(&children[1]), (50, 0, 50, 50));
    assert_eq!(rect_of(&children[2]), (0, 50, 50, 50));
    assert_eq!(rect_of(&children[3]), (50, 50, 50, 50));
    for child in children.iter() {
        assert_eq!(child.cur_depth(), 1);
        assert_eq!(child.color(), Color::black());
        assert_eq!(child.config().max_depth, 7);
    }
}

#[test]
fn subdivide_rounds_the_leading_halves_up() {
    let quad = Quad::new(create_test_image(), 3, 4, 5, 7, QuadConfig::default());
    let children = quad.subdivide();
    assert_eq!(rect_of(&children[0]), (3, 4, 3, 4));
    assert_eq!(rect_of(&children[1]), (6, 4, 2, 4));
    assert_eq!(rect_of(&children[2]), (3, 8, 3, 3));
    assert_eq!(rect_of(&children[3]), (6, 8, 2, 3));
}

#[test]
fn subdivide_of_a_single_pixel_leaves_three_empty_children() {
    let quad = Quad::new(create_test_image(), 9, 9, 1, 1, QuadConfig::default());
    let children = quad.subdivide();
    assert_eq!(rect_of(&children[0]), (9, 9, 1, 1));
    assert_eq!(rect_of(&children[1]), (10, 9, 0, 1));
    assert_eq!(rect_of(&children[2]), (9, 10, 1, 0));
    assert_eq!(rect_of(&children[3]), (10, 10, 0, 0));
}

#[test]
fn subdivide_at_the_largest_coordinates() {
    let quad = Quad::new(create_test_image(), 0, 0, u32::MAX, u32::MAX, QuadConfig::default());
    let children = quad.subdivide();
    assert_eq!(rect_of(&children[0]), (0, 0, 2_147_483_648, 2_147_483_648));
    assert_eq!(rect_of(&children[3]), (2_147_483_648, 2_147_483_648, 2_147_483_647, 2_147_483_647));
    assert_eq!(children[3].right(), u32::MAX);
}

#[test]
fn children_tile_their_parent() {
    for (x, y, w, h) in [(0u32, 0u32, 1u32, 1u32), (2, 3, 5, 7), (1, 1, 6, 4), (7, 0, 1, 9), (4, 4, 0, 3)] {
        let quad = Quad::new(create_test_image(), x, y, w, h, QuadConfig::default());
        let children = quad.subdivide();
        assert_eq!(children[0].width() + children[1].width(), w);
        assert_eq!(children[2].width() + children[3].width(), w);
        assert_eq!(children[0].height() + children[2].height(), h);
        assert_eq!(children[1].height() + children[3].height(), h);
        assert_eq!(children[0].width(), (w + 1) / 2);
        assert_eq!(children[0].height(), (h + 1) / 2);
        for px in 0..16u32 {
            for py in 0..16u32 {
                let inside = x <= px && px < x + w && y <= py && py < y + h;
                let holders = children
                    .iter()
                    .filter(|c| c.x() <= px && px < c.right() && c.y() <= py && py < c.bottom())
                    .count();
                assert_eq!(holders, if inside { 1 } else { 0 });
            }
        }
    }
}

#[test]
fn grandchildren_are_two_levels_down() {
    let quad = Quad::new(create_test_image(), 0, 0, 100, 100, QuadConfig::default());
    let children = quad.subdivide();
    let grandchildren = children[3].subdivide();
    assert_eq!(grandchildren[1].cur_depth(), 2);
    assert_eq!(rect_of(&grandchildren[1]), (75, 50, 25, 25));
}

#[test]
fn clone_of_a_quad_is_the_same_region() {
    let quad = Quad::new(create_test_image(), 10, 20, 30, 40, QuadConfig::default());
    let child = quad.subdivide()[2].clone();
    assert_eq!(rect_of(&child), (10, 40, 15, 20));
    assert_eq!(child.cur_depth(), 1);
    assert_eq!(child.calc_avg_color(), quad.subdivide()[2].calc_avg_color());
}
