use image::{DynamicImage, GenericImageView, Rgba, RgbaImage};
use quadtree_art::config::QuadConfig;
use quadtree_art::driver::subdivide_nodes;
use quadtree_art::paint::{fill_quad_with_color, new_canvas, quad_outline, Segment};
use quadtree_art::quad::Quad;

fn solid(width: u32, height: u32, color: [u8; 4]) -> DynamicImage {
    let mut img = RgbaImage::new(width, height);
    for x in 0..width {
        for y in 0..height {
            img.put_pixel(x, y, Rgba(color));
        }
    }
    DynamicImage::ImageRgba8(img)
}

fn leaf_of(image: DynamicImage, x: u32, y: u32, w: u32, h: u32) -> Quad {
    let config = QuadConfig { max_depth: 0, color_threshold: 0, size_threshold: 0, output_file: String::new() };
    let mut leaves = subdivide_nodes(Quad::new(image, x, y, w, h, config.clone()), &config);
    assert_eq!(leaves.len(), 1);
    leaves.pop().unwrap()
}

#[test]
fn new_canvas_is_transparent_black() {
    let canvas = new_canvas(5, 3).unwrap();
    assert_eq!(canvas.dimensions(), (5, 3));
    assert!(canvas.as_rgba8().is_some());
    for x in 0..5 {
        for y in 0..3 {
            assert_eq!(canvas.get_pixel(x, y).0, [0, 0, 0, 0]);
        }
    }
    let empty = new_canvas(0, 7).unwrap();
    assert_eq!(empty.dimensions(), (0, 7));
}

#[test]
fn new_canvas_refuses_what_no_buffer_holds() {
    assert!(new_canvas(u32::MAX, u32::MAX).is_none());
}

#[test]
fn fill_paints_the_leaf_and_nothing_else() {
    let leaf = leaf_of(solid(8, 8, [200, 100, 50, 255]), 2, 3, 4, 2);
    let mut canvas = new_canvas(8, 8).unwrap();
    fill_quad_with_color(&mut canvas, &leaf);
    assert_eq!(canvas.dimensions(), (8, 8));
    for x in 0..8u32 {
        for y in 0..8u32 {
            let inside = 2 <= x && x < 6 && 3 <= y && y < 5;
            let want = if inside { [200, 100, 50, 255] } else { [0, 0, 0, 0] };
            assert_eq!(canvas.get_pixel(x, y).0, want);
        }
    }
}

#[test]
fn fill_stops_at_the_edge_of_the_canvas() {
    let leaf = leaf_of(solid(8, 8, [1, 2, 3, 255]), 4, 6, 4, 2);
    let mut canvas = new_canvas(6, 7).unwrap();
    fill_quad_with_color(&mut canvas, &leaf);
    for x in 0..6u32 {
        for y in 0..7u32 {
            let inside = 4 <= x && y == 6;
            let want = if inside { [1, 2, 3, 255] } else { [0, 0, 0, 0] };
            assert_eq!(canvas.get_pixel(x, y).0, want);
        }
    }
    let far = leaf_of(solid(8, 8, [1, 2, 3, 255]), 7, 7, 1, 1);
    let mut small = new_canvas(3, 3).unwrap();
    fill_quad_with_color(&mut small, &far);
    for x in 0..3u32 {
        for y in 0..3u32 {
            assert_eq!(small.get_pixel(x, y).0, [0, 0, 0, 0]);
        }
    }
}

#[test]
fn later_fills_cover_earlier_ones() {
    let first = leaf_of(solid(4, 4, [9, 9, 9, 255]), 0, 0, 3, 3);
    let second = leaf_of(solid(4, 4, [7, 7, 7, 255]), 2, 2, 2, 2);
    let mut canvas = new_canvas(4, 4).unwrap();
    fill_quad_with_color(&mut canvas, &first);
    fill_quad_with_color(&mut canvas, &second);
    assert_eq!(canvas.get_pixel(1, 1).0, [9, 9, 9, 255]);
    assert_eq!(canvas.get_pixel(2, 2).0, [7, 7, 7, 255]);
    assert_eq!(canvas.get_pixel(3, 3).0, [7, 7, 7, 255]);
    assert_eq!(canvas.get_pixel(3, 0).0, [0, 0, 0, 0]);
}

#[test]
fn outline_runs_along_the_four_edges() {
    let quad = Quad::new(solid(8, 8, [0, 0, 0, 255]), 2, 3, 4, 5, QuadConfig::default());
    let segments = quad_outline(&quad);
    assert_eq!(
        segments,
        [
            Segment { x0: 2, y0: 3, x1: 6, y1: 3 },
            Segment { x0: 2, y0: 8, x1: 6, y1: 8 },
            Segment { x0: 2, y0: 3, x1: 2, y1: 8 },
            Segment { x0: 6, y0: 3, x1: 6, y1: 8 },
        ]
    );
}

#[test]
fn fill_of_a_region_that_reaches_past_every_number() {
    let mut quad = leaf_of(solid(2, 2, [7, 8, 9, 255]), 1, 1, 1, 1);
    assert_eq!(quad.color(), quadtree_art::Color { r: 7, g: 8, b: 9, a: 255 });
    let mut canvas = new_canvas(3, 3).unwrap();
    fill_quad_with_color(&mut canvas, &quad);
    quad = Quad::new(solid(2, 2, [7, 8, 9, 255]), 2, 2, u32::MAX, u32::MAX, QuadConfig::default());
    fill_quad_with_color(&mut canvas, &quad);
    assert_eq!(canvas.get_pixel(1, 1).0, [7, 8, 9, 255]);
    assert_eq!(canvas.get_pixel(2, 2).0, [0, 0, 0, 255]);
    assert_eq!(canvas.get_pixel(0, 0).0, [0, 0, 0, 0]);
    assert_eq!(canvas.get_pixel(2, 1).0, [0, 0, 0, 0]);
}
