use softrender::color::Color;
use softrender::geom::Point;
use softrender::geom::inside_triangle;
use softrender::image::Image;
use softrender::zbuffer::ScreenVertex;

fn red() -> Color {
    Color { r: 255, g: 0, b: 0 }
}

fn blue() -> Color {
    Color { r: 0, g: 0, b: 255 }
}

fn sv(x: i32, y: i32, z: i64) -> ScreenVertex {
    ScreenVertex { p: Point { x, y }, z }
}

fn fresh_buffer(img: &Image) -> Vec<i64> {
    vec![i64::MIN; (img.width * img.height) as usize]
}

#[test]
fn fill_covers_triangle_at_uniform_depth() {
    let mut img = Image::new(8, 8);
    let mut zb = fresh_buffer(&img);
    let t = (sv(0, 0, 5), sv(7, 0, 5), sv(0, 7, 5));
    img.triangle_zbuffer(&mut zb, t, red());
    for y in 0..8 {
        for x in 0..8 {
            let p = Point { x, y };
            if inside_triangle(p, (t.0.p, t.1.p, t.2.p)) {
                assert_eq!(img.get(p), Some(red()));
                assert_eq!(zb[(y * 8 + x) as usize], 5);
            } else {
                assert_eq!(img.get(p), Some(Color { r: 0, g: 0, b: 0 }));
                assert_eq!(zb[(y * 8 + x) as usize], i64::MIN);
            }
        }
    }
}

#[test]
fn closer_triangle_wins_regardless_of_order() {
    // same two triangles, both draw orders, identical result
    let t_near = (sv(0, 0, 10), sv(7, 0, 10), sv(0, 7, 10));
    let t_far = (sv(0, 0, 2), sv(7, 0, 2), sv(0, 7, 2));

    let mut img1 = Image::new(8, 8);
    let mut zb1 = fresh_buffer(&img1);
    img1.triangle_zbuffer(&mut zb1, t_far, blue());
    img1.triangle_zbuffer(&mut zb1, t_near, red());

    let mut img2 = Image::new(8, 8);
    let mut zb2 = fresh_buffer(&img2);
    img2.triangle_zbuffer(&mut zb2, t_near, red());
    img2.triangle_zbuffer(&mut zb2, t_far, blue());

    assert_eq!(img1.pixels, img2.pixels);
    assert_eq!(zb1, zb2);
    assert_eq!(img1.get(Point { x: 1, y: 1 }), Some(red()));
}

#[test]
fn repainting_same_triangle_changes_nothing() {
    let t = (sv(1, 1, 3), sv(6, 2, 3), sv(2, 6, 3));
    let mut img = Image::new(8, 8);
    let mut zb = fresh_buffer(&img);
    img.triangle_zbuffer(&mut zb, t, red());
    let pixels_once = img.pixels.clone();
    let zb_once = zb.clone();
    img.triangle_zbuffer(&mut zb, t, red());
    assert_eq!(img.pixels, pixels_once);
    assert_eq!(zb, zb_once);
}

#[test]
fn interpolated_depth_decides_per_pixel() {
    // two triangles crossing in depth: one rises, one falls
    let rising = (sv(0, 0, 0), sv(7, 0, 100), sv(0, 7, 0));
    let level = (sv(0, 0, 50), sv(7, 0, 50), sv(0, 7, 50));
    let mut img = Image::new(8, 1);
    let mut zb = vec![i64::MIN; 8];
    img.triangle_zbuffer(&mut zb, rising, red());
    img.triangle_zbuffer(&mut zb, level, blue());
    // near the left edge the level triangle is closer, near the right the rising one
    assert_eq!(img.get(Point { x: 0, y: 0 }), Some(blue()));
    assert_eq!(img.get(Point { x: 7, y: 0 }), Some(red()));
}

#[test]
fn degenerate_triangle_paints_nothing() {
    let t = (sv(0, 0, 5), sv(3, 3, 5), sv(6, 6, 5));
    let mut img = Image::new(8, 8);
    let mut zb = fresh_buffer(&img);
    img.triangle_zbuffer(&mut zb, t, red());
    for &p in &img.pixels {
        assert_eq!(p, Color { r: 0, g: 0, b: 0 });
    }
}

#[test]
fn unit_square_front_lit_back_black() {
    // A unit square split into two triangles, light (0, 0, -1) facing the
    // camera, flat shading on a 4 by 4 frame. The first triangle's winding
    // turns its face normal away from the camera: its Lambert factor is
    // negative and it clamps to black. The second faces the camera with a
    // unit normal along the light: full intensity.
    let color = Color { r: 0xdb, g: 0xc6, b: 0xb8 };

    // model-space corners of the square (z = 0 plane), integer-exact
    // face normal of (a, b, c) is cross(b - a, c - a)
    // first triangle (0,0) (1,0) (0,1): normal (0, 0, 1); dot with light = -1
    // second triangle (1,1) (0,1) (1,0): normal (0, 0, -1); dot with light = 1
    let light = (0i64, 0i64, -1i64);
    let n1 = (0i64, 0i64, 1i64);
    let n2 = (0i64, 0i64, -1i64);
    let d1 = n1.0 * light.0 + n1.1 * light.1 + n1.2 * light.2;
    let d2 = n2.0 * light.0 + n2.1 * light.1 + n2.2 * light.2;
    assert_eq!(d1, -1);
    assert_eq!(d2, 1);
    // both normals and the light are unit vectors, so the denominator is 1
    let shade1 = color.light_ratio(d1, 1);
    let shade2 = color.light_ratio(d2, 1);
    assert_eq!(shade1, Color { r: 0, g: 0, b: 0 });
    assert_eq!(shade2, color);

    // screen-space square covering the whole 4 by 4 frame at uniform depth
    let mut img = Image::new(4, 4);
    let mut zb = fresh_buffer(&img);
    let t1 = (sv(0, 0, 0), sv(3, 0, 0), sv(0, 3, 0));
    let t2 = (sv(3, 3, 0), sv(0, 3, 0), sv(3, 0, 0));
    img.triangle_zbuffer(&mut zb, t1, shade1);
    img.triangle_zbuffer(&mut zb, t2, shade2);

    // every pixel of the frame is covered by one of the two triangles
    for y in 0..4 {
        for x in 0..4 {
            let p = Point { x, y };
            let in1 = inside_triangle(p, (t1.0.p, t1.1.p, t1.2.p));
            let in2 = inside_triangle(p, (t2.0.p, t2.1.p, t2.2.p));
            assert!(in1 || in2);
            let c = img.get(p).unwrap();
            if in1 && !in2 {
                assert_eq!(c, Color { r: 0, g: 0, b: 0 });
            }
            if in2 && !in1 {
                assert_eq!(c, color);
            }
        }
    }
    // the back-facing half is fully black, the front-facing half fully lit
    assert_eq!(img.get(Point { x: 0, y: 0 }), Some(Color { r: 0, g: 0, b: 0 }));
    assert_eq!(img.get(Point { x: 3, y: 3 }), Some(color));
}
