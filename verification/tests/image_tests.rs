use softrender::color::Color;
use softrender::geom::Point;
use softrender::geom::inside_triangle;
use softrender::image::Image;

fn red() -> Color {
    Color { r: 255, g: 0, b: 0 }
}

#[test]
fn new_image_is_black() {
    let img = Image::new(3, 2);
    assert_eq!(img.width, 3);
    assert_eq!(img.height, 2);
    assert_eq!(img.pixels.len(), 6);
    for &p in &img.pixels {
        assert_eq!(p, Color { r: 0, g: 0, b: 0 });
    }
}

#[test]
fn set_and_get_in_bounds() {
    let mut img = Image::new(4, 4);
    img.set(Point { x: 2, y: 1 }, red());
    assert_eq!(img.get(Point { x: 2, y: 1 }), Some(red()));
    assert_eq!(img.get(Point { x: 1, y: 2 }), Some(Color { r: 0, g: 0, b: 0 }));
}

#[test]
fn set_out_of_bounds_is_a_no_op() {
    let mut img = Image::new(2, 2);
    let before = img.pixels.clone();
    img.set(Point { x: -1, y: 0 }, red());
    img.set(Point { x: 0, y: -1 }, red());
    img.set(Point { x: 2, y: 0 }, red());
    img.set(Point { x: 0, y: 2 }, red());
    assert_eq!(img.pixels, before);
}

#[test]
fn get_out_of_bounds_is_none() {
    let img = Image::new(2, 2);
    assert_eq!(img.get(Point { x: 2, y: 0 }), None);
    assert_eq!(img.get(Point { x: 0, y: -1 }), None);
}

#[test]
fn clear_overwrites_every_pixel() {
    let mut img = Image::new(3, 3);
    img.set(Point { x: 1, y: 1 }, red());
    img.clear(Color::gray(9));
    for &p in &img.pixels {
        assert_eq!(p, Color::gray(9));
    }
}

#[test]
fn flip_vertically_mirrors_rows() {
    let mut img = Image::new(2, 2);
    img.set(Point { x: 0, y: 0 }, red());
    img.flip_vertically();
    assert_eq!(img.get(Point { x: 0, y: 1 }), Some(red()));
    assert_eq!(img.get(Point { x: 0, y: 0 }), Some(Color { r: 0, g: 0, b: 0 }));
}

#[test]
fn flip_horizontally_mirrors_columns() {
    let mut img = Image::new(2, 2);
    img.set(Point { x: 0, y: 0 }, red());
    img.flip_horizontally();
    assert_eq!(img.get(Point { x: 1, y: 0 }), Some(red()));
    assert_eq!(img.get(Point { x: 0, y: 0 }), Some(Color { r: 0, g: 0, b: 0 }));
}

#[test]
fn inside_triangle_classifies_points() {
    let a = Point { x: 0, y: 0 };
    let b = Point { x: 10, y: 0 };
    let c = Point { x: 0, y: 10 };
    assert!(inside_triangle(Point { x: 2, y: 2 }, (a, b, c)));
    // vertices and edges count as inside
    assert!(inside_triangle(a, (a, b, c)));
    assert!(inside_triangle(Point { x: 5, y: 0 }, (a, b, c)));
    assert!(inside_triangle(Point { x: 5, y: 5 }, (a, b, c)));
    // outside
    assert!(!inside_triangle(Point { x: 6, y: 5 }, (a, b, c)));
    assert!(!inside_triangle(Point { x: -1, y: 0 }, (a, b, c)));
}

#[test]
fn inside_triangle_degenerate_is_outside() {
    let a = Point { x: 0, y: 0 };
    let b = Point { x: 5, y: 5 };
    let c = Point { x: 10, y: 10 };
    assert!(!inside_triangle(Point { x: 5, y: 5 }, (a, b, c)));
}

#[test]
fn triangle_fills_inside_and_leaves_outside() {
    let mut img = Image::new(8, 8);
    let a = Point { x: 0, y: 0 };
    let b = Point { x: 7, y: 0 };
    let c = Point { x: 0, y: 7 };
    img.triangle((a, b, c), red());
    for y in 0..8 {
        for x in 0..8 {
            let p = Point { x, y };
            let want = if inside_triangle(p, (a, b, c)) {
                red()
            } else {
                Color { r: 0, g: 0, b: 0 }
            };
            assert_eq!(img.get(p), Some(want));
        }
    }
}

#[test]
fn point_cross_is_signed_area() {
    let u = Point { x: 2, y: 3 };
    let v = Point { x: 4, y: 5 };
    assert_eq!(u.cross(v), 2 * 5 - 3 * 4);
    assert_eq!(v.cross(u), -(2 * 5 - 3 * 4));
}
