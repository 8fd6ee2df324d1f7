use softrender::color::Color;
use softrender::geom::Point;
use softrender::image::Image;

fn white() -> Color {
    Color { r: 255, g: 255, b: 255 }
}

fn drawn(img: &Image) -> Vec<(i32, i32)> {
    let mut v = Vec::new();
    for y in 0..img.height {
        for x in 0..img.width {
            if img.get(Point { x, y }) == Some(white()) {
                v.push((x, y));
            }
        }
    }
    v
}

fn line_set(p0: Point, p1: Point) -> Vec<(i32, i32)> {
    let mut img = Image::new(32, 32);
    img.line(p0, p1, white());
    drawn(&img)
}

#[test]
fn line_is_symmetric_shallow() {
    let p0 = Point { x: 1, y: 2 };
    let p1 = Point { x: 20, y: 9 };
    assert_eq!(line_set(p0, p1), line_set(p1, p0));
}

#[test]
fn line_is_symmetric_steep() {
    let p0 = Point { x: 3, y: 1 };
    let p1 = Point { x: 9, y: 25 };
    assert_eq!(line_set(p0, p1), line_set(p1, p0));
}

#[test]
fn line_is_symmetric_negative_slope() {
    let p0 = Point { x: 2, y: 20 };
    let p1 = Point { x: 18, y: 3 };
    assert_eq!(line_set(p0, p1), line_set(p1, p0));
}

#[test]
fn line_single_point() {
    let p = Point { x: 5, y: 5 };
    assert_eq!(line_set(p, p), vec![(5, 5)]);
}

#[test]
fn line_horizontal() {
    let got = line_set(Point { x: 2, y: 4 }, Point { x: 6, y: 4 });
    assert_eq!(got, vec![(2, 4), (3, 4), (4, 4), (5, 4), (6, 4)]);
}

#[test]
fn line_vertical() {
    let got = line_set(Point { x: 4, y: 2 }, Point { x: 4, y: 5 });
    assert_eq!(got, vec![(4, 2), (4, 3), (4, 4), (4, 5)]);
}

#[test]
fn line_diagonal() {
    let got = line_set(Point { x: 0, y: 0 }, Point { x: 3, y: 3 });
    assert_eq!(got, vec![(0, 0), (1, 1), (2, 2), (3, 3)]);
}

#[test]
fn line_touches_endpoints() {
    let p0 = Point { x: 1, y: 1 };
    let p1 = Point { x: 13, y: 6 };
    let got = line_set(p0, p1);
    assert!(got.contains(&(1, 1)));
    assert!(got.contains(&(13, 6)));
    // one pixel per driving-axis column
    assert_eq!(got.len(), 13);
}

#[test]
fn line_clips_quietly_off_screen() {
    let mut img = Image::new(4, 4);
    img.line(Point { x: -5, y: 1 }, Point { x: 8, y: 2 }, white());
    // does not panic; some pixels inside the frame are set
    assert!(!drawn(&img).is_empty());
}
