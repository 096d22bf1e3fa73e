use flood_fill::raster::{get_pixel_coords, image_size};
use flood_fill::render::render;
use flood_fill::{Area, Bounds, Point};

#[test]
fn bounds_width_and_height() {
    let b = Bounds { min_x: -5, min_y: 2, max_x: 10, max_y: 3 };
    assert_eq!(b.width(), 15);
    assert_eq!(b.height(), 1);
}

#[test]
fn bounds_from_area() {
    let a = Area { center: Point { x: 10, y: -20, z: 7 }, radius: 5 };
    assert_eq!(
        Bounds::from_area(&a),
        Bounds { min_x: 5, min_y: -25, max_x: 15, max_y: -15 }
    );
}

#[test]
fn bounds_of_points() {
    let pts = [
        Point { x: 3, y: 1, z: 0 },
        Point { x: -2, y: 8, z: 0 },
        Point { x: 0, y: -4, z: 0 },
    ];
    assert_eq!(
        Bounds::of_points(&pts),
        Some(Bounds { min_x: -2, min_y: -4, max_x: 3, max_y: 8 })
    );
    assert_eq!(Bounds::of_points(&[]), None);
}

#[test]
fn image_size_values() {
    // 25.5 m by 0 m: 26 whole metres give 3 columns; one row.
    let b = Bounds { min_x: 0, min_y: 0, max_x: 25_500, max_y: 0 };
    assert_eq!(image_size(&b), (3, 1));
    let b = Bounds { min_x: 0, min_y: 0, max_x: 100_000, max_y: 9_000 };
    assert_eq!(image_size(&b), (11, 1));
}

#[test]
fn pixel_coords_values() {
    let b = Bounds { min_x: 0, min_y: 0, max_x: 100_000, max_y: 50_000 };
    let (_, h) = image_size(&b);
    assert_eq!(h, 6);
    assert_eq!(get_pixel_coords(&Point { x: 0, y: 0, z: 0 }, &b, h), (0, 5));
    assert_eq!(get_pixel_coords(&Point { x: 100_000, y: 50_000, z: 0 }, &b, h), (10, 0));
    assert_eq!(get_pixel_coords(&Point { x: 19_999, y: 10_000, z: 0 }, &b, h), (1, 4));
}

#[test]
fn render_draws_points_and_home_marker() {
    // 200 m by 100 m: 21 columns, 11 rows.
    let b = Bounds { min_x: 0, min_y: 0, max_x: 200_000, max_y: 100_000 };
    let home = Point { x: 150_000, y: 50_000, z: 0 };
    let points = [
        Point { x: 0, y: 0, z: 0 },
        Point { x: 200_000, y: 100_000, z: 0 },
        Point { x: 155_000, y: 45_000, z: 0 },
    ];
    let canvas = render(&home, &points, &b);
    let img = &canvas.img;
    assert_eq!((img.width(), img.height()), (21, 11));
    assert_eq!(img.get_pixel(0, 10).0, [0, 0, 255, 150]);
    assert_eq!(img.get_pixel(20, 0).0, [0, 0, 255, 150]);
    // Home is at pixel (15, 5); its marker covers columns 15..21 and rows 5..11
    // of the image, over the point at (15, 6).
    assert_eq!(img.get_pixel(15, 5).0, [255, 0, 0, 255]);
    assert_eq!(img.get_pixel(15, 6).0, [255, 0, 0, 255]);
    assert_eq!(img.get_pixel(20, 10).0, [255, 0, 0, 255]);
    assert_eq!(img.get_pixel(14, 5).0, [0, 0, 0, 0]);
    assert_eq!(img.get_pixel(1, 1).0, [0, 0, 0, 0]);
}

#[test]
fn render_without_points_is_transparent() {
    let b = Bounds { min_x: 0, min_y: 0, max_x: 30_000, max_y: 30_000 };
    let home = Point { x: 90_000, y: 0, z: 0 };
    let canvas = render(&home, &[], &b);
    assert_eq!((canvas.img.width(), canvas.img.height()), (4, 4));
    assert!(canvas.img.pixels().all(|p| p.0 == [0, 0, 0, 0]));
}
