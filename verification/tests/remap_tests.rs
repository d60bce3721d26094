use pixelmap::image::Pixel;
use pixelmap::image::Screen;
use pixelmap::remap::apply_map;

fn px(red: u8, green: u8, blue: u8) -> Pixel {
    Pixel { red, green, blue }
}

fn at(screen: &Screen, x: usize, y: usize) -> Pixel {
    screen.pixels[y * screen.width + x]
}

const BLACK: Pixel = Pixel { red: 0, green: 0, blue: 0 };
const RED: Pixel = Pixel { red: 255, green: 0, blue: 0 };

/// The destination of every source cell under a 2x2 matrix, floored, the
/// way the unverified front end computes it before calling `apply_map`.
fn matrix_dests(matrix: [[f64; 2]; 2], screen: &Screen) -> Vec<(usize, usize)> {
    let mut dests = Vec::new();
    for y in 0..screen.height {
        for x in 0..screen.width {
            let new_x = (matrix[0][0] * x as f64 + matrix[0][1] * y as f64).floor() as usize;
            let new_y = (matrix[1][0] * x as f64 + matrix[1][1] * y as f64).floor() as usize;
            dests.push((new_x, new_y));
        }
    }
    dests
}

#[test]
fn identity_transform_keeps_interior_and_blacks_edges() {
    let screen = Screen::new(10, 10, RED);
    let dests = matrix_dests([[1.0, 0.0], [0.0, 1.0]], &screen);
    let out = apply_map(&dests, &screen);
    assert_eq!(out.width, 10);
    assert_eq!(out.height, 10);
    // The lower bound is strict: column 0 and row 0 receive nothing.
    for t in 0..10 {
        assert_eq!(at(&out, 0, t), BLACK, "column 0, row {}", t);
        assert_eq!(at(&out, t, 0), BLACK, "row 0, column {}", t);
    }
    // Every other cell keeps its pixel, the last row and column included.
    for y in 1..10 {
        for x in 1..10 {
            assert_eq!(at(&out, x, y), RED, "pixel ({}, {})", x, y);
        }
    }
}

#[test]
fn collisions_keep_the_last_source_pixel() {
    let mut screen = Screen::new(3, 3, BLACK);
    for k in 0..9u8 {
        screen.pixels[k as usize] = px(k, 0, 0);
    }
    let dests = vec![(1usize, 1usize); 9];
    let out = apply_map(&dests, &screen);
    assert_eq!(at(&out, 1, 1), px(8, 0, 0));
    for y in 0..3 {
        for x in 0..3 {
            if (x, y) != (1, 1) {
                assert_eq!(at(&out, x, y), BLACK);
            }
        }
    }
}

#[test]
fn shear_transform_moves_pixels_down() {
    let mut screen = Screen::new(6, 6, BLACK);
    screen.pixels[3 * 6 + 3] = RED;
    let dests = matrix_dests([[1.0, 0.0], [0.5, 1.0]], &screen);
    let out = apply_map(&dests, &screen);
    // (3, 3) lands on (3, floor(0.5 * 3 + 3)) = (3, 4).
    assert_eq!(at(&out, 3, 4), RED);
    assert_eq!(at(&out, 3, 3), BLACK);
}

#[test]
fn destinations_outside_the_buffer_are_dropped() {
    let screen = Screen::new(4, 4, RED);
    let dests = matrix_dests([[2.0, 0.0], [0.0, 2.0]], &screen);
    let out = apply_map(&dests, &screen);
    // Source (1, 1) lands inside at (2, 2); source (2, 2) would land at
    // (4, 4), outside the strict interior, and vanishes.
    assert_eq!(at(&out, 2, 2), RED);
    assert_eq!(at(&out, 3, 3), BLACK);
}
