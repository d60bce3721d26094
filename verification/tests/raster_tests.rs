use pixelmap::image::Pixel;
use pixelmap::image::Screen;
use pixelmap::raster::draw_circle;
use pixelmap::raster::draw_rect;

fn px(red: u8, green: u8, blue: u8) -> Pixel {
    Pixel { red, green, blue }
}

fn at(screen: &Screen, x: usize, y: usize) -> Pixel {
    screen.pixels[y * screen.width + x]
}

const BLACK: Pixel = Pixel { red: 0, green: 0, blue: 0 };
const RED: Pixel = Pixel { red: 255, green: 0, blue: 0 };
const GREEN: Pixel = Pixel { red: 0, green: 255, blue: 0 };

#[test]
fn rect_paints_exactly_its_cells() {
    let mut screen = Screen::new(4, 4, BLACK);
    draw_rect(1, 1, 2, 2, GREEN, &mut screen);
    for y in 0..4 {
        for x in 0..4 {
            let inside = (1..3).contains(&x) && (1..3).contains(&y);
            let want = if inside { GREEN } else { BLACK };
            assert_eq!(at(&screen, x, y), want, "pixel ({}, {})", x, y);
        }
    }
}

#[test]
fn rect_twice_equals_rect_once() {
    let mut once = Screen::new(6, 5, px(3, 3, 3));
    let mut twice = Screen::new(6, 5, px(3, 3, 3));
    draw_rect(2, 1, 3, 2, RED, &mut once);
    draw_rect(2, 1, 3, 2, RED, &mut twice);
    draw_rect(2, 1, 3, 2, RED, &mut twice);
    assert_eq!(once.pixels, twice.pixels);
}

#[test]
fn rect_covering_whole_buffer() {
    let mut screen = Screen::new(3, 3, BLACK);
    draw_rect(0, 0, 3, 3, RED, &mut screen);
    assert!(screen.pixels.iter().all(|p| *p == RED));
}

#[test]
fn circle_contains_near_pixels_and_spares_far_ones() {
    let mut screen = Screen::new(200, 200, BLACK);
    draw_circle(100, 100, 10, RED, &mut screen);
    assert_eq!(at(&screen, 100, 100), RED);
    assert_eq!(at(&screen, 105, 100), RED);
    assert_eq!(at(&screen, 100, 115), BLACK);
    assert_eq!(at(&screen, 108, 108), BLACK);
}

#[test]
fn circle_low_edge_included_high_edge_excluded() {
    // The bounding box is half-open on its high edges, so the row y + r and
    // the column x + r stay unpainted even at distance exactly r.
    let mut screen = Screen::new(200, 200, BLACK);
    draw_circle(100, 100, 10, RED, &mut screen);
    assert_eq!(at(&screen, 90, 100), RED);
    assert_eq!(at(&screen, 100, 90), RED);
    assert_eq!(at(&screen, 110, 100), BLACK);
    assert_eq!(at(&screen, 100, 110), BLACK);
}

#[test]
fn circle_clamped_at_the_buffer_edge() {
    // When the box would overflow, the last row and column of the buffer
    // stay out of reach.
    let mut screen = Screen::new(10, 10, BLACK);
    draw_circle(9, 9, 3, RED, &mut screen);
    assert_eq!(at(&screen, 9, 9), BLACK);
    assert_eq!(at(&screen, 8, 8), RED);
    assert_eq!(at(&screen, 6, 9), BLACK);
    assert_eq!(at(&screen, 7, 8), RED);
}

#[test]
fn circle_clamped_at_the_origin() {
    let mut screen = Screen::new(10, 10, BLACK);
    draw_circle(1, 1, 3, RED, &mut screen);
    assert_eq!(at(&screen, 0, 0), RED);
    assert_eq!(at(&screen, 1, 1), RED);
    assert_eq!(at(&screen, 3, 1), RED);
    assert_eq!(at(&screen, 5, 5), BLACK);
}
