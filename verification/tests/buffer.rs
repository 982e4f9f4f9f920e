use snake::buffer::{Buffer, Rgb};
use snake::game::{Direction, GameState, GameStatus};
use snake::rand::Rng;
use snake::Vec2;

fn red() -> Rgb {
    Rgb { r: 255, g: 0, b: 0 }
}

fn pixel(buf: &Buffer, x: usize, y: usize) -> Rgb {
    buf.pixels[y * buf.width + x]
}

#[test]
fn a_new_buffer_is_black() {
    let buf = Buffer::new(8, 6);
    assert_eq!(buf.width, 8);
    assert_eq!(buf.height, 6);
    assert_eq!(buf.pixels.len(), 48);
    assert!(buf.pixels.iter().all(|p| *p == Rgb { r: 0, g: 0, b: 0 }));
}

#[test]
fn clear_resets_every_pixel() {
    let mut buf = Buffer::new(4, 4);
    buf.set_pixel(2, 2, red());
    assert_eq!(pixel(&buf, 2, 2), red());
    buf.clear();
    assert!(buf.pixels.iter().all(|p| *p == Rgb { r: 0, g: 0, b: 0 }));
}

#[test]
fn out_of_bounds_writes_are_silent_no_ops() {
    let mut buf = Buffer::new(4, 4);
    buf.set_pixel(4, 0, red());
    buf.set_pixel(0, 4, red());
    buf.set_pixel(1000, 1000, red());
    assert!(buf.pixels.iter().all(|p| *p == Rgb { r: 0, g: 0, b: 0 }));
}

#[test]
fn filled_rectangles_cover_the_whole_region() {
    let mut buf = Buffer::new(6, 5);
    buf.rectangle(1, 1, 3, 2, red(), true);
    for y in 0..5 {
        for x in 0..6 {
            let inside = (1..4).contains(&x) && (1..3).contains(&y);
            assert_eq!(pixel(&buf, x, y) == red(), inside, "at ({}, {})", x, y);
        }
    }
}

#[test]
fn outlines_draw_edges_not_only_corners() {
    // a pixel belongs to the outline when it lies on the first or last
    // column OR the first or last row of the region
    let mut buf = Buffer::new(6, 5);
    buf.rectangle(1, 1, 4, 3, red(), false);
    for y in 0..5 {
        for x in 0..6 {
            let in_region = (1..5).contains(&x) && (1..4).contains(&y);
            let on_border = in_region && (x == 1 || x == 4 || y == 1 || y == 3);
            assert_eq!(pixel(&buf, x, y) == red(), on_border, "at ({}, {})", x, y);
        }
    }
    // edge midpoints are drawn, which only holds for the OR reading
    assert_eq!(pixel(&buf, 2, 1), red());
    assert_eq!(pixel(&buf, 1, 2), red());
    // and the interior stays untouched
    assert_ne!(pixel(&buf, 2, 2), red());
}

#[test]
fn rectangles_clip_at_the_buffer_edge() {
    let mut buf = Buffer::new(4, 4);
    buf.rectangle(2, 2, 10, 10, red(), true);
    for y in 0..4 {
        for x in 0..4 {
            let inside = x >= 2 && y >= 2;
            assert_eq!(pixel(&buf, x, y) == red(), inside, "at ({}, {})", x, y);
        }
    }
}

#[test]
fn a_rendered_frame_shows_background_fruit_and_snake() {
    let mut gs = GameState::new(400, 400);
    gs.fruits = vec![Vec2 { x: 0, y: 0 }];
    let mut buf = Buffer::new(400, 400);
    gs.render(&mut buf);
    // background stays black
    assert_eq!(pixel(&buf, 399, 399), Rgb { r: 0, g: 0, b: 0 });
    // the fruit is a half-cell square centered in cell (0, 0)
    assert_eq!(pixel(&buf, 7, 7), Rgb { r: 220, g: 30, b: 70 });
    assert_eq!(pixel(&buf, 2, 2), Rgb { r: 0, g: 0, b: 0 });
    // the head cell (10, 10) is bright green while alive
    assert_eq!(pixel(&buf, 210, 210), Rgb { r: 0, g: 200, b: 0 });
}

#[test]
fn a_dead_snake_is_rendered_red() {
    let mut gs = GameState::new(400, 400);
    gs.body = vec![Vec2 { x: 0, y: 100 }];
    gs.head_x = 0;
    gs.head_y = 100;
    gs.direction = Direction::Left;
    let mut rng = Rng::new(Some(6));
    gs.tick(&mut rng);
    assert!(matches!(gs.status, GameStatus::Dead));
    let mut buf = Buffer::new(400, 400);
    gs.render(&mut buf);
    assert_eq!(pixel(&buf, 10, 110), Rgb { r: 200, g: 0, b: 0 });
}
