use snake::game::{accept_direction, Direction, GameState, GameStatus, KeyEvent};
use snake::rand::Rng;
use snake::Vec2;

fn grid_cell(gs: &GameState, px: isize, py: isize) -> (isize, isize) {
    (
        (px - gs.offset_x) / gs.block_size,
        (py - gs.offset_y) / gs.block_size,
    )
}

#[test]
fn geometry_of_a_400_square_display() {
    let gs = GameState::new(400, 400);
    assert_eq!(gs.block_size, 20);
    assert_eq!(gs.grid_w, 20);
    assert_eq!(gs.grid_h, 20);
    assert_eq!(gs.offset_x, 0);
    assert_eq!(gs.offset_y, 0);
    let (hx, hy) = grid_cell(&gs, gs.head_x, gs.head_y);
    assert_eq!((hx, hy), (10, 10));
    assert_eq!(gs.length, 1);
    assert_eq!(gs.body.len(), 1);
    assert!(matches!(gs.direction, Direction::Down));
    assert!(matches!(gs.status, GameStatus::Running));
    assert!(gs.fruits.is_empty());
}

#[test]
fn one_tick_moves_the_head_down() {
    let mut gs = GameState::new(400, 400);
    let mut rng = Rng::new(Some(42));
    let ate = gs.tick(&mut rng);
    assert!(!ate);
    assert!(matches!(gs.status, GameStatus::Running));
    assert_eq!(gs.body.len(), 1);
    let (hx, hy) = grid_cell(&gs, gs.head_x, gs.head_y);
    assert_eq!((hx, hy), (10, 11));
}

#[test]
fn tail_cell_is_trimmed_before_the_collision_check() {
    // A three-segment snake whose next head cell is exactly its oldest
    // segment: the tail leaves first, so the move must not be a death.
    let mut gs = GameState::new(400, 400);
    gs.body = vec![
        Vec2 { x: 100, y: 140 }, // oldest, cell (5, 7)
        Vec2 { x: 100, y: 100 }, // cell (5, 5)
        Vec2 { x: 100, y: 120 }, // head, cell (5, 6)
    ];
    gs.head_x = 100;
    gs.head_y = 120;
    gs.length = 3;
    gs.direction = Direction::Down;
    let mut rng = Rng::new(Some(7));
    gs.tick(&mut rng);
    assert!(matches!(gs.status, GameStatus::Running));
    assert_eq!(gs.body.len(), 3);
    let (hx, hy) = grid_cell(&gs, gs.head_x, gs.head_y);
    assert_eq!((hx, hy), (5, 7));
}

#[test]
fn landing_on_a_kept_segment_is_death() {
    // The same shape, but with a target length of four nothing is
    // trimmed and the occupied cell kills the snake.
    let mut gs = GameState::new(400, 400);
    gs.body = vec![
        Vec2 { x: 100, y: 140 },
        Vec2 { x: 100, y: 100 },
        Vec2 { x: 100, y: 120 },
    ];
    gs.head_x = 100;
    gs.head_y = 120;
    gs.length = 4;
    gs.direction = Direction::Down;
    let mut rng = Rng::new(Some(7));
    gs.tick(&mut rng);
    assert!(matches!(gs.status, GameStatus::Dead));
    assert_eq!(gs.body.len(), 4);
}

#[test]
fn leaving_the_grid_is_death_at_the_boundary_cell() {
    let mut gs = GameState::new(400, 400);
    gs.body = vec![Vec2 { x: 0, y: 100 }];
    gs.head_x = 0;
    gs.head_y = 100;
    gs.direction = Direction::Left;
    let mut rng = Rng::new(Some(3));
    gs.tick(&mut rng);
    assert!(matches!(gs.status, GameStatus::Dead));
    // the head is rendered at the clamped boundary cell (0, 5)
    let (hx, hy) = grid_cell(&gs, gs.head_x, gs.head_y);
    assert_eq!((hx, hy), (0, 5));
    assert_eq!(gs.body.len(), 1);
}

#[test]
fn eating_a_fruit_grows_the_snake_once() {
    let mut gs = GameState::new(400, 400);
    gs.fruits = vec![Vec2 { x: 10, y: 11 }];
    let mut rng = Rng::new(Some(9));
    let ate = gs.tick(&mut rng);
    assert!(ate);
    assert_eq!(gs.length, 2);
    assert_eq!(gs.score(), 1);
    assert!(matches!(gs.status, GameStatus::Running));
    assert!(!gs.fruits.iter().any(|f| f.x == 10 && f.y == 11));
}

#[test]
fn restart_after_death_resets_everything() {
    let mut gs = GameState::new(400, 400);
    gs.fruits = vec![Vec2 { x: 1, y: 1 }];
    gs.body = vec![Vec2 { x: 0, y: 100 }];
    gs.head_x = 0;
    gs.head_y = 100;
    gs.direction = Direction::Left;
    gs.length = 1;
    let mut rng = Rng::new(Some(5));
    gs.tick(&mut rng);
    assert!(matches!(gs.status, GameStatus::Dead));
    let quit = gs.handle_event(KeyEvent::Printable(' '));
    assert!(!quit);
    assert!(matches!(gs.status, GameStatus::Running));
    assert_eq!(gs.length, 1);
    assert_eq!(gs.score(), 0);
    assert!(gs.fruits.is_empty());
    assert!(matches!(gs.direction, Direction::Down));
    assert_eq!(gs.body.len(), 1);
    let (hx, hy) = grid_cell(&gs, gs.head_x, gs.head_y);
    assert_eq!((hx, hy), (10, 10));
}

#[test]
fn restart_is_ignored_while_running() {
    let mut gs = GameState::new(400, 400);
    gs.direction = Direction::Left;
    gs.handle_event(KeyEvent::Printable(' '));
    assert!(matches!(gs.direction, Direction::Left));
    assert!(matches!(gs.status, GameStatus::Running));
}

#[test]
fn opposite_directions_are_rejected() {
    let all = [
        Direction::Up,
        Direction::Down,
        Direction::Left,
        Direction::Right,
    ];
    let opposite = |d: Direction| match d {
        Direction::Up => Direction::Down,
        Direction::Down => Direction::Up,
        Direction::Left => Direction::Right,
        Direction::Right => Direction::Left,
    };
    for &c in &all {
        for &d in &all {
            assert_eq!(accept_direction(c, d), d != opposite(c));
        }
    }
}

#[test]
fn direction_keys_turn_the_snake() {
    let mut gs = GameState::new(400, 400);
    gs.handle_event(KeyEvent::DirectionKey(Direction::Left));
    assert!(matches!(gs.direction, Direction::Left));
    // the exact opposite is refused
    gs.handle_event(KeyEvent::DirectionKey(Direction::Right));
    assert!(matches!(gs.direction, Direction::Left));
    gs.handle_event(KeyEvent::DirectionKey(Direction::Up));
    assert!(matches!(gs.direction, Direction::Up));
}

#[test]
fn quit_reports_and_changes_nothing() {
    let mut gs = GameState::new(400, 400);
    let quit = gs.handle_event(KeyEvent::Quit);
    assert!(quit);
    assert!(matches!(gs.status, GameStatus::Running));
    assert_eq!(gs.length, 1);
}

#[test]
fn restart_takes_priority_over_direction_changes_in_a_batch() {
    let mut gs = GameState::new(400, 400);
    gs.body = vec![Vec2 { x: 0, y: 100 }];
    gs.head_x = 0;
    gs.head_y = 100;
    gs.direction = Direction::Left;
    let mut rng = Rng::new(Some(1));
    gs.tick(&mut rng);
    assert!(matches!(gs.status, GameStatus::Dead));
    let batch = vec![
        KeyEvent::DirectionKey(Direction::Up),
        KeyEvent::Printable(' '),
        KeyEvent::DirectionKey(Direction::Left),
    ];
    let quit = gs.handle_batch(&batch);
    assert!(!quit);
    assert!(matches!(gs.status, GameStatus::Running));
    assert!(matches!(gs.direction, Direction::Down));
}

#[test]
fn a_batch_applies_direction_changes_in_order() {
    let mut gs = GameState::new(400, 400);
    let batch = vec![
        KeyEvent::DirectionKey(Direction::Left),
        KeyEvent::Other,
        KeyEvent::DirectionKey(Direction::Up),
        KeyEvent::Quit,
    ];
    let quit = gs.handle_batch(&batch);
    assert!(quit);
    assert!(matches!(gs.direction, Direction::Up));
}
