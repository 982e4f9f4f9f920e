//! The snake simulation: grid geometry derived from the display
//! resolution, the direction state machine, the body-segment sequence,
//! the fruit set, and the death and restart transitions.

use vstd::prelude::*;

verus! {

use crate::Vec2;
use crate::buffer::{Buffer, Rgb, black, draw_rect_on};
use crate::rand::{Rng, covers, all_in_grid, below_threshold, lcg_next};

/// Heading of the snake.
#[derive(Clone, Copy, Debug, PartialEq, Eq, Structural)]
pub enum Direction {
    Up,
    Down,
    Left,
    Right,
}

/// Whether the game is still being played.
#[derive(Clone, Copy, Debug, PartialEq, Eq, Structural)]
pub enum GameStatus {
    Running,
    Dead,
}

/// One input event, as the platform input service reports it.
#[derive(Clone, Copy, Debug, PartialEq, Eq, Structural)]
pub enum KeyEvent {
    /// A printable character; the space bar is the restart input.
    Printable(char),
    /// An arrow key proposing a new heading.
    DirectionKey(Direction),
    /// The dedicated quit input.
    Quit,
    /// Any other key; ignored.
    Other,
}

/// The geometric opposite of a direction.
pub open spec fn opposite(d: Direction) -> Direction {
    match d {
        Direction::Up => Direction::Down,
        Direction::Down => Direction::Up,
        Direction::Left => Direction::Right,
        Direction::Right => Direction::Left,
    }
}

/// Horizontal step of a direction, in grid cells.
pub open spec fn dir_dx(d: Direction) -> int {
    match d {
        Direction::Left => -1,
        Direction::Right => 1,
        _ => 0,
    }
}

/// Vertical step of a direction, in grid cells.
pub open spec fn dir_dy(d: Direction) -> int {
    match d {
        Direction::Up => -1,
        Direction::Down => 1,
        _ => 0,
    }
}

/// Some event of the batch is the quit input.
pub open spec fn contains_quit(evs: Seq<KeyEvent>) -> bool {
    exists|i: int| 0 <= i < evs.len() && evs[i] is Quit
}

/// Some event of the batch is the restart input (the space bar).
pub open spec fn contains_restart(evs: Seq<KeyEvent>) -> bool {
    exists|i: int| 0 <= i < evs.len() && evs[i] == KeyEvent::Printable(' ')
}

/// The effect of one event on the state outside a restart: an accepted
/// direction key turns the snake, everything else changes nothing.
pub open spec fn apply_direction_event(s: GameState, ev: KeyEvent) -> GameState {
    match ev {
        KeyEvent::DirectionKey(d) => if d != opposite(s.direction) {
            (GameState { direction: d, ..s })
        } else {
            s
        },
        _ => s,
    }
}

/// The effect of a batch of events applied in order, when no restart
/// fires.
pub open spec fn apply_direction_events(s: GameState, evs: Seq<KeyEvent>) -> GameState
    decreases evs.len(),
{
    if evs.len() == 0 {
        s
    } else {
        apply_direction_event(apply_direction_events(s, evs.drop_last()), evs.last())
    }
}

/// A proposed direction is accepted exactly when it is not the
/// geometric opposite of the current one (no instant self-reversal).
pub fn accept_direction(current: Direction, proposed: Direction) -> (r: bool)
    ensures
        r == (proposed != opposite(current)),
{
    let opp = match current {
        Direction::Up => Direction::Down,
        Direction::Down => Direction::Up,
        Direction::Left => Direction::Right,
        Direction::Right => Direction::Left,
    };
    proposed != opp
}

/// The whole simulation state. Geometry fields are derived once from the
/// display resolution and never change afterwards; the rest evolves one
/// tick at a time.
pub struct GameState {
    /// Pixel extent of one grid cell.
    pub block_size: isize,
    /// Grid width in cells.
    pub grid_w: isize,
    /// Grid height in cells.
    pub grid_h: isize,
    /// Pixel x of the left edge of grid column 0 (centers the grid).
    pub offset_x: isize,
    /// Pixel y of the top edge of grid row 0.
    pub offset_y: isize,
    /// Head position in pixel units.
    pub head_x: isize,
    /// Head position in pixel units.
    pub head_y: isize,
    /// Body segments in pixel units, oldest first; the last one is the head.
    pub body: Vec<Vec2>,
    /// Target body length; the body catches up to it one cell per tick.
    pub length: usize,
    /// Fruit cells in grid units; at most two at a time.
    pub fruits: Vec<Vec2>,
    /// Current heading.
    pub direction: Direction,
    /// Running or dead.
    pub status: GameStatus,
}

impl GameState {
    /// Pixel x-coordinate of grid column `gx`.
    pub open spec fn px_of_gx(self, gx: int) -> int {
        gx * self.block_size + self.offset_x
    }

    /// Pixel y-coordinate of grid row `gy`.
    pub open spec fn py_of_gy(self, gy: int) -> int {
        gy * self.block_size + self.offset_y
    }

    /// Grid column of a pixel x-coordinate.
    pub open spec fn gx_of_px(self, px: int) -> int {
        (px - self.offset_x) / (self.block_size as int)
    }

    /// Grid row of a pixel y-coordinate.
    pub open spec fn gy_of_py(self, py: int) -> int {
        (py - self.offset_y) / (self.block_size as int)
    }

    /// `(px, py)` is exactly the pixel position of an in-grid cell.
    pub open spec fn aligned_in_grid(self, px: int, py: int) -> bool {
        let gx = self.gx_of_px(px);
        let gy = self.gy_of_py(py);
        &&& 0 <= gx < self.grid_w
        &&& 0 <= gy < self.grid_h
        &&& px == gx * self.block_size + self.offset_x
        &&& py == gy * self.block_size + self.offset_y
    }

    /// Grid cell of the head.
    pub open spec fn head_gx(self) -> int {
        self.gx_of_px(self.head_x as int)
    }

    /// Grid cell of the head.
    pub open spec fn head_gy(self) -> int {
        self.gy_of_py(self.head_y as int)
    }

    /// Grid column of body segment `j`.
    pub open spec fn body_gx(self, j: int) -> int {
        self.gx_of_px(self.body@[j].x as int)
    }

    /// Grid row of body segment `j`.
    pub open spec fn body_gy(self, j: int) -> int {
        self.gy_of_py(self.body@[j].y as int)
    }

    /// Some body segment occupies the grid cell `(x, y)`.
    pub open spec fn body_covers_cell(self, x: int, y: int) -> bool {
        exists|j: int|
            0 <= j < self.body@.len() && self.body_gx(j) == x && self.body_gy(j) == y
    }

    /// Unclamped next head cell, one step in the current direction.
    pub open spec fn next_gx(self) -> int {
        self.head_gx() + dir_dx(self.direction)
    }

    /// Unclamped next head cell, one step in the current direction.
    pub open spec fn next_gy(self) -> int {
        self.head_gy() + dir_dy(self.direction)
    }

    /// The next step would leave the grid: death at the wall.
    pub open spec fn wall_death(self) -> bool {
        !(0 <= self.next_gx() < self.grid_w && 0 <= self.next_gy() < self.grid_h)
    }

    /// The body after the per-tick trim: the oldest segment leaves when
    /// the body has already reached its target length.
    pub open spec fn trimmed_body(self) -> Seq<Vec2> {
        if self.body@.len() >= self.length {
            self.body@.drop_first()
        } else {
            self.body@
        }
    }

    /// The trimmed body occupies the grid cell `(x, y)`.
    pub open spec fn trimmed_covers(self, x: int, y: int) -> bool {
        exists|j: int|
            0 <= j < self.trimmed_body().len() && self.gx_of_px(
                self.trimmed_body()[j].x as int,
            ) == x && self.gy_of_py(self.trimmed_body()[j].y as int) == y
    }

    /// Self-collision: the next head cell stays in the grid but lands on
    /// a cell that the trimmed body still occupies.
    pub open spec fn self_collision(self) -> bool {
        !self.wall_death() && self.trimmed_covers(self.next_gx(), self.next_gy())
    }

    /// Every cell of the grid holds a body segment or one of the given
    /// fruit cells.
    pub open spec fn grid_full_for(self, fruits: Seq<Vec2>) -> bool {
        forall|x: int, y: int|
            0 <= x < self.grid_w && 0 <= y < self.grid_h ==> (self.body_covers_cell(x, y)
                || covers(fruits, x, y))
    }

    /// Geometry invariant: one grid cell is at least one pixel, the grid
    /// fits the queried resolution, and all derived quantities are small
    /// enough that pixel arithmetic cannot overflow.
    pub open spec fn geometry_wf(self) -> bool {
        &&& 1 <= self.block_size <= 0x10000
        &&& 1 <= self.grid_w <= 0x10000
        &&& 1 <= self.grid_h <= 0x10000
        &&& self.grid_w * self.block_size <= 0x10000
        &&& self.grid_h * self.block_size <= 0x10000
        &&& 0 <= self.offset_x <= 0x10000
        &&& 0 <= self.offset_y <= 0x10000
        &&& self.grid_w * self.grid_h <= 0x4000_0000
    }

    /// Full well-formedness of a simulation state.
    pub open spec fn wf(self) -> bool {
        &&& self.geometry_wf()
        &&& self.aligned_in_grid(self.head_x as int, self.head_y as int)
        &&& 1 <= self.body@.len() <= self.length
        &&& self.length <= self.body@.len() + 1
        &&& self.length <= self.grid_w * self.grid_h + 1
        &&& forall|j: int|
            0 <= j < self.body@.len() ==> self.aligned_in_grid(
                (#[trigger] self.body@[j]).x as int,
                self.body@[j].y as int,
            )
        &&& self.body@.last().x == self.head_x
        &&& self.body@.last().y == self.head_y
        &&& all_in_grid(self.fruits@, self.grid_w as int, self.grid_h as int)
        &&& self.fruits@.len() <= 2
        &&& self.fruits@.no_duplicates()
        &&& forall|i: int|
            0 <= i < self.fruits@.len() ==> !self.body_covers_cell(
                (#[trigger] self.fruits@[i]).x as int,
                self.fruits@[i].y as int,
            )
        &&& (self.status is Running ==> self.body@.no_duplicates())
    }

    /// The state right after construction or restart: a one-segment snake
    /// at the grid center, heading down, nothing eaten, no fruit.
    pub open spec fn is_fresh(self) -> bool {
        &&& self.status is Running
        &&& self.length == 1
        &&& self.direction is Down
        &&& self.fruits@.len() == 0
        &&& self.head_x == self.px_of_gx(self.grid_w as int / 2)
        &&& self.head_y == self.py_of_gy(self.grid_h as int / 2)
        &&& self.body@.len() == 1
        &&& self.body@[0].x == self.head_x
        &&& self.body@[0].y == self.head_y
    }

    /// The geometry fields of two states agree.
    pub open spec fn same_geometry(self, other: GameState) -> bool {
        &&& self.block_size == other.block_size
        &&& self.grid_w == other.grid_w
        &&& self.grid_h == other.grid_h
        &&& self.offset_x == other.offset_x
        &&& self.offset_y == other.offset_y
    }
}

impl GameState {
    /// Builds a game for a `width` by `height` display: one grid cell is
    /// a twentieth of the smaller side, the grid is centered, and the
    /// snake starts fresh in the middle.
    pub fn new(width: usize, height: usize) -> (r: GameState)
        requires
            20 <= width <= 0x10000,
            20 <= height <= 0x10000,
        ensures
            r.wf(),
            r.is_fresh(),
            r.block_size == (if width <= height {
                width as int
            } else {
                height as int
            }) / 20,
            r.grid_w == width as int / r.block_size as int,
            r.grid_h == height as int / r.block_size as int,
            r.offset_x == (width as int - r.grid_w * r.block_size) / 2,
            r.offset_y == (height as int - r.grid_h * r.block_size) / 2,
    {
        let m = if width <= height { width } else { height };
        let bs = m / 20;
        proof {
            vstd::arithmetic::div_mod::lemma_div_is_ordered(20, m as int, 20);
            vstd::arithmetic::div_mod::lemma_div_is_ordered(m as int, 0x10000, 20);
        }
        let gw = width / bs;
        let gh = height / bs;
        proof {
            vstd::arithmetic::div_mod::lemma_div_basics_3(bs as int);
            vstd::arithmetic::div_mod::lemma_div_basics_5(m as int, 20);
            vstd::arithmetic::div_mod::lemma_div_is_ordered(bs as int, width as int, bs as int);
            vstd::arithmetic::div_mod::lemma_div_is_ordered(bs as int, height as int, bs as int);
            vstd::arithmetic::div_mod::lemma_div_basics_5(width as int, bs as int);
            vstd::arithmetic::div_mod::lemma_div_basics_5(height as int, bs as int);
            // the grid covers no more than the display
            vstd::arithmetic::div_mod::lemma_fundamental_div_mod(width as int, bs as int);
            vstd::arithmetic::div_mod::lemma_mod_bound(width as int, bs as int);
            vstd::arithmetic::div_mod::lemma_fundamental_div_mod(height as int, bs as int);
            vstd::arithmetic::div_mod::lemma_mod_bound(height as int, bs as int);
            vstd::arithmetic::mul::lemma_mul_is_commutative(gw as int, bs as int);
            vstd::arithmetic::mul::lemma_mul_is_commutative(gh as int, bs as int);
            // the cell count stays well below any overflow boundary
            if bs >= 2 {
                vstd::arithmetic::div_mod::lemma_div_is_ordered_by_denominator(
                    width as int,
                    2,
                    bs as int,
                );
                vstd::arithmetic::div_mod::lemma_div_is_ordered(width as int, 0x10000, 2);
                vstd::arithmetic::div_mod::lemma_div_is_ordered_by_denominator(
                    height as int,
                    2,
                    bs as int,
                );
                vstd::arithmetic::div_mod::lemma_div_is_ordered(height as int, 0x10000, 2);
                vstd::arithmetic::mul::lemma_mul_upper_bound(gw as int, 0x8000, gh as int, 0x8000);
            } else {
                // bs == 1, so the smaller side is under 40 cells
                vstd::arithmetic::div_mod::lemma_div_basics_2(width as int);
                vstd::arithmetic::div_mod::lemma_div_basics_2(height as int);
                if width <= height {
                    vstd::arithmetic::mul::lemma_mul_upper_bound(gw as int, 40, gh as int, 0x10000);
                } else {
                    vstd::arithmetic::mul::lemma_mul_upper_bound(gw as int, 0x10000, gh as int, 40);
                }
            }
        }
        let covered_w = gw * bs;
        let covered_h = gh * bs;
        let ox = (width - covered_w) / 2;
        let oy = (height - covered_h) / 2;
        proof {
            vstd::arithmetic::div_mod::lemma_div_basics_5((width - covered_w) as int, 2);
            vstd::arithmetic::div_mod::lemma_div_basics_5((height - covered_h) as int, 2);
        }
        let mut r = GameState {
            block_size: bs as isize,
            grid_w: gw as isize,
            grid_h: gh as isize,
            offset_x: ox as isize,
            offset_y: oy as isize,
            head_x: 0,
            head_y: 0,
            body: Vec::new(),
            length: 1,
            fruits: Vec::new(),
            direction: Direction::Down,
            status: GameStatus::Running,
        };
        r.reset();
        r
    }

    /// Reinitializes everything but the geometry: a single centered body
    /// segment, length one, heading down, no fruit, running again.
    pub fn reset(&mut self)
        requires
            old(self).geometry_wf(),
        ensures
            final(self).wf(),
            final(self).is_fresh(),
            final(self).same_geometry(*old(self)),
    {
        let cgx = ((self.grid_w as usize) / 2) as isize;
        let cgy = ((self.grid_h as usize) / 2) as isize;
        proof {
            vstd::arithmetic::div_mod::lemma_div_decreases(self.grid_w as int, 2);
            vstd::arithmetic::div_mod::lemma_div_decreases(self.grid_h as int, 2);
            lemma_cell_to_px(*self, cgx as int, cgy as int);
            assert(self.grid_w * self.grid_h >= 1) by (nonlinear_arith)
                requires
                    self.grid_w >= 1,
                    self.grid_h >= 1,
            ;
        }
        let hx = cgx * self.block_size + self.offset_x;
        let hy = cgy * self.block_size + self.offset_y;
        self.head_x = hx;
        self.head_y = hy;
        let mut body: Vec<Vec2> = Vec::new();
        body.push(Vec2 { x: hx, y: hy });
        self.body = body;
        self.length = 1;
        self.fruits = Vec::new();
        self.direction = Direction::Down;
        self.status = GameStatus::Running;
    }

    /// Applies one input event. A proposed direction is taken unless it
    /// is the opposite of the current one; the space bar restarts the
    /// game, but only while dead; everything else changes nothing.
    /// Returns true exactly when the event asks to quit.
    pub fn handle_event(&mut self, ev: KeyEvent) -> (quit: bool)
        requires
            old(self).wf(),
        ensures
            final(self).wf(),
            final(self).same_geometry(*old(self)),
            quit == (ev is Quit),
            match ev {
                KeyEvent::DirectionKey(d) => *final(self) == (if d != opposite(
                    old(self).direction,
                ) {
                    (GameState { direction: d, ..*old(self) })
                } else {
                    *old(self)
                }),
                KeyEvent::Printable(c) => if c == ' ' && old(self).status is Dead {
                    final(self).is_fresh()
                } else {
                    *final(self) == *old(self)
                },
                _ => *final(self) == *old(self),
            },
    {
        let quit = match ev {
            KeyEvent::Quit => true,
            KeyEvent::DirectionKey(d) => {
                if accept_direction(self.direction, d) {
                    self.direction = d;
                }
                false
            },
            KeyEvent::Printable(c) => {
                if c == ' ' {
                    if matches!(self.status, GameStatus::Dead) {
                        self.reset();
                    }
                }
                false
            },
            KeyEvent::Other => false,
        };
        proof {
            if !(ev matches KeyEvent::Printable(c) && c == ' ' && old(self).status is Dead) {
                lemma_wf_same_core(*old(self), *self);
            }
        }
        quit
    }

    /// Applies a whole drained batch of input events. A restart takes
    /// priority over direction changes of the same batch: while dead,
    /// if any restart input is present, the game restarts and the
    /// batch's direction changes are discarded. Returns whether a quit
    /// input was seen anywhere in the batch.
    pub fn handle_batch(&mut self, events: &Vec<KeyEvent>) -> (quit: bool)
        requires
            old(self).wf(),
        ensures
            final(self).wf(),
            final(self).same_geometry(*old(self)),
            quit == contains_quit(events@),
            if old(self).status is Dead && contains_restart(events@) {
                final(self).is_fresh()
            } else {
                *final(self) == apply_direction_events(*old(self), events@)
            },
    {
        let mut quit = false;
        let mut restart = false;
        let mut i: usize = 0;
        while i < events.len()
            invariant
                i <= events@.len(),
                quit == (exists|j: int| 0 <= j < i && events@[j] is Quit),
                restart == (exists|j: int|
                    0 <= j < i && events@[j] == KeyEvent::Printable(' ')),
            decreases events@.len() - i,
        {
            match events[i] {
                KeyEvent::Quit => {
                    quit = true;
                },
                KeyEvent::Printable(c) => {
                    if c == ' ' {
                        restart = true;
                    }
                },
                _ => {},
            }
            i = i + 1;
        }
        if restart && matches!(self.status, GameStatus::Dead) {
            self.reset();
        } else {
            let mut k: usize = 0;
            while k < events.len()
                invariant
                    k <= events@.len(),
                    self.wf(),
                    self.same_geometry(*old(self)),
                    *self == apply_direction_events(*old(self), events@.take(k as int)),
                decreases events@.len() - k,
            {
                let ghost prev = *self;
                match events[k] {
                    KeyEvent::DirectionKey(d) => {
                        if accept_direction(self.direction, d) {
                            self.direction = d;
                        }
                    },
                    _ => {},
                }
                proof {
                    lemma_wf_same_core(prev, *self);
                    assert(events@.take(k as int + 1).drop_last() =~= events@.take(k as int));
                    assert(events@.take(k as int + 1).last() == events@[k as int]);
                }
                k = k + 1;
            }
            proof {
                assert(events@.take(events@.len() as int) =~= events@);
            }
        }
        quit
    }

    /// Grid cell of an aligned pixel position.
    #[verifier::loop_isolation(false)]
    fn cell_of_pixel(&self, px: isize, py: isize) -> (r: (isize, isize))
        requires
            self.geometry_wf(),
            self.aligned_in_grid(px as int, py as int),
        ensures
            r.0 as int == self.gx_of_px(px as int),
            r.1 as int == self.gy_of_py(py as int),
            0 <= r.0 < self.grid_w,
            0 <= r.1 < self.grid_h,
    {
        proof {
            lemma_cell_to_px(*self, self.gx_of_px(px as int), self.gy_of_py(py as int));
        }
        let gx = ((px - self.offset_x) as usize) / (self.block_size as usize);
        let gy = ((py - self.offset_y) as usize) / (self.block_size as usize);
        (gx as isize, gy as isize)
    }

    /// Whether some body segment occupies the grid cell `(cx, cy)`.
    #[verifier::loop_isolation(false)]
    fn body_hits_cell(&self, cx: isize, cy: isize) -> (r: bool)
        requires
            self.geometry_wf(),
            forall|j: int|
                0 <= j < self.body@.len() ==> self.aligned_in_grid(
                    (#[trigger] self.body@[j]).x as int,
                    self.body@[j].y as int,
                ),
        ensures
            r == (exists|k: int|
                0 <= k < self.body@.len() && self.gx_of_px(#[trigger] self.body@[k].x as int)
                    == cx as int && self.gy_of_py(self.body@[k].y as int) == cy as int),
    {
        let mut hit = false;
        let mut j: usize = 0;
        while j < self.body.len()
            invariant
                j <= self.body@.len(),
                hit == (exists|k: int|
                    0 <= k < j && self.gx_of_px(#[trigger] self.body@[k].x as int)
                        == cx as int && self.gy_of_py(self.body@[k].y as int) == cy as int),
            decreases self.body@.len() - j,
        {
            let b = self.body[j];
            proof {
                assert(self.aligned_in_grid(b.x as int, b.y as int));
            }
            let (bgx, bgy) = self.cell_of_pixel(b.x, b.y);
            if bgx == cx && bgy == cy {
                hit = true;
            }
            j = j + 1;
        }
        hit
    }

    /// Index of the first fruit on the grid cell `(cx, cy)`, if any.
    #[verifier::loop_isolation(false)]
    fn find_fruit_at(&self, cx: isize, cy: isize) -> (r: Option<usize>)
        ensures
            match r {
                Option::Some(i) => i < self.fruits@.len() && self.fruits@[i as int].x == cx
                    && self.fruits@[i as int].y == cy && (forall|k: int|
                    0 <= k < i ==> !((#[trigger] self.fruits@[k]).x == cx && self.fruits@[k].y
                        == cy)),
                Option::None => forall|k: int|
                    0 <= k < self.fruits@.len() ==> !((#[trigger] self.fruits@[k]).x == cx
                        && self.fruits@[k].y == cy),
            },
    {
        let mut fi: usize = 0;
        while fi < self.fruits.len()
            invariant
                fi <= self.fruits@.len(),
                forall|k: int|
                    0 <= k < fi ==> !((#[trigger] self.fruits@[k]).x == cx && self.fruits@[k].y
                        == cy),
            decreases self.fruits@.len() - fi,
        {
            let f = self.fruits[fi];
            if f.x == cx && f.y == cy {
                return Option::Some(fi);
            }
            fi = fi + 1;
        }
        Option::None
    }

    /// The cells the snake and the fruits occupy, in grid units: first
    /// the body segments, then the fruits.
    #[verifier::loop_isolation(false)]
    fn collect_occupied(&self) -> (r: Vec<Vec2>)
        requires
            self.geometry_wf(),
            forall|j: int|
                0 <= j < self.body@.len() ==> self.aligned_in_grid(
                    (#[trigger] self.body@[j]).x as int,
                    self.body@[j].y as int,
                ),
        ensures
            r@.len() == self.body@.len() + self.fruits@.len(),
            forall|k: int|
                0 <= k < self.body@.len() ==> #[trigger] r@[k] == (Vec2 {
                    x: self.gx_of_px(self.body@[k].x as int) as isize,
                    y: self.gy_of_py(self.body@[k].y as int) as isize,
                }),
            forall|k: int|
                0 <= k < self.fruits@.len() ==> #[trigger] r@[self.body@.len() + k]
                    == self.fruits@[k],
    {
        let mut occupied: Vec<Vec2> = Vec::new();
        let mut bi: usize = 0;
        while bi < self.body.len()
            invariant
                bi <= self.body@.len(),
                occupied@.len() == bi,
                forall|k: int|
                    0 <= k < bi ==> #[trigger] occupied@[k] == (Vec2 {
                        x: self.gx_of_px(self.body@[k].x as int) as isize,
                        y: self.gy_of_py(self.body@[k].y as int) as isize,
                    }),
            decreases self.body@.len() - bi,
        {
            let b = self.body[bi];
            proof {
                assert(self.aligned_in_grid(b.x as int, b.y as int));
            }
            let (bgx, bgy) = self.cell_of_pixel(b.x, b.y);
            occupied.push(Vec2 { x: bgx, y: bgy });
            bi = bi + 1;
        }
        let body_count = self.body.len();
        let mut fj: usize = 0;
        while fj < self.fruits.len()
            invariant
                fj <= self.fruits@.len(),
                occupied@.len() == body_count + fj,
                forall|k: int|
                    0 <= k < body_count ==> #[trigger] occupied@[k] == (Vec2 {
                        x: self.gx_of_px(self.body@[k].x as int) as isize,
                        y: self.gy_of_py(self.body@[k].y as int) as isize,
                    }),
                forall|k: int|
                    0 <= k < fj ==> #[trigger] occupied@[body_count + k] == self.fruits@[k],
            decreases self.fruits@.len() - fj,
        {
            let f = self.fruits[fj];
            occupied.push(f);
            fj = fj + 1;
        }
        occupied
    }

    /// The movement phase of one running tick: clamp the next head
    /// cell, detect death at the wall or against the trimmed body, trim
    /// and append. Returns the clamped head cell and the two death
    /// causes.
    #[verifier::rlimit(100)]
    fn step_move(&mut self) -> (r: (isize, isize, bool, bool))
        requires
            old(self).wf(),
            old(self).status is Running,
        ensures
            moved_from(*final(self), *old(self), r.2, r.3, r.0 as int, r.1 as int),
            r.2 == old(self).wall_death(),
            r.3 == old(self).self_collision(),
            !r.2 ==> r.0 as int == old(self).next_gx() && r.1 as int == old(self).next_gy(),
            r.2 ==> r.0 as int == old(self).head_gx() && r.1 as int == old(self).head_gy(),
    {
        let ghost pre = *old(self);
        let (hgx, hgy) = self.cell_of_pixel(self.head_x, self.head_y);
        let (nx, ny) = match self.direction {
            Direction::Up => (hgx, hgy - 1),
            Direction::Down => (hgx, hgy + 1),
            Direction::Left => (hgx - 1, hgy),
            Direction::Right => (hgx + 1, hgy),
        };
        proof {
            assert(nx as int == pre.next_gx());
            assert(ny as int == pre.next_gy());
        }
        let cx = if nx < 0 {
            0
        } else if nx > self.grid_w - 1 {
            self.grid_w - 1
        } else {
            nx
        };
        let cy = if ny < 0 {
            0
        } else if ny > self.grid_h - 1 {
            self.grid_h - 1
        } else {
            ny
        };
        let died_at_wall = cx != nx || cy != ny;
        proof {
            assert(died_at_wall == pre.wall_death());
            if died_at_wall {
                // moving out happens only from a boundary cell, so the
                // clamped position is the old head cell itself
                assert(cx == hgx && cy == hgy);
            }
        }
        let mut collision = false;
        if died_at_wall {
            self.status = GameStatus::Dead;
        } else {
            if self.body.len() >= self.length {
                self.body.remove(0);
            }
            proof {
                assert(self.body@ =~= pre.trimmed_body());
                lemma_trimmed_aligned(pre, *self);
            }
            collision = self.body_hits_cell(cx, cy);
            proof {
                // the hit test over this state is the covering test
                // over the old state's trimmed body
                if collision {
                    let k = choose|k: int|
                        0 <= k < self.body@.len() && self.gx_of_px(
                            #[trigger] self.body@[k].x as int,
                        ) == cx as int && self.gy_of_py(self.body@[k].y as int) == cy as int;
                    assert(pre.gx_of_px(pre.trimmed_body()[k].x as int) == cx as int
                        && pre.gy_of_py(pre.trimmed_body()[k].y as int) == cy as int);
                    assert(pre.trimmed_covers(cx as int, cy as int));
                }
                if pre.trimmed_covers(cx as int, cy as int) {
                    let k = choose|k: int|
                        0 <= k < pre.trimmed_body().len() && pre.gx_of_px(
                            pre.trimmed_body()[k].x as int,
                        ) == cx as int && pre.gy_of_py(pre.trimmed_body()[k].y as int)
                            == cy as int;
                    assert(self.gx_of_px(self.body@[k].x as int) == cx as int
                        && self.gy_of_py(self.body@[k].y as int) == cy as int);
                    assert(collision);
                }
                assert(collision == pre.self_collision());
            }
            if collision {
                self.status = GameStatus::Dead;
            }
            proof {
                lemma_cell_to_px(pre, cx as int, cy as int);
            }
            let px = cx * self.block_size + self.offset_x;
            let py = cy * self.block_size + self.offset_y;
            self.body.push(Vec2 { x: px, y: py });
            self.head_x = px;
            self.head_y = py;
        }
        (cx, cy, died_at_wall, collision)
    }

    /// Advances the simulation by exactly one tick. While dead, nothing
    /// changes. While running: the head advances one cell in the current
    /// direction and is clamped to the grid, and leaving the grid means
    /// death; otherwise the tail is trimmed first, landing on a cell the
    /// remaining body still occupies means death, and the new head is
    /// appended either way; a fruit on the head cell is then eaten,
    /// growing the target length by one; finally, while still running,
    /// one chance draw in twenty with fewer than two fruits present
    /// spawns a fruit on a free cell. Returns whether a fruit was eaten,
    /// so the platform can sound its cue.
    #[verifier::rlimit(100)]
    pub fn tick(&mut self, rng: &mut Rng) -> (ate: bool)
        requires
            old(self).wf(),
        ensures
            final(self).wf(),
            final(self).same_geometry(*old(self)),
            final(self).direction == old(self).direction,
            final(rng).source == old(rng).source,
            old(self).status is Dead ==> *final(self) == *old(self) && !ate && *final(rng)
                == *old(rng),
            old(self).status is Running ==> tick_rel(
                *old(self),
                *final(self),
                lcg_next(old(rng).state),
                ate,
            ),
    {
        if matches!(self.status, GameStatus::Dead) {
            return false;
        }
        let ghost pre = *old(self);
        let (cx, cy, died_at_wall, collision) = self.step_move();
        let ghost moved = *self;
        proof {
            lemma_move_facts(pre, moved, died_at_wall, collision, cx as int, cy as int);
        }

        // fruit consumption at the head cell, in grid units
        let hit = self.find_fruit_at(cx, cy);
        let mut ate = false;
        let mut found = false;
        let mut found_idx: usize = 0;
        match hit {
            Option::Some(i) => {
                found = true;
                found_idx = i;
            },
            Option::None => {},
        }
        proof {
            if (died_at_wall || collision) && found {
                // the head cell is still a body cell here, so no fruit
                // can be on it
                lemma_no_fruit_on_body_cell(pre, died_at_wall, cx, cy, found_idx as int);
                assert(false);
            }
        }
        if found {
            self.fruits.remove(found_idx);
            self.length = self.length + 1;
            ate = true;
            proof {
                let target = Vec2 { x: cx, y: cy };
                pre.fruits@.index_of_first_ensures(target);
                assert(pre.fruits@[found_idx as int] == target);
                assert(self.fruits@ == pre.fruits@.remove_value(target));
            }
        }
        let ghost eaten_fruits = self.fruits@;
        proof {
            lemma_eaten_facts(pre, eaten_fruits, found, found_idx as int, cx, cy);
        }
        // fruit spawn attempt: one chance draw per running tick
        let chance = rng.random_bool(5, 100);
        if chance {
            if self.fruits.len() < 2 && matches!(self.status, GameStatus::Running) {
                proof {
                    lemma_body_aligned_transfer(moved, *self);
                }
                let occupied = self.collect_occupied();
                let bc = self.body.len();
                proof {
                    lemma_occupied_facts(
                        pre,
                        moved,
                        occupied@,
                        moved.body@,
                        eaten_fruits,
                        bc as int,
                        cx,
                        cy,
                    );
                }
                let w = self.grid_w as usize;
                let h = self.grid_h as usize;
                let spawn_cell = rng.random_block(&occupied, w, h);
                if let Option::Some(c) = spawn_cell {
                    proof {
                        lemma_spawned_cell_free(*self, occupied@, bc as int, c);
                    }
                    let ghost before_push = *self;
                    self.fruits.push(c);
                    proof {
                        lemma_body_covers_transfer(before_push, *self, c.x as int, c.y as int);
                    }
                } else {
                    proof {
                        lemma_grid_full(*self, occupied@, bc as int);
                    }
                }
            }
        }
        proof {
            lemma_final_wf(
                pre,
                moved,
                *self,
                eaten_fruits,
                died_at_wall,
                collision,
                ate,
                cx,
                cy,
            );
            lemma_tick_rel(
                pre,
                moved,
                *self,
                eaten_fruits,
                died_at_wall,
                collision,
                ate,
                cx,
                cy,
                lcg_next(old(rng).state),
                chance,
            );
        }
        ate
    }

    /// Rasterizes the whole state into the buffer: black background,
    /// each fruit as a half-cell square centered in its cell, then every
    /// body segment as a full cell, tail first, colored by liveness with
    /// the head set apart.
    #[verifier::loop_isolation(false)]
    #[verifier::rlimit(100)]
    pub fn render(&self, buf: &mut Buffer)
        requires
            self.wf(),
            old(buf).wf(),
        ensures
            final(buf).wf(),
            final(buf).width == old(buf).width,
            final(buf).height == old(buf).height,
            final(buf).pixels@ == render_spec(
                *self,
                old(buf).width as int,
                old(buf).height as int,
            ),
    {
        let ghost bw = old(buf).width as int;
        let ghost bh = old(buf).height as int;
        buf.clear();
        proof {
            assert(buf.pixels@ =~= blank_canvas(bw, bh));
        }
        let quarter = ((self.block_size as usize) / 4) as isize;
        let half = ((self.block_size as usize) / 2) as isize;
        let mut i: usize = 0;
        while i < self.fruits.len()
            invariant
                i <= self.fruits@.len(),
                buf.wf(),
                buf.width == old(buf).width,
                buf.height == old(buf).height,
                buf.pixels@ == draw_fruits_spec(*self, bw, bh, i as int),
            decreases self.fruits@.len() - i,
        {
            let f = self.fruits[i];
            proof {
                lemma_cell_to_px(*self, f.x as int, f.y as int);
            }
            let px = f.x * self.block_size + self.offset_x + quarter;
            let py = f.y * self.block_size + self.offset_y + quarter;
            buf.rectangle(
                px as usize,
                py as usize,
                half as usize,
                half as usize,
                Rgb { r: 220, g: 30, b: 70 },
                true,
            );
            i = i + 1;
        }
        let dead = matches!(self.status, GameStatus::Dead);
        let mut j: usize = 0;
        while j < self.body.len()
            invariant
                j <= self.body@.len(),
                buf.wf(),
                buf.width == old(buf).width,
                buf.height == old(buf).height,
                buf.pixels@ == draw_body_spec(*self, bw, bh, j as int),
            decreases self.body@.len() - j,
        {
            let b = self.body[j];
            proof {
                assert(self.aligned_in_grid(b.x as int, b.y as int));
                lemma_aligned_bounds(*self, b.x as int, b.y as int);
            }
            let is_head = j + 1 == self.body.len();
            let color = segment_color_of(dead, is_head);
            buf.rectangle(
                b.x as usize,
                b.y as usize,
                self.block_size as usize,
                self.block_size as usize,
                color,
                true,
            );
            j = j + 1;
        }
    }

    /// The score shown to the player: fruits eaten so far.
    pub fn score(&self) -> (r: usize)
        requires
            self.wf(),
        ensures
            r == self.length - 1,
    {
        self.length - 1
    }
}


/// How a state just after a running tick's movement phase relates to
/// the state before it: geometry, length and fruits are untouched; on a
/// wall death everything stands still; otherwise the trimmed body plus
/// the new head at the clamped cell `(cx, cy)`.
pub open spec fn moved_from(
    moved: GameState,
    pre: GameState,
    died_at_wall: bool,
    collision: bool,
    cx: int,
    cy: int,
) -> bool {
    &&& moved.same_geometry(pre)
    &&& moved.length == pre.length
    &&& moved.fruits@ == pre.fruits@
    &&& moved.direction == pre.direction
    &&& 0 <= cx < pre.grid_w
    &&& 0 <= cy < pre.grid_h
    &&& (moved.status is Dead <==> died_at_wall || collision)
    &&& (died_at_wall ==> cx == pre.head_gx() && cy == pre.head_gy() && moved.body@
        == pre.body@ && moved.head_x == pre.head_x && moved.head_y == pre.head_y)
    &&& (!died_at_wall ==> moved.body@ == pre.trimmed_body().push(
        Vec2 { x: moved.head_x, y: moved.head_y },
    ) && moved.head_x as int == pre.px_of_gx(cx) && moved.head_y as int == pre.py_of_gy(cy)
        && (collision <==> pre.trimmed_covers(cx, cy)))
}

/// Structural facts about the snake right after the movement phase.
proof fn lemma_move_facts(
    pre: GameState,
    moved: GameState,
    died_at_wall: bool,
    collision: bool,
    cx: int,
    cy: int,
)
    requires
        pre.wf(),
        pre.status is Running,
        moved_from(moved, pre, died_at_wall, collision, cx, cy),
    ensures
        moved.head_gx() == cx,
        moved.head_gy() == cy,
        1 <= moved.body@.len() <= moved.length,
        moved.length <= moved.body@.len() + 1,
        forall|jj: int|
            0 <= jj < moved.body@.len() ==> moved.aligned_in_grid(
                (#[trigger] moved.body@[jj]).x as int,
                moved.body@[jj].y as int,
            ),
        moved.body@.last().x == moved.head_x,
        moved.body@.last().y == moved.head_y,
        !died_at_wall && !collision ==> moved.body@.no_duplicates(),
        !died_at_wall ==> pre.length <= moved.body@.len(),
{
    lemma_cell_to_px(pre, cx, cy);
    assert forall|jj: int| 0 <= jj < moved.body@.len() implies moved.aligned_in_grid(
        (#[trigger] moved.body@[jj]).x as int,
        moved.body@[jj].y as int,
    ) by {
        if died_at_wall {
            assert(moved.body@[jj] == pre.body@[jj]);
            assert(pre.aligned_in_grid(pre.body@[jj].x as int, pre.body@[jj].y as int));
            lemma_aligned_transfer(
                pre,
                moved,
                moved.body@[jj].x as int,
                moved.body@[jj].y as int,
            );
        } else {
            if jj < moved.body@.len() - 1 {
                if pre.body@.len() >= pre.length {
                    assert(moved.body@[jj] == pre.body@[jj + 1]);
                    assert(pre.aligned_in_grid(
                        pre.body@[jj + 1].x as int,
                        pre.body@[jj + 1].y as int,
                    ));
                } else {
                    assert(moved.body@[jj] == pre.body@[jj]);
                    assert(pre.aligned_in_grid(
                        pre.body@[jj].x as int,
                        pre.body@[jj].y as int,
                    ));
                }
            } else {
                assert(pre.aligned_in_grid(
                    moved.body@[jj].x as int,
                    moved.body@[jj].y as int,
                ));
            }
            lemma_aligned_transfer(
                pre,
                moved,
                moved.body@[jj].x as int,
                moved.body@[jj].y as int,
            );
        }
    }
    if !died_at_wall && !collision {
        // the trimmed part was duplicate-free, and the new head cell is
        // on none of its segments
        assert forall|a: int, b2: int|
            0 <= a < moved.body@.len() && 0 <= b2 < moved.body@.len() && a != b2 implies
            moved.body@[a] != moved.body@[b2] by {
            let last = moved.body@.len() - 1;
            let trim: int = if pre.body@.len() >= pre.length {
                1
            } else {
                0
            };
            if a < last && b2 < last {
                assert(moved.body@[a] == pre.body@[a + trim]);
                assert(moved.body@[b2] == pre.body@[b2 + trim]);
            } else {
                let k = if a < last {
                    a
                } else {
                    b2
                };
                if k < last && moved.body@[k] == moved.body@[last] {
                    // a trimmed segment equal to the new head would
                    // have been a collision
                    assert(pre.gx_of_px(pre.trimmed_body()[k].x as int) == cx
                        && pre.gy_of_py(pre.trimmed_body()[k].y as int) == cy);
                    assert(pre.trimmed_covers(cx, cy));
                    assert(false);
                }
            }
        }
    }
}

/// Facts about the fruit list after the consumption step: still
/// duplicate-free and in the grid, nothing left on the head cell, and
/// nothing on any cell of the old body.
proof fn lemma_eaten_facts(
    pre: GameState,
    eaten: Seq<Vec2>,
    found: bool,
    found_idx: int,
    cx: isize,
    cy: isize,
)
    requires
        pre.wf(),
        found ==> 0 <= found_idx < pre.fruits@.len() && pre.fruits@[found_idx].x == cx
            && pre.fruits@[found_idx].y == cy && eaten == pre.fruits@.remove(found_idx),
        !found ==> eaten == pre.fruits@ && (forall|k: int|
            0 <= k < pre.fruits@.len() ==> !((#[trigger] pre.fruits@[k]).x == cx
                && pre.fruits@[k].y == cy)),
    ensures
        eaten.no_duplicates(),
        eaten.len() == pre.fruits@.len() - (if found {
            1int
        } else {
            0int
        }),
        forall|k: int|
            0 <= k < eaten.len() ==> !((#[trigger] eaten[k]).x == cx && eaten[k].y == cy),
        forall|k: int|
            0 <= k < eaten.len() ==> !pre.body_covers_cell(
                (#[trigger] eaten[k]).x as int,
                eaten[k].y as int,
            ),
        forall|k: int|
            0 <= k < eaten.len() ==> 0 <= (#[trigger] eaten[k]).x < pre.grid_w && 0
                <= eaten[k].y < pre.grid_h,
{
    if found {
        pre.fruits@.remove_ensures(found_idx);
    }
    assert forall|k: int| 0 <= k < eaten.len() implies (exists|k0: int|
        0 <= k0 < pre.fruits@.len() && #[trigger] eaten[k] == pre.fruits@[k0] && (found ==> k0
            != found_idx)) by {
        if found {
            if k < found_idx {
                assert(eaten[k] == pre.fruits@[k]);
            } else {
                assert(eaten[k] == pre.fruits@[k + 1]);
            }
        } else {
            assert(eaten[k] == pre.fruits@[k]);
        }
    }
    assert forall|a: int, b2: int|
        0 <= a < eaten.len() && 0 <= b2 < eaten.len() && a != b2 implies eaten[a]
        != eaten[b2] by {
        if found {
            let fa: int = if a < found_idx {
                a
            } else {
                a + 1
            };
            let fb: int = if b2 < found_idx {
                b2
            } else {
                b2 + 1
            };
            assert(eaten[a] == pre.fruits@[fa]);
            assert(eaten[b2] == pre.fruits@[fb]);
        }
    }
    assert forall|k: int| 0 <= k < eaten.len() implies !((#[trigger] eaten[k]).x == cx
        && eaten[k].y == cy) by {
        if found {
            let fk: int = if k < found_idx {
                k
            } else {
                k + 1
            };
            assert(eaten[k] == pre.fruits@[fk]);
            if fk != found_idx && pre.fruits@[fk].x == cx && pre.fruits@[fk].y == cy {
                // a second fruit on the head cell would be a duplicate
                // of the one just removed
                assert(pre.fruits@[fk] == pre.fruits@[found_idx]);
                assert(false);
            }
        }
    }
    assert forall|k: int| 0 <= k < eaten.len() implies !pre.body_covers_cell(
        (#[trigger] eaten[k]).x as int,
        eaten[k].y as int,
    ) by {
        let k0 = choose|k0: int|
            0 <= k0 < pre.fruits@.len() && eaten[k] == pre.fruits@[k0] && (found ==> k0
                != found_idx);
        assert(!pre.body_covers_cell(pre.fruits@[k0].x as int, pre.fruits@[k0].y as int));
    }
    assert forall|k: int| 0 <= k < eaten.len() implies 0 <= (#[trigger] eaten[k]).x
        < pre.grid_w && 0 <= eaten[k].y < pre.grid_h by {
        let k0 = choose|k0: int|
            0 <= k0 < pre.fruits@.len() && eaten[k] == pre.fruits@[k0] && (found ==> k0
                != found_idx);
        assert(0 <= pre.fruits@[k0].x < pre.grid_w && 0 <= pre.fruits@[k0].y < pre.grid_h);
    }
}

/// The occupied-cell list handed to the spawn search is duplicate-free
/// and lies inside the grid.
proof fn lemma_occupied_facts(
    pre: GameState,
    moved: GameState,
    occupied: Seq<Vec2>,
    body: Seq<Vec2>,
    fruits: Seq<Vec2>,
    bc: int,
    cx: isize,
    cy: isize,
)
    requires
        pre.wf(),
        pre.status is Running,
        moved_from(moved, pre, false, false, cx as int, cy as int),
        body == moved.body@,
        bc == body.len(),
        occupied.len() == bc + fruits.len(),
        forall|k: int|
            0 <= k < bc ==> #[trigger] occupied[k] == (Vec2 {
                x: moved.gx_of_px(body[k].x as int) as isize,
                y: moved.gy_of_py(body[k].y as int) as isize,
            }),
        forall|k: int| 0 <= k < fruits.len() ==> #[trigger] occupied[bc + k] == fruits[k],
        fruits.no_duplicates(),
        forall|k: int|
            0 <= k < fruits.len() ==> !((#[trigger] fruits[k]).x == cx && fruits[k].y == cy),
        forall|k: int|
            0 <= k < fruits.len() ==> !pre.body_covers_cell(
                (#[trigger] fruits[k]).x as int,
                fruits[k].y as int,
            ),
        forall|k: int|
            0 <= k < fruits.len() ==> 0 <= (#[trigger] fruits[k]).x < pre.grid_w && 0
                <= fruits[k].y < pre.grid_h,
    ensures
        occupied.no_duplicates(),
        all_in_grid(occupied, pre.grid_w as int, pre.grid_h as int),
{
    lemma_move_facts(pre, moved, false, false, cx as int, cy as int);
    assert forall|a: int, b2: int|
        0 <= a < occupied.len() && 0 <= b2 < occupied.len() && a != b2 implies occupied[a]
        != occupied[b2] by {
        if a < bc && b2 < bc {
            if occupied[a] == occupied[b2] {
                assert(moved.aligned_in_grid(body[a].x as int, body[a].y as int));
                assert(moved.aligned_in_grid(body[b2].x as int, body[b2].y as int));
                assert(body[a] == body[b2]);
                assert(false);
            }
        } else if a >= bc && b2 >= bc {
            let ka = a - bc;
            let kb = b2 - bc;
            assert(occupied[bc + ka] == fruits[ka]);
            assert(occupied[bc + kb] == fruits[kb]);
        } else {
            let jb: int = if a < bc {
                a
            } else {
                b2
            };
            let jf: int = if a < bc {
                b2
            } else {
                a
            };
            let kf = jf - bc;
            assert(occupied[bc + kf] == fruits[kf]);
            if occupied[jb] == occupied[jf] {
                let f = fruits[kf];
                assert(moved.aligned_in_grid(body[jb].x as int, body[jb].y as int));
                if jb < body.len() - 1 {
                    // a fruit on an inherited segment contradicts the
                    // old disjointness
                    let trim: int = if pre.body@.len() >= pre.length {
                        1
                    } else {
                        0
                    };
                    assert(body[jb] == pre.body@[jb + trim]);
                    assert(pre.body_gx(jb + trim) == f.x as int && pre.body_gy(jb + trim)
                        == f.y as int);
                    assert(pre.body_covers_cell(f.x as int, f.y as int));
                    assert(false);
                } else {
                    // a fruit on the head cell was eaten before
                    assert(pre.gx_of_px(body[jb].x as int) == cx as int);
                    assert(f.x == cx && f.y == cy);
                    assert(false);
                }
            }
        }
    }
    assert forall|k: int| 0 <= k < occupied.len() implies 0 <= (#[trigger] occupied[k]).x
        < pre.grid_w && 0 <= occupied[k].y < pre.grid_h by {
        if k < bc {
            assert(moved.aligned_in_grid(body[k].x as int, body[k].y as int));
        } else {
            let kf = k - bc;
            assert(occupied[bc + kf] == fruits[kf]);
        }
    }
}



/// Every segment of a freshly trimmed body is still aligned in its own
/// state's terms.
proof fn lemma_trimmed_aligned(pre: GameState, s: GameState)
    requires
        pre.wf(),
        s.same_geometry(pre),
        s.body@ == pre.trimmed_body(),
    ensures
        forall|j: int|
            0 <= j < s.body@.len() ==> s.aligned_in_grid(
                (#[trigger] s.body@[j]).x as int,
                s.body@[j].y as int,
            ),
{
    assert forall|j: int| 0 <= j < s.body@.len() implies s.aligned_in_grid(
        (#[trigger] s.body@[j]).x as int,
        s.body@[j].y as int,
    ) by {
        if pre.body@.len() >= pre.length {
            assert(s.body@[j] == pre.body@[j + 1]);
            assert(pre.aligned_in_grid(pre.body@[j + 1].x as int, pre.body@[j + 1].y as int));
        } else {
            assert(s.body@[j] == pre.body@[j]);
            assert(pre.aligned_in_grid(pre.body@[j].x as int, pre.body@[j].y as int));
        }
        lemma_aligned_transfer(pre, s, s.body@[j].x as int, s.body@[j].y as int);
    }
}

/// Body alignment carries over between states with the same geometry
/// and the same body.
proof fn lemma_body_aligned_transfer(a: GameState, b: GameState)
    requires
        b.same_geometry(a),
        b.body@ == a.body@,
        forall|j: int|
            0 <= j < a.body@.len() ==> a.aligned_in_grid(
                (#[trigger] a.body@[j]).x as int,
                a.body@[j].y as int,
            ),
    ensures
        forall|j: int|
            0 <= j < b.body@.len() ==> b.aligned_in_grid(
                (#[trigger] b.body@[j]).x as int,
                b.body@[j].y as int,
            ),
{
    assert forall|j: int| 0 <= j < b.body@.len() implies b.aligned_in_grid(
        (#[trigger] b.body@[j]).x as int,
        b.body@[j].y as int,
    ) by {
        assert(b.body@[j] == a.body@[j]);
        assert(a.aligned_in_grid(a.body@[j].x as int, a.body@[j].y as int));
        lemma_aligned_transfer(a, b, b.body@[j].x as int, b.body@[j].y as int);
    }
}

/// A fruit cannot lie on the head cell when that cell is still a body
/// cell (the old head after a wall death, or a collision cell).
proof fn lemma_no_fruit_on_body_cell(
    pre: GameState,
    died_at_wall: bool,
    cx: isize,
    cy: isize,
    fidx: int,
)
    requires
        pre.wf(),
        0 <= fidx < pre.fruits@.len(),
        died_at_wall ==> cx as int == pre.head_gx() && cy as int == pre.head_gy(),
        !died_at_wall ==> pre.trimmed_covers(cx as int, cy as int),
    ensures
        !(pre.fruits@[fidx].x == cx && pre.fruits@[fidx].y == cy),
{
    if died_at_wall {
        let last = pre.body@.len() - 1;
        assert(pre.body_gx(last) == cx as int && pre.body_gy(last) == cy as int);
        assert(pre.body_covers_cell(cx as int, cy as int));
    } else {
        let k = choose|k: int|
            0 <= k < pre.trimmed_body().len() && pre.gx_of_px(pre.trimmed_body()[k].x as int)
                == cx as int && pre.gy_of_py(pre.trimmed_body()[k].y as int) == cy as int;
        let trim: int = if pre.body@.len() >= pre.length {
            1
        } else {
            0
        };
        assert(pre.trimmed_body()[k] == pre.body@[k + trim]);
        assert(pre.body_gx(k + trim) == cx as int && pre.body_gy(k + trim) == cy as int);
        assert(pre.body_covers_cell(cx as int, cy as int));
    }
    assert(!pre.body_covers_cell(pre.fruits@[fidx].x as int, pre.fruits@[fidx].y as int));
}

/// Whether the body occupies a cell depends only on the body and the
/// geometry.
proof fn lemma_body_covers_transfer(a: GameState, b: GameState, x: int, y: int)
    requires
        a.body@ == b.body@,
        b.same_geometry(a),
        !a.body_covers_cell(x, y),
    ensures
        !b.body_covers_cell(x, y),
{
    if b.body_covers_cell(x, y) {
        let j = choose|j: int|
            0 <= j < b.body@.len() && b.body_gx(j) == x && b.body_gy(j) == y;
        assert(a.body_gx(j) == b.body_gx(j));
        assert(a.body_gy(j) == b.body_gy(j));
        assert(a.body_covers_cell(x, y));
    }
}

/// A cell off every occupied entry is off every fruit and every body
/// cell.
proof fn lemma_spawned_cell_free(s: GameState, occupied: Seq<Vec2>, bc: int, c: Vec2)
    requires
        bc == s.body@.len(),
        occupied.len() == bc + s.fruits@.len(),
        forall|k: int|
            0 <= k < bc ==> #[trigger] occupied[k] == (Vec2 {
                x: s.gx_of_px(s.body@[k].x as int) as isize,
                y: s.gy_of_py(s.body@[k].y as int) as isize,
            }),
        forall|k: int| 0 <= k < s.fruits@.len() ==> #[trigger] occupied[bc + k] == s.fruits@[k],
        !covers(occupied, c.x as int, c.y as int),
    ensures
        !covers(s.fruits@, c.x as int, c.y as int),
        !s.body_covers_cell(c.x as int, c.y as int),
{
    if covers(s.fruits@, c.x as int, c.y as int) {
        let k = choose|k: int|
            0 <= k < s.fruits@.len() && s.fruits@[k].x == c.x as int && s.fruits@[k].y
                == c.y as int;
        assert(occupied[bc + k] == s.fruits@[k]);
        assert(covers(occupied, c.x as int, c.y as int));
    }

    if s.body_covers_cell(c.x as int, c.y as int) {
        let j = choose|j: int|
            0 <= j < s.body@.len() && s.body_gx(j) == c.x as int && s.body_gy(j) == c.y as int;
        assert(occupied[j].x == c.x && occupied[j].y == c.y);
        assert(covers(occupied, c.x as int, c.y as int));
    }
}

/// When the occupied entries cover the whole grid, every grid cell
/// holds a body segment or a fruit.
proof fn lemma_grid_full(s: GameState, occupied: Seq<Vec2>, bc: int)
    requires
        bc == s.body@.len(),
        occupied.len() == bc + s.fruits@.len(),
        forall|k: int|
            0 <= k < bc ==> #[trigger] occupied[k] == (Vec2 {
                x: s.gx_of_px(s.body@[k].x as int) as isize,
                y: s.gy_of_py(s.body@[k].y as int) as isize,
            }),
        forall|k: int|
            0 <= k < bc ==> 0 <= s.gx_of_px((#[trigger] s.body@[k]).x as int) < s.grid_w && 0
                <= s.gy_of_py(s.body@[k].y as int) < s.grid_h,
        forall|k: int| 0 <= k < s.fruits@.len() ==> #[trigger] occupied[bc + k] == s.fruits@[k],
        crate::rand::covers_grid(occupied, s.grid_w as int, s.grid_h as int),
    ensures
        s.grid_full_for(s.fruits@),
{
    assert forall|x: int, y: int| 0 <= x < s.grid_w && 0 <= y < s.grid_h implies (
    s.body_covers_cell(x, y) || covers(s.fruits@, x, y)) by {
        assert(covers(occupied, x, y));
        let i = choose|i: int|
            0 <= i < occupied.len() && occupied[i].x == x && occupied[i].y == y;
        if i < bc {
            assert(s.body_gx(i) == x && s.body_gy(i) == y);
            assert(s.body_covers_cell(x, y));
        } else {
            let kf = i - bc;
            assert(occupied[bc + kf] == s.fruits@[kf]);
            assert(covers(s.fruits@, x, y));
        }
    }
}


/// What one tick does to a running game, as a relation between the
/// state before (`pre`), the state after (`post`), the tick's first
/// pseudo-random draw (`draw`) and whether a fruit was eaten (`ate`).
/// Death is triggered exactly by leaving the grid or landing on a cell
/// of the trimmed body; a wall death freezes the snake where it stood;
/// otherwise the body loses at most its oldest segment and gains the
/// new head; a fruit on the new head cell is eaten exactly once,
/// growing the target length by one; and at most one new fruit appears,
/// only on a free cell, only while running, with fewer than two fruits
/// present, and only when the draw clears the spawn threshold.
pub open spec fn tick_rel(pre: GameState, post: GameState, draw: u64, ate: bool) -> bool {
    let draw_ok = below_threshold(draw, 5, 100);
    let eaten = (if ate {
        pre.fruits@.remove_value(Vec2 { x: pre.next_gx() as isize, y: pre.next_gy() as isize })
    } else {
        pre.fruits@
    });
    &&& (post.status is Dead <==> pre.wall_death() || pre.self_collision())
    &&& (pre.wall_death() ==> post.head_x == pre.head_x && post.head_y == pre.head_y
        && post.body@ == pre.body@ && post.length == pre.length && post.fruits@ == pre.fruits@
        && !ate)
    &&& (!pre.wall_death() ==> {
        &&& post.head_x == pre.px_of_gx(pre.next_gx())
        &&& post.head_y == pre.py_of_gy(pre.next_gy())
        &&& post.body@ == pre.trimmed_body().push(Vec2 { x: post.head_x, y: post.head_y })
        &&& post.body@.len() == (if pre.length <= pre.body@.len() {
            pre.length as int
        } else {
            pre.body@.len() as int + 1
        })
        &&& (ate <==> covers(pre.fruits@, pre.next_gx(), pre.next_gy()))
    })
    &&& post.length == pre.length + (if ate {
        1int
    } else {
        0int
    })
    &&& (post.fruits@ == eaten || (post.status is Running && draw_ok && eaten.len() < 2
        && post.fruits@ == eaten.push(post.fruits@.last()) && 0 <= post.fruits@.last().x
        < pre.grid_w && 0 <= post.fruits@.last().y < pre.grid_h && !covers(
        eaten,
        post.fruits@.last().x as int,
        post.fruits@.last().y as int,
    ) && !post.body_covers_cell(
        post.fruits@.last().x as int,
        post.fruits@.last().y as int,
    )))
    &&& (!(post.status is Running && draw_ok && eaten.len() < 2) ==> post.fruits@ == eaten)
    &&& ((post.status is Running && draw_ok && eaten.len() < 2 && !post.grid_full_for(eaten))
        ==> post.fruits@.len() == eaten.len() + 1)
}


/// Folds the individually established tick facts into the relation.
proof fn lemma_tick_rel_combine(pre: GameState, post: GameState, draw: u64, ate: bool)
    requires
        ({
            let draw_ok = below_threshold(draw, 5, 100);
            let eaten = (if ate {
                pre.fruits@.remove_value(
                    Vec2 { x: pre.next_gx() as isize, y: pre.next_gy() as isize },
                )
            } else {
                pre.fruits@
            });
            &&& (post.status is Dead <==> pre.wall_death() || pre.self_collision())
            &&& (pre.wall_death() ==> post.head_x == pre.head_x && post.head_y == pre.head_y
                && post.body@ == pre.body@ && post.length == pre.length && post.fruits@
                == pre.fruits@ && !ate)
            &&& (!pre.wall_death() ==> {
                &&& post.head_x == pre.px_of_gx(pre.next_gx())
                &&& post.head_y == pre.py_of_gy(pre.next_gy())
                &&& post.body@ == pre.trimmed_body().push(
                    Vec2 { x: post.head_x, y: post.head_y },
                )
                &&& post.body@.len() == (if pre.length <= pre.body@.len() {
                    pre.length as int
                } else {
                    pre.body@.len() as int + 1
                })
                &&& (ate <==> covers(pre.fruits@, pre.next_gx(), pre.next_gy()))
            })
            &&& post.length == pre.length + (if ate {
                1int
            } else {
                0int
            })
            &&& (post.fruits@ == eaten || (post.status is Running && draw_ok && eaten.len()
                < 2 && post.fruits@ == eaten.push(post.fruits@.last()) && 0
                <= post.fruits@.last().x < pre.grid_w && 0 <= post.fruits@.last().y
                < pre.grid_h && !covers(
                eaten,
                post.fruits@.last().x as int,
                post.fruits@.last().y as int,
            ) && !post.body_covers_cell(
                post.fruits@.last().x as int,
                post.fruits@.last().y as int,
            )))
            &&& (!(post.status is Running && draw_ok && eaten.len() < 2) ==> post.fruits@
                == eaten)
            &&& ((post.status is Running && draw_ok && eaten.len() < 2 && !post.grid_full_for(
                eaten,
            )) ==> post.fruits@.len() == eaten.len() + 1)
        }),
    ensures
        tick_rel(pre, post, draw, ate),
{
}

/// Assembles the tick relation from the facts the tick's phases leave
/// behind.
#[verifier::rlimit(100)]
proof fn lemma_tick_rel(
    pre: GameState,
    moved: GameState,
    post: GameState,
    eaten: Seq<Vec2>,
    died_at_wall: bool,
    collision: bool,
    ate: bool,
    cx: isize,
    cy: isize,
    draw: u64,
    chance: bool,
)
    requires
        pre.wf(),
        pre.status is Running,
        moved_from(moved, pre, died_at_wall, collision, cx as int, cy as int),
        died_at_wall == pre.wall_death(),
        collision == pre.self_collision(),
        !died_at_wall ==> cx as int == pre.next_gx() && cy as int == pre.next_gy(),
        died_at_wall ==> cx as int == pre.head_gx() && cy as int == pre.head_gy(),
        ate == covers(pre.fruits@, cx as int, cy as int),
        died_at_wall || collision ==> !ate,
        eaten == (if ate {
            pre.fruits@.remove_value(Vec2 { x: cx, y: cy })
        } else {
            pre.fruits@
        }),
        post.same_geometry(pre),
        post.body@ == moved.body@,
        post.head_x == moved.head_x,
        post.head_y == moved.head_y,
        post.status == moved.status,
        post.length == pre.length + (if ate {
            1int
        } else {
            0int
        }),
        chance == below_threshold(draw, 5, 100),
        !(chance && eaten.len() < 2 && moved.status is Running) ==> post.fruits@ == eaten,
        (chance && eaten.len() < 2 && moved.status is Running) ==> ((post.fruits@
            == eaten.push(post.fruits@.last()) && 0 <= post.fruits@.last().x < pre.grid_w && 0
            <= post.fruits@.last().y < pre.grid_h && !covers(
            eaten,
            post.fruits@.last().x as int,
            post.fruits@.last().y as int,
        ) && !post.body_covers_cell(
            post.fruits@.last().x as int,
            post.fruits@.last().y as int,
        )) || (post.fruits@ == eaten && post.grid_full_for(eaten))),
    ensures
        tick_rel(pre, post, draw, ate),
{
    if !died_at_wall {
        assert(Vec2 { x: cx, y: cy } == (Vec2 {
            x: pre.next_gx() as isize,
            y: pre.next_gy() as isize,
        }));
        assert(ate <==> covers(pre.fruits@, pre.next_gx(), pre.next_gy()));
    } else {
        assert(post.fruits@ == pre.fruits@ || !(chance && eaten.len() < 2 && moved.status
            is Running));
    }
    let draw_ok = below_threshold(draw, 5, 100);
    let eaten_spec = (if ate {
        pre.fruits@.remove_value(Vec2 { x: pre.next_gx() as isize, y: pre.next_gy() as isize })
    } else {
        pre.fruits@
    });
    assert(eaten_spec == eaten);
    assert(post.status is Dead <==> pre.wall_death() || pre.self_collision());
    assert(pre.wall_death() ==> post.head_x == pre.head_x && post.head_y == pre.head_y
        && post.body@ == pre.body@ && post.length == pre.length && post.fruits@ == pre.fruits@
        && !ate);
    assert(!pre.wall_death() ==> {
        &&& post.head_x == pre.px_of_gx(pre.next_gx())
        &&& post.head_y == pre.py_of_gy(pre.next_gy())
        &&& post.body@ == pre.trimmed_body().push(Vec2 { x: post.head_x, y: post.head_y })
        &&& post.body@.len() == (if pre.length <= pre.body@.len() {
            pre.length as int
        } else {
            pre.body@.len() as int + 1
        })
        &&& (ate <==> covers(pre.fruits@, pre.next_gx(), pre.next_gy()))
    });
    assert(post.length == pre.length + (if ate {
        1int
    } else {
        0int
    }));
    assert(post.fruits@ == eaten_spec || (post.status is Running && draw_ok
        && eaten_spec.len() < 2 && post.fruits@ == eaten_spec.push(post.fruits@.last()) && 0
        <= post.fruits@.last().x < pre.grid_w && 0 <= post.fruits@.last().y < pre.grid_h
        && !covers(eaten_spec, post.fruits@.last().x as int, post.fruits@.last().y as int)
        && !post.body_covers_cell(
        post.fruits@.last().x as int,
        post.fruits@.last().y as int,
    )));
    assert(!(post.status is Running && draw_ok && eaten_spec.len() < 2) ==> post.fruits@
        == eaten_spec);
    assert((post.status is Running && draw_ok && eaten_spec.len() < 2 && !post.grid_full_for(
        eaten_spec,
    )) ==> post.fruits@.len() == eaten_spec.len() + 1);
    lemma_tick_rel_combine(pre, post, draw, ate);
}

/// The state at the end of a running tick is well-formed.
proof fn lemma_final_wf(
    pre: GameState,
    moved: GameState,
    post: GameState,
    eaten: Seq<Vec2>,
    died_at_wall: bool,
    collision: bool,
    ate: bool,
    cx: isize,
    cy: isize,
)
    requires
        pre.wf(),
        pre.status is Running,
        moved_from(moved, pre, died_at_wall, collision, cx as int, cy as int),
        post.same_geometry(pre),
        post.body@ == moved.body@,
        post.head_x == moved.head_x,
        post.head_y == moved.head_y,
        post.status == moved.status,
        post.length == pre.length + (if ate {
            1int
        } else {
            0int
        }),
        ate ==> !died_at_wall && !collision,
        eaten.no_duplicates(),
        eaten.len() == pre.fruits@.len() - (if ate {
            1int
        } else {
            0int
        }),
        forall|k: int|
            0 <= k < eaten.len() ==> !((#[trigger] eaten[k]).x == cx && eaten[k].y == cy),
        forall|k: int|
            0 <= k < eaten.len() ==> !pre.body_covers_cell(
                (#[trigger] eaten[k]).x as int,
                eaten[k].y as int,
            ),
        forall|k: int|
            0 <= k < eaten.len() ==> 0 <= (#[trigger] eaten[k]).x < pre.grid_w && 0
                <= eaten[k].y < pre.grid_h,
        post.fruits@ == eaten || (eaten.len() < 2 && post.fruits@ == eaten.push(
            post.fruits@.last(),
        ) && 0 <= post.fruits@.last().x < pre.grid_w && 0 <= post.fruits@.last().y < pre.grid_h
            && !covers(eaten, post.fruits@.last().x as int, post.fruits@.last().y as int)
            && !post.body_covers_cell(
            post.fruits@.last().x as int,
            post.fruits@.last().y as int,
        )),
    ensures
        post.wf(),
{
    lemma_move_facts(pre, moved, died_at_wall, collision, cx as int, cy as int);
    assert(post.geometry_wf());
    assert(post.aligned_in_grid(post.head_x as int, post.head_y as int)) by {
        assert(moved.aligned_in_grid(
            moved.body@[moved.body@.len() - 1].x as int,
            moved.body@[moved.body@.len() - 1].y as int,
        ));
        lemma_aligned_transfer(moved, post, post.head_x as int, post.head_y as int);
    }
    assert forall|jj: int| 0 <= jj < post.body@.len() implies post.aligned_in_grid(
        (#[trigger] post.body@[jj]).x as int,
        post.body@[jj].y as int,
    ) by {
        assert(moved.aligned_in_grid(moved.body@[jj].x as int, moved.body@[jj].y as int));
        lemma_aligned_transfer(moved, post, post.body@[jj].x as int, post.body@[jj].y as int);
    }
    if ate {
        // a growing snake always fits: its cells are distinct and the
        // grid bounds how many there can be
        let cells = Seq::new(
            moved.body@.len(),
            |j: int|
                Vec2 {
                    x: pre.gx_of_px(moved.body@[j].x as int) as isize,
                    y: pre.gy_of_py(moved.body@[j].y as int) as isize,
                },
        );
        assert forall|a: int, b2: int|
            0 <= a < cells.len() && 0 <= b2 < cells.len() && a != b2 implies cells[a]
            != cells[b2] by {
            if cells[a] == cells[b2] {
                assert(moved.aligned_in_grid(
                    moved.body@[a].x as int,
                    moved.body@[a].y as int,
                ));
                assert(moved.aligned_in_grid(
                    moved.body@[b2].x as int,
                    moved.body@[b2].y as int,
                ));
                assert(moved.body@[a] == moved.body@[b2]);
            }
        }
        assert forall|k: int| 0 <= k < cells.len() implies 0 <= (#[trigger] cells[k]).x
            < pre.grid_w && 0 <= cells[k].y < pre.grid_h by {
            assert(moved.aligned_in_grid(moved.body@[k].x as int, moved.body@[k].y as int));
        }
        crate::rand::lemma_occupancy_bound(cells, pre.grid_w as int, pre.grid_h as int);
        assert(moved.body@.len() <= pre.grid_w * pre.grid_h);
    }
    // no fruit sits on any body cell
    assert forall|i: int| 0 <= i < post.fruits@.len() implies !post.body_covers_cell(
        (#[trigger] post.fruits@[i]).x as int,
        post.fruits@[i].y as int,
    ) by {
        let f = post.fruits@[i];
        if post.body_covers_cell(f.x as int, f.y as int) {
            let j = choose|j: int|
                0 <= j < post.body@.len() && post.body_gx(j) == f.x as int && post.body_gy(j)
                    == f.y as int;
            if i < eaten.len() {
                assert(f == eaten[i]);
                if died_at_wall {
                    assert(post.body@[j] == pre.body@[j]);
                    assert(pre.body_gx(j) == f.x as int && pre.body_gy(j) == f.y as int);
                    assert(pre.body_covers_cell(f.x as int, f.y as int));
                    assert(false);
                } else if j < post.body@.len() - 1 {
                    let trim: int = if pre.body@.len() >= pre.length {
                        1
                    } else {
                        0
                    };
                    assert(post.body@[j] == pre.body@[j + trim]);
                    assert(pre.body_gx(j + trim) == f.x as int && pre.body_gy(j + trim)
                        == f.y as int);
                    assert(pre.body_covers_cell(f.x as int, f.y as int));
                    assert(false);
                } else {
                    // the head cell: any fruit there was eaten
                    assert(post.body_gx(j) == cx as int && post.body_gy(j) == cy as int);
                    assert(f.x == cx && f.y == cy);
                    assert(false);
                }
            } else {
                // the freshly spawned fruit was drawn off every body cell
                assert(f == post.fruits@.last());
                assert(false);
            }
        }
    }
    // the fruit list itself stays small, distinct and in the grid
    if post.fruits@ != eaten {
        let c = post.fruits@.last();
        assert forall|a: int, b2: int|
            0 <= a < post.fruits@.len() && 0 <= b2 < post.fruits@.len() && a != b2 implies
            post.fruits@[a] != post.fruits@[b2] by {
            if a < eaten.len() && b2 < eaten.len() {
                assert(post.fruits@[a] == eaten[a]);
                assert(post.fruits@[b2] == eaten[b2]);
            } else {
                let k = if a < eaten.len() {
                    a
                } else {
                    b2
                };
                if k < eaten.len() && post.fruits@[k] == c {
                    assert(covers(eaten, c.x as int, c.y as int));
                    assert(false);
                }
            }
        }
        assert(all_in_grid(post.fruits@, post.grid_w as int, post.grid_h as int)) by {
            assert forall|k: int| 0 <= k < post.fruits@.len() implies 0 <= (
            #[trigger] post.fruits@[k]).x < post.grid_w && 0 <= post.fruits@[k].y
                < post.grid_h by {
                if k < eaten.len() {
                    assert(post.fruits@[k] == eaten[k]);
                }
            }
        }
    } else {
        assert(all_in_grid(post.fruits@, post.grid_w as int, post.grid_h as int)) by {
            assert forall|k: int| 0 <= k < post.fruits@.len() implies 0 <= (
            #[trigger] post.fruits@[k]).x < post.grid_w && 0 <= post.fruits@[k].y
                < post.grid_h by {
                assert(post.fruits@[k] == eaten[k]);
            }
        }
    }
    assert(post.wf());
}


/// Color of a fruit square.
pub open spec fn fruit_color() -> Rgb {
    Rgb { r: 220, g: 30, b: 70 }
}

/// Color of a body segment, by liveness and by whether it is the head.
pub open spec fn segment_color(dead: bool, head: bool) -> Rgb {
    if dead {
        if head {
            Rgb { r: 200, g: 0, b: 0 }
        } else {
            Rgb { r: 100, g: 0, b: 0 }
        }
    } else {
        if head {
            Rgb { r: 0, g: 200, b: 0 }
        } else {
            Rgb { r: 0, g: 100, b: 0 }
        }
    }
}

/// An all-black pixel buffer of the given dimensions.
pub open spec fn blank_canvas(bw: int, bh: int) -> Seq<Rgb> {
    Seq::new((bw * bh) as nat, |i: int| black())
}

/// The canvas after the first `n` fruits are drawn onto the blank
/// background: each fruit is a half-cell square centered in its cell.
pub open spec fn draw_fruits_spec(s: GameState, bw: int, bh: int, n: int) -> Seq<Rgb>
    decreases n,
{
    if n <= 0 {
        blank_canvas(bw, bh)
    } else {
        draw_rect_on(
            draw_fruits_spec(s, bw, bh, n - 1),
            bw,
            s.px_of_gx(s.fruits@[n - 1].x as int) + s.block_size / 4,
            s.py_of_gy(s.fruits@[n - 1].y as int) + s.block_size / 4,
            s.block_size / 2,
            s.block_size / 2,
            fruit_color(),
            true,
        )
    }
}

/// The canvas after the fruits and the first `n` body segments are
/// drawn, oldest first, each one cell large.
pub open spec fn draw_body_spec(s: GameState, bw: int, bh: int, n: int) -> Seq<Rgb>
    decreases n,
{
    if n <= 0 {
        draw_fruits_spec(s, bw, bh, s.fruits@.len() as int)
    } else {
        draw_rect_on(
            draw_body_spec(s, bw, bh, n - 1),
            bw,
            s.body@[n - 1].x as int,
            s.body@[n - 1].y as int,
            s.block_size as int,
            s.block_size as int,
            segment_color(s.status is Dead, n == s.body@.len()),
            true,
        )
    }
}

/// The full frame: black background, fruits, then the body.
pub open spec fn render_spec(s: GameState, bw: int, bh: int) -> Seq<Rgb> {
    draw_body_spec(s, bw, bh, s.body@.len() as int)
}

/// The executable color table for body segments.
pub fn segment_color_of(dead: bool, head: bool) -> (r: Rgb)
    ensures
        r == segment_color(dead, head),
{
    if dead {
        if head {
            Rgb { r: 200, g: 0, b: 0 }
        } else {
            Rgb { r: 100, g: 0, b: 0 }
        }
    } else {
        if head {
            Rgb { r: 0, g: 200, b: 0 }
        } else {
            Rgb { r: 0, g: 100, b: 0 }
        }
    }
}


/// The fresh state is unique per geometry: restarting after death
/// brings the game to exactly the state a fresh construction of the
/// same display gives — one centered segment, length one, heading
/// down, no fruit, running.
pub proof fn lemma_fresh_state_unique(a: GameState, b: GameState)
    requires
        a.is_fresh(),
        b.is_fresh(),
        a.same_geometry(b),
    ensures
        a.head_x == b.head_x,
        a.head_y == b.head_y,
        a.body@ == b.body@,
        a.length == b.length,
        a.fruits@ == b.fruits@,
        a.direction == b.direction,
        a.status == b.status,
{
    assert(a.body@ =~= b.body@);
    assert(a.fruits@ =~= b.fruits@);
}

/// Well-formedness carries over to a state that agrees on every field
/// that `wf` reads (the direction is free, and the status may only
/// move towards death).
pub proof fn lemma_wf_same_core(a: GameState, b: GameState)
    requires
        a.wf(),
        b.block_size == a.block_size,
        b.grid_w == a.grid_w,
        b.grid_h == a.grid_h,
        b.offset_x == a.offset_x,
        b.offset_y == a.offset_y,
        b.head_x == a.head_x,
        b.head_y == a.head_y,
        b.body@ == a.body@,
        b.length == a.length,
        b.fruits@ == a.fruits@,
        b.status is Running ==> a.status is Running,
    ensures
        b.wf(),
{
    assert forall|j: int| 0 <= j < b.body@.len() implies b.aligned_in_grid(
        (#[trigger] b.body@[j]).x as int,
        b.body@[j].y as int,
    ) by {
        assert(a.aligned_in_grid(a.body@[j].x as int, a.body@[j].y as int));
    }
    assert forall|i: int| 0 <= i < b.fruits@.len() implies !b.body_covers_cell(
        (#[trigger] b.fruits@[i]).x as int,
        b.fruits@[i].y as int,
    ) by {
        if b.body_covers_cell(b.fruits@[i].x as int, b.fruits@[i].y as int) {
            let j = choose|j: int|
                0 <= j < b.body@.len() && b.body_gx(j) == b.fruits@[i].x as int && b.body_gy(j)
                    == b.fruits@[i].y as int;
            assert(a.body_gx(j) == b.body_gx(j));
            assert(a.body_gy(j) == b.body_gy(j));
            assert(a.body_covers_cell(a.fruits@[i].x as int, a.fruits@[i].y as int));
        }
    }
}

/// Converting an in-grid cell to pixels and back is the identity, and
/// the pixel coordinates of in-grid cells stay inside safe bounds.
pub proof fn lemma_cell_to_px(s: GameState, gx: int, gy: int)
    requires
        s.geometry_wf(),
        0 <= gx < s.grid_w,
        0 <= gy < s.grid_h,
    ensures
        s.gx_of_px(s.px_of_gx(gx)) == gx,
        s.gy_of_py(s.py_of_gy(gy)) == gy,
        0 <= gx * s.block_size,
        gx * s.block_size + s.block_size <= s.grid_w * s.block_size,
        0 <= gy * s.block_size,
        gy * s.block_size + s.block_size <= s.grid_h * s.block_size,
        s.aligned_in_grid(s.px_of_gx(gx), s.py_of_gy(gy)),
{
    let bs = s.block_size as int;
    vstd::arithmetic::mul::lemma_mul_is_commutative(gx, bs);
    vstd::arithmetic::mul::lemma_mul_is_commutative(gy, bs);
    vstd::arithmetic::div_mod::lemma_div_multiples_vanish(gx, bs);
    vstd::arithmetic::div_mod::lemma_div_multiples_vanish(gy, bs);
    assert(0 <= gx * bs && gx * bs + bs <= s.grid_w * bs) by (nonlinear_arith)
        requires
            0 <= gx,
            gx < s.grid_w,
            bs >= 1,
    ;
    assert(0 <= gy * bs && gy * bs + bs <= s.grid_h * bs) by (nonlinear_arith)
        requires
            0 <= gy,
            gy < s.grid_h,
            bs >= 1,
    ;
}

/// Pixel coordinates of aligned in-grid positions are non-negative and
/// stay, with one block of slack, inside safe bounds.
pub proof fn lemma_aligned_bounds(s: GameState, px: int, py: int)
    requires
        s.geometry_wf(),
        s.aligned_in_grid(px, py),
    ensures
        0 <= px,
        px + s.block_size <= 0x20000,
        0 <= py,
        py + s.block_size <= 0x20000,
{
    lemma_cell_to_px(s, s.gx_of_px(px), s.gy_of_py(py));
}

/// Alignment depends on the geometry alone, so it carries over to any
/// state with the same geometry.
pub proof fn lemma_aligned_transfer(a: GameState, b: GameState, px: int, py: int)
    requires
        a.aligned_in_grid(px, py),
        b.same_geometry(a),
    ensures
        b.aligned_in_grid(px, py),
{
}

} // verus!
