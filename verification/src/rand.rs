//! Deterministic pseudo-random generator: a 64-bit linear-congruential
//! recurrence, with integer-range draws, probability draws by a rational
//! threshold, and a free-grid-cell query used for fruit spawning.

use vstd::prelude::*;

verus! {

use crate::Vec2;

/// Multiplier of the linear-congruential recurrence.
pub const LCG_MULTIPLIER: u64 = 6364136223846793005;

/// Increment of the linear-congruential recurrence.
pub const LCG_INCREMENT: u64 = 1442695040888963407;

/// Seed used when the platform offers no entropy source.
pub const FALLBACK_SEED: u64 = 12345678901234567;

/// Where the generator's seed came from. A fixed fallback seed gives a
/// non-random spawn sequence, and callers may want to know that.
#[derive(Clone, Copy, Debug, PartialEq, Eq, Structural)]
pub enum SeedSource {
    /// The seed was drawn from a platform entropy source.
    Entropy,
    /// No entropy was available; the fixed fallback seed is in use.
    Fallback,
}

/// One step of the linear-congruential recurrence, modulo 2^64.
pub open spec fn lcg_next(s: u64) -> u64 {
    (((LCG_MULTIPLIER * s) + LCG_INCREMENT) % 0x1_0000_0000_0000_0000) as u64
}

/// A draw scaled into `[min, max)`: `min + floor(draw * (max - min) / 2^64)`.
pub open spec fn scaled_to_range(draw: u64, min: int, max: int) -> int {
    min + (draw * (max - min)) / 0x1_0000_0000_0000_0000
}

/// Whether a draw, read as the fraction `draw / 2^64`, falls at or below
/// the threshold `num / den`.
pub open spec fn below_threshold(draw: u64, num: u64, den: u64) -> bool {
    draw * den <= num * 0x1_0000_0000_0000_0000
}

/// Some entry of `cells` holds the grid cell `(x, y)`.
pub open spec fn covers(cells: Seq<Vec2>, x: int, y: int) -> bool {
    exists|i: int| 0 <= i < cells.len() && cells[i].x == x && cells[i].y == y
}

/// Every cell of the `w` by `h` grid appears in `cells`.
pub open spec fn covers_grid(cells: Seq<Vec2>, w: int, h: int) -> bool {
    forall|x: int, y: int| 0 <= x < w && 0 <= y < h ==> covers(cells, x, y)
}

/// All entries of `cells` lie inside the `w` by `h` grid.
pub open spec fn all_in_grid(cells: Seq<Vec2>, w: int, h: int) -> bool {
    forall|i: int|
        0 <= i < cells.len() ==> 0 <= #[trigger] cells[i].x < w && 0 <= cells[i].y < h
}

/// Reports whether `cells` holds the cell `(x, y)`.
pub fn contains_cell(cells: &Vec<Vec2>, x: isize, y: isize) -> (r: bool)
    ensures
        r == covers(cells@, x as int, y as int),
{
    let mut i: usize = 0;
    while i < cells.len()
        invariant
            i <= cells@.len(),
            forall|j: int| 0 <= j < i ==> !(#[trigger] cells@[j].x == x && cells@[j].y == y),
        decreases cells@.len() - i,
    {
        if cells[i].x == x && cells[i].y == y {
            return true;
        }
        i = i + 1;
    }
    false
}

/// A duplicate-free family of in-grid cells with at least `w * h`
/// members covers every cell of the `w` by `h` grid.
pub proof fn lemma_full_occupancy(cells: Seq<Vec2>, w: int, h: int)
    requires
        0 <= w,
        0 <= h,
        cells.no_duplicates(),
        all_in_grid(cells, w, h),
        cells.len() >= w * h,
    ensures
        covers_grid(cells, w, h),
{
    let f = |p: Vec2| (p.y as int) * w + (p.x as int);
    let idx = cells.map_values(f);
    assert(idx.no_duplicates()) by {
        assert forall|i: int, j: int|
            0 <= i < idx.len() && 0 <= j < idx.len() && i != j implies idx[i] != idx[j] by {
            if idx[i] == idx[j] {
                crate::lemma_row_major_injective(
                    w,
                    cells[i].x as int,
                    cells[i].y as int,
                    cells[j].x as int,
                    cells[j].y as int,
                );
            }
        }
    }
    idx.unique_seq_to_set();
    let range = vstd::set_lib::set_int_range(0, w * h);
    vstd::set_lib::lemma_int_range(0, w * h);
    assert(idx.to_set().subset_of(range)) by {
        assert forall|a: int| idx.to_set().contains(a) implies range.contains(a) by {
            let i = choose|i: int| 0 <= i < idx.len() && idx[i] == a;
            crate::lemma_row_major_in_range(w, h, cells[i].x as int, cells[i].y as int);
        }
    }
    vstd::set_lib::lemma_len_subset(idx.to_set(), range);
    assert(idx.to_set().len() == range.len());
    vstd::set_lib::lemma_subset_equality(idx.to_set(), range);
    assert forall|x: int, y: int| 0 <= x < w && 0 <= y < h implies covers(cells, x, y) by {
        let a = y * w + x;
        crate::lemma_row_major_in_range(w, h, x, y);
        assert(range.contains(a));
        assert(idx.to_set().contains(a));
        let i = choose|i: int| 0 <= i < idx.len() && idx[i] == a;
        crate::lemma_row_major_injective(w, cells[i].x as int, cells[i].y as int, x, y);
        assert(cells[i].x == x && cells[i].y == y);
    }
}

/// A duplicate-free family of in-grid cells has at most `w * h` members.
pub proof fn lemma_occupancy_bound(cells: Seq<Vec2>, w: int, h: int)
    requires
        0 <= w,
        0 <= h,
        cells.no_duplicates(),
        all_in_grid(cells, w, h),
    ensures
        cells.len() <= w * h,
{
    let f = |p: Vec2| (p.y as int) * w + (p.x as int);
    let idx = cells.map_values(f);
    assert(idx.no_duplicates()) by {
        assert forall|i: int, j: int|
            0 <= i < idx.len() && 0 <= j < idx.len() && i != j implies idx[i] != idx[j] by {
            if idx[i] == idx[j] {
                crate::lemma_row_major_injective(
                    w,
                    cells[i].x as int,
                    cells[i].y as int,
                    cells[j].x as int,
                    cells[j].y as int,
                );
            }
        }
    }
    idx.unique_seq_to_set();
    let range = vstd::set_lib::set_int_range(0, w * h);
    vstd::set_lib::lemma_int_range(0, w * h);
    assert(idx.to_set().subset_of(range)) by {
        assert forall|a: int| idx.to_set().contains(a) implies range.contains(a) by {
            let i = choose|i: int| 0 <= i < idx.len() && idx[i] == a;
            crate::lemma_row_major_in_range(w, h, cells[i].x as int, cells[i].y as int);
        }
    }
    vstd::set_lib::lemma_len_subset(idx.to_set(), range);
}

/// The seeded pseudo-random generator.
pub struct Rng {
    /// Current state of the recurrence; each draw replaces it.
    pub state: u64,
    /// Whether `state` was seeded from entropy or from the fixed fallback.
    pub source: SeedSource,
}

impl Rng {
    /// Creates a generator. The caller passes the bytes it got from the
    /// platform entropy source, or `None` when none was available; absence
    /// is tolerated by falling back to a fixed, observable seed.
    pub fn new(entropy: Option<u64>) -> (r: Rng)
        ensures
            match entropy {
                Option::Some(seed) => r.state == seed && r.source is Entropy,
                Option::None => r.state == FALLBACK_SEED && r.source is Fallback,
            },
    {
        match entropy {
            Option::Some(seed) => Rng { state: seed, source: SeedSource::Entropy },
            Option::None => Rng { state: FALLBACK_SEED, source: SeedSource::Fallback },
        }
    }

    /// Advances the recurrence once and returns the new state.
    pub fn next_raw(&mut self) -> (r: u64)
        ensures
            r == lcg_next(old(self).state),
            final(self).state == r,
            final(self).source == old(self).source,
    {
        proof {
            vstd::arithmetic::mul::lemma_mul_upper_bound(
                LCG_MULTIPLIER as int,
                0xffff_ffff_ffff_ffff,
                self.state as int,
                0xffff_ffff_ffff_ffff,
            );
        }
        let wide: u128 = (LCG_MULTIPLIER as u128) * (self.state as u128) + (LCG_INCREMENT
            as u128);
        let next: u64 = (wide % 0x1_0000_0000_0000_0000u128) as u64;
        self.state = next;
        next
    }

    /// Draws an integer in `[min, max)` by scaling one draw of the
    /// recurrence into the range.
    pub fn random_range(&mut self, min: i64, max: i64) -> (r: i64)
        requires
            min < max,
        ensures
            r == scaled_to_range(lcg_next(old(self).state), min as int, max as int),
            min <= r < max,
            final(self).state == lcg_next(old(self).state),
            final(self).source == old(self).source,
    {
        let draw = self.next_raw();
        let range: u128 = (max as i128 - min as i128) as u128;
        proof {
            vstd::arithmetic::mul::lemma_mul_upper_bound(
                draw as int,
                0xffff_ffff_ffff_ffff,
                range as int,
                0xffff_ffff_ffff_ffff,
            );
        }
        let offset: u128 = ((draw as u128) * range) / 0x1_0000_0000_0000_0000u128;
        proof {
            assert((draw as int) * (range as int) < 0x1_0000_0000_0000_0000 * (range as int))
                by (nonlinear_arith)
                requires
                    (draw as int) < 0x1_0000_0000_0000_0000,
                    (range as int) > 0,
            ;
            assert((draw as int) * (range as int) / 0x1_0000_0000_0000_0000 < range as int) by {
                vstd::arithmetic::div_mod::lemma_multiply_divide_lt(
                    (draw as int) * (range as int),
                    0x1_0000_0000_0000_0000,
                    range as int,
                );
            }
        }
        let r: i64 = ((min as i128) + (offset as i128)) as i64;
        r
    }

    /// Draws a boolean that is true when the draw, read as a fraction of
    /// 2^64, falls at or below `num / den`.
    pub fn random_bool(&mut self, num: u64, den: u64) -> (r: bool)
        requires
            den >= 1,
        ensures
            r == below_threshold(lcg_next(old(self).state), num, den),
            final(self).state == lcg_next(old(self).state),
            final(self).source == old(self).source,
    {
        let draw = self.next_raw();
        proof {
            vstd::arithmetic::mul::lemma_mul_upper_bound(
                draw as int,
                0xffff_ffff_ffff_ffff,
                den as int,
                0xffff_ffff_ffff_ffff,
            );
        }
        (draw as u128) * (den as u128) <= (num as u128) * 0x1_0000_0000_0000_0000u128
    }

    /// Looks for a grid cell that is not in `blocks`: up to 100 uniform
    /// draws, then a deterministic row-major scan. Returns `None` exactly
    /// when `blocks` covers the whole `w` by `h` grid.
    pub fn random_block(&mut self, blocks: &Vec<Vec2>, w: usize, h: usize) -> (r: Option<
        Vec2,
    >)
        requires
            blocks@.no_duplicates(),
            all_in_grid(blocks@, w as int, h as int),
            w * h <= 0x7fff_ffff,
        ensures
            final(self).source == old(self).source,
            match r {
                Option::Some(c) => 0 <= c.x < w && 0 <= c.y < h && !covers(
                    blocks@,
                    c.x as int,
                    c.y as int,
                ),
                Option::None => covers_grid(blocks@, w as int, h as int),
            },
    {
        if blocks.len() >= w * h {
            proof {
                lemma_full_occupancy(blocks@, w as int, h as int);
            }
            return None;
        }
        proof {
            assert(w * h >= 1);
            assert(w <= w * h && h <= w * h) by (nonlinear_arith)
                requires
                    w >= 1,
                    h >= 1,
            ;
        }
        let mut attempt: usize = 0;
        while attempt < 100
            invariant
                1 <= w,
                1 <= h,
                w * h <= 0x7fff_ffff,
                w <= 0x7fff_ffff,
                h <= 0x7fff_ffff,
                self.source == old(self).source,
            decreases 100 - attempt,
        {
            let x = self.random_range(0, w as i64);
            let y = self.random_range(0, h as i64);
            if !contains_cell(blocks, x as isize, y as isize) {
                return Some(Vec2 { x: x as isize, y: y as isize });
            }
            attempt = attempt + 1;
        }
        let mut y: usize = 0;
        while y < h
            invariant
                1 <= w <= 0x7fff_ffff,
                1 <= h <= 0x7fff_ffff,
                self.source == old(self).source,
                y <= h,
                forall|yy: int, xx: int|
                    0 <= yy < y && 0 <= xx < w ==> covers(blocks@, xx, yy),
            decreases h - y,
        {
            let mut x: usize = 0;
            while x < w
                invariant
                    1 <= w <= 0x7fff_ffff,
                    1 <= h <= 0x7fff_ffff,
                    self.source == old(self).source,
                    y < h,
                    x <= w,
                    forall|yy: int, xx: int|
                        0 <= yy < y && 0 <= xx < w ==> covers(blocks@, xx, yy),
                    forall|xx: int| 0 <= xx < x ==> covers(blocks@, xx, y as int),
                decreases w - x,
            {
                if !contains_cell(blocks, x as isize, y as isize) {
                    return Some(Vec2 { x: x as isize, y: y as isize });
                }
                x = x + 1;
            }
            y = y + 1;
        }
        None
    }
}

} // verus!
