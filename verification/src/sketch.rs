//! Count-Min Sketch: a fixed-size frequency estimator with `u8` saturating
//! counters and periodic halving ("aging").
//!
//! The sketch has `SKETCH_DEPTH` rows of `width` counters each. A key picks one
//! column per row, from a seeded hash of the key. An increment bumps the
//! chosen counter of every row; the estimate is the smallest of them. After
//! every `sample_window` increments all counters are halved.

use vstd::prelude::*;
use core::hash::Hash;
use crate::hashing::hash_with_seed;

verus! {

/// Number of independent hash rows.
pub const SKETCH_DEPTH: usize = 4;

/// The sketch is never narrower than this.
pub const MIN_SKETCH_WIDTH: usize = 64;

/// Position of the counter of row `d`, column `col`.
pub open spec fn cell(width: nat, d: int, col: usize) -> int {
    d * width + col
}

/// `cols` names one column, below `width`, for each row.
pub open spec fn valid_cols(cols: Seq<usize>, width: nat) -> bool {
    &&& cols.len() == SKETCH_DEPTH
    &&& forall|d: int| 0 <= d < SKETCH_DEPTH ==> #[trigger] cols[d] < width
}

/// The smaller of two counters.
pub open spec fn min_u8(a: u8, b: u8) -> u8 {
    if b < a {
        b
    } else {
        a
    }
}

/// Smallest counter among the first `n` rows at the given columns, starting
/// from `u8::MAX`.
pub open spec fn min_rows(counters: Seq<u8>, width: nat, cols: Seq<usize>, n: int) -> u8
    decreases n,
{
    if n <= 0 {
        u8::MAX
    } else {
        min_u8(min_rows(counters, width, cols, n - 1), counters[cell(width, n - 1, cols[n - 1])])
    }
}

/// The estimate for a key with columns `cols`.
pub open spec fn estimate_spec(counters: Seq<u8>, width: nat, cols: Seq<usize>) -> u8 {
    min_rows(counters, width, cols, SKETCH_DEPTH as int)
}

/// Counter after one more observation (saturating at `u8::MAX`).
pub open spec fn sat_inc(c: u8) -> u8 {
    if c == u8::MAX {
        c
    } else {
        (c + 1) as u8
    }
}

/// Position `i` is the cell of one of the first `n` rows at the given columns.
pub open spec fn is_key_cell(width: nat, cols: Seq<usize>, i: int, n: int) -> bool {
    exists|d: int| 0 <= d < n && i == #[trigger] cell(width, d, cols[d])
}

/// Counters after bumping the cell of each of the first `n` rows at the given
/// columns.
pub open spec fn bumped_rows(counters: Seq<u8>, width: nat, cols: Seq<usize>, n: int) -> Seq<u8> {
    Seq::new(
        counters.len(),
        |i: int|
            if is_key_cell(width, cols, i, n) {
                sat_inc(counters[i])
            } else {
                counters[i]
            },
    )
}

/// Counters after bumping the cell of every row at the given columns.
pub open spec fn bumped(counters: Seq<u8>, width: nat, cols: Seq<usize>) -> Seq<u8> {
    bumped_rows(counters, width, cols, SKETCH_DEPTH as int)
}

/// Cells of different rows are different.
proof fn lemma_cells_distinct(width: nat, d1: int, c1: usize, d2: int, c2: usize)
    requires
        c1 < width,
        c2 < width,
        0 <= d1,
        0 <= d2,
        d1 != d2,
    ensures
        cell(width, d1, c1) != cell(width, d2, c2),
{
    if d1 < d2 {
        assert(d1 * width + c1 < d2 * width) by (nonlinear_arith)
            requires
                d1 < d2,
                c1 < width,
                0 <= d1,
        ;
    } else {
        assert(d2 * width + c2 < d1 * width) by (nonlinear_arith)
            requires
                d2 < d1,
                c2 < width,
                0 <= d2,
        ;
    }
}

/// Counters after halving every one.
pub open spec fn halved(counters: Seq<u8>) -> Seq<u8> {
    Seq::new(counters.len(), |i: int| (counters[i] / 2) as u8)
}

/// The frequency estimator.
pub struct CountMinSketch {
    counters: Vec<u8>,
    width: usize,
    width_u64: u64,
    samples: u64,
    sample_window: u64,
}

/// Smallest power of two at least `x`.
fn next_power_of_two(x: usize) -> (r: usize)
    requires
        x <= usize::MAX / 2 + 1,
    ensures
        r >= x,
        r >= 1,
        r == 1 || r / 2 < x,
        crate::sharding::is_pow2(r as nat),
{
    let mut p: usize = 1;
    while p < x
        invariant
            p >= 1,
            p == 1 || p / 2 < x,
            x <= usize::MAX / 2 + 1,
            crate::sharding::is_pow2(p as nat),
        decreases usize::MAX - p,
    {
        proof {
            assert((p * 2) / 2 == p);
            assert(crate::sharding::is_pow2((p * 2) as nat)) by {
                reveal_with_fuel(crate::sharding::is_pow2, 2);
            }
        }
        p = p * 2;
    }
    p
}

impl CountMinSketch {
    /// Counters, row after row.
    pub closed spec fn counters(&self) -> Seq<u8> {
        self.counters@
    }

    /// Counters per row.
    pub closed spec fn width(&self) -> nat {
        self.width as nat
    }

    /// Increments since the last halving.
    pub closed spec fn samples(&self) -> u64 {
        self.samples
    }

    /// Increments between two halvings.
    pub closed spec fn window(&self) -> u64 {
        self.sample_window
    }

    /// Well-formed: `SKETCH_DEPTH` rows of a power-of-two width at least
    /// `MIN_SKETCH_WIDTH`, and fewer samples than the window.
    pub closed spec fn wf(&self) -> bool {
        &&& self.width >= MIN_SKETCH_WIDTH
        &&& self.width <= usize::MAX / SKETCH_DEPTH
        &&& crate::sharding::is_pow2(self.width as nat)
        &&& self.width_u64 == self.width
        &&& self.counters@.len() == self.width * SKETCH_DEPTH
        &&& self.sample_window >= 1
        &&& self.samples < self.sample_window
    }

    /// Shape of a sketch for a cache of `capacity` entries: width
    /// `max(2 * capacity, 64)` rounded up to a power of two, a halving every
    /// `10 * capacity` increments (saturating).
    pub open spec fn sized_for(&self, capacity: nat) -> bool {
        &&& crate::sharding::is_pow2(self.width())
        &&& self.width() >= MIN_SKETCH_WIDTH
        &&& self.width() >= 2 * capacity
        &&& self.width() / 2 < (if 2 * capacity > MIN_SKETCH_WIDTH {
            2 * capacity as int
        } else {
            MIN_SKETCH_WIDTH as int
        })
        &&& self.counters().len() == SKETCH_DEPTH * self.width()
        &&& self.window() == (if 10 * capacity > u64::MAX {
            u64::MAX as int
        } else {
            10 * capacity as int
        })
    }

    /// No observation recorded: every counter and the sample count are zero.
    pub open spec fn is_zeroed(&self) -> bool {
        &&& self.samples() == 0
        &&& forall|i: int| 0 <= i < self.counters().len() ==> #[trigger] self.counters()[i] == 0
    }

    /// A sketch sized for a cache of `capacity` entries, with no observation
    /// recorded.
    pub fn new(capacity: usize) -> (r: Self)
        requires
            1 <= capacity <= usize::MAX / 16,
        ensures
            r.wf(),
            r.sized_for(capacity as nat),
            r.is_zeroed(),
    {
        let doubled = capacity * 2;
        let at_least = if doubled > MIN_SKETCH_WIDTH {
            doubled
        } else {
            MIN_SKETCH_WIDTH
        };
        let width = next_power_of_two(at_least);
        let cap64 = capacity as u64;
        let scaled = match cap64.checked_mul(10) {
            Some(s) => s,
            None => u64::MAX,
        };
        let sample_window = scaled;
        assert(width <= usize::MAX / 4);
        let counters = vec![0u8; width * SKETCH_DEPTH];
        CountMinSketch { counters, width, width_u64: width as u64, samples: 0, sample_window }
    }

    /// Row-by-row columns of `key`: column `d` comes from the hash of `key`
    /// under seed `d`.
    pub fn columns<K: Hash>(&self, key: &K) -> (r: Vec<usize>)
        requires
            self.wf(),
        ensures
            valid_cols(r@, self.width()),
    {
        let mut cols: Vec<usize> = Vec::new();
        let mut d: usize = 0;
        while d < SKETCH_DEPTH
            invariant
                self.wf(),
                d <= SKETCH_DEPTH,
                cols@.len() == d,
                forall|j: int| 0 <= j < d ==> #[trigger] cols@[j] < self.width(),
            decreases SKETCH_DEPTH - d,
        {
            let h = hash_with_seed(key, d as u64);
            let col = (h % self.width_u64) as usize;
            cols.push(col);
            d = d + 1;
        }
        cols
    }

    /// Estimated frequency of the key with columns `cols`: the smallest of its
    /// counters.
    pub fn estimate_cols(&self, cols: &Vec<usize>) -> (r: u8)
        requires
            self.wf(),
            valid_cols(cols@, self.width()),
        ensures
            r == estimate_spec(self.counters(), self.width(), cols@),
    {
        let mut min: u8 = u8::MAX;
        let mut d: usize = 0;
        while d < SKETCH_DEPTH
            invariant
                self.wf(),
                valid_cols(cols@, self.width()),
                d <= SKETCH_DEPTH,
                min == min_rows(self.counters(), self.width(), cols@, d as int),
            decreases SKETCH_DEPTH - d,
        {
            proof {
                assert(cols@[d as int] < self.width());
                assert(d * self.width + cols@[d as int] < self.width * SKETCH_DEPTH) by (nonlinear_arith)
                    requires
                        cols@[d as int] < self.width,
                        d < SKETCH_DEPTH,
                ;
            }
            let idx = d * self.width + cols[d];
            proof {
                assert(idx < self.counters@.len()) by (nonlinear_arith)
                    requires
                        idx == d * self.width + cols@[d as int],
                        cols@[d as int] < self.width,
                        d < SKETCH_DEPTH,
                        self.counters@.len() == self.width * SKETCH_DEPTH,
                ;
            }
            let observed = self.counters[idx];
            if observed < min {
                min = observed;
            }
            d = d + 1;
        }
        min
    }

    /// Estimated frequency of `key`.
    pub fn estimate<K: Hash>(&self, key: &K) -> (r: u8)
        requires
            self.wf(),
        ensures
            exists|cols: Seq<usize>|
                valid_cols(cols, self.width()) && r == estimate_spec(self.counters(), self.width(), cols),
    {
        let cols = self.columns(key);
        self.estimate_cols(&cols)
    }

    /// Records one observation of the key with columns `cols`; every
    /// `window()` observations all counters are halved.
    pub fn increment_cols(&mut self, cols: &Vec<usize>)
        requires
            old(self).wf(),
            valid_cols(cols@, old(self).width()),
        ensures
            final(self).wf(),
            final(self).width() == old(self).width(),
            final(self).window() == old(self).window(),
            old(self).samples() + 1 >= old(self).window() ==> final(self).counters() == halved(
                bumped(old(self).counters(), old(self).width(), cols@),
            ) && final(self).samples() == 0,
            old(self).samples() + 1 < old(self).window() ==> final(self).counters() == bumped(
                old(self).counters(),
                old(self).width(),
                cols@,
            ) && final(self).samples() == old(self).samples() + 1,
    {
        let ghost orig = self.counters@;
        let mut d: usize = 0;
        proof {
            assert(self.counters@ =~= bumped_rows(orig, self.width(), cols@, 0));
        }
        while d < SKETCH_DEPTH
            invariant
                self.wf(),
                self.width == old(self).width,
                self.sample_window == old(self).sample_window,
                self.samples == old(self).samples,
                orig == old(self).counters@,
                valid_cols(cols@, self.width()),
                d <= SKETCH_DEPTH,
                self.counters@ == bumped_rows(orig, self.width(), cols@, d as int),
            decreases SKETCH_DEPTH - d,
        {
            proof {
                assert(cols@[d as int] < self.width());
                assert(d * self.width + cols@[d as int] < self.width * SKETCH_DEPTH) by (nonlinear_arith)
                    requires
                        cols@[d as int] < self.width,
                        d < SKETCH_DEPTH,
                ;
            }
            let idx = d * self.width + cols[d];
            let c = self.counters[idx];
            self.counters.set(idx, c.saturating_add(1));
            proof {
                let w = self.width();
                assert(!is_key_cell(w, cols@, idx as int, d as int)) by {
                    if is_key_cell(w, cols@, idx as int, d as int) {
                        let e = choose|e: int| 0 <= e < d && idx == #[trigger] cell(w, e, cols@[e]);
                        assert(cols@[e] < w);
                        lemma_cells_distinct(w, e, cols@[e], d as int, cols@[d as int]);
                    }
                }
                assert forall|i: int| 0 <= i < orig.len() implies is_key_cell(w, cols@, i, d + 1) == (
                is_key_cell(w, cols@, i, d as int) || i == idx) by {
                    if i == idx {
                        assert(i == cell(w, d as int, cols@[d as int]));
                    }
                    if is_key_cell(w, cols@, i, d + 1) {
                        let e = choose|e: int| 0 <= e < d + 1 && i == #[trigger] cell(w, e, cols@[e]);
                        if e < d {
                            assert(is_key_cell(w, cols@, i, d as int));
                        }
                    }
                    if is_key_cell(w, cols@, i, d as int) {
                        let e = choose|e: int| 0 <= e < d && i == #[trigger] cell(w, e, cols@[e]);
                        assert(is_key_cell(w, cols@, i, d + 1));
                    }
                }
                assert(self.counters@ =~= bumped_rows(orig, w, cols@, d + 1));
            }
            d = d + 1;
        }
        self.samples = self.samples.saturating_add(1);
        if self.samples >= self.sample_window {
            self.age();
            self.samples = 0;
        }
    }

    /// Halves every counter.
    fn age(&mut self)
        ensures
            final(self).counters() == halved(old(self).counters()),
            final(self).width == old(self).width,
            final(self).width_u64 == old(self).width_u64,
            final(self).samples == old(self).samples,
            final(self).sample_window == old(self).sample_window,
    {
        let n = self.counters.len();
        let mut i: usize = 0;
        while i < n
            invariant
                n == self.counters@.len(),
                n == old(self).counters@.len(),
                self.width == old(self).width,
                self.width_u64 == old(self).width_u64,
                self.samples == old(self).samples,
                self.sample_window == old(self).sample_window,
                i <= n,
                forall|j: int| 0 <= j < i ==> #[trigger] self.counters@[j] == old(self).counters@[j] / 2,
                forall|j: int| i <= j < n ==> #[trigger] self.counters@[j] == old(self).counters@[j],
            decreases n - i,
        {
            let c = self.counters[i];
            let h = c >> 1;
            assert(h == c / 2) by (bit_vector)
                requires
                    h == c >> 1,
            ;
            self.counters.set(i, h);
            i = i + 1;
        }
        proof {
            assert(self.counters@ =~= halved(old(self).counters@));
        }
    }

    /// Records one observation of `key`.
    pub fn increment<K: Hash>(&mut self, key: &K)
        requires
            old(self).wf(),
        ensures
            final(self).wf(),
            final(self).width() == old(self).width(),
            final(self).window() == old(self).window(),
            exists|cols: Seq<usize>|
                {
                    &&& valid_cols(cols, old(self).width())
                    &&& old(self).samples() + 1 >= old(self).window() ==> final(self).counters() == halved(
                        bumped(old(self).counters(), old(self).width(), cols),
                    ) && final(self).samples() == 0
                    &&& old(self).samples() + 1 < old(self).window() ==> final(self).counters() == bumped(
                        old(self).counters(),
                        old(self).width(),
                        cols,
                    ) && final(self).samples() == old(self).samples() + 1
                },
    {
        let cols = self.columns(key);
        self.increment_cols(&cols);
    }

    /// Zeroes every counter and the sample count.
    pub fn reset(&mut self)
        requires
            old(self).wf(),
        ensures
            final(self).wf(),
            final(self).width() == old(self).width(),
            final(self).window() == old(self).window(),
            final(self).samples() == 0,
            final(self).counters().len() == old(self).counters().len(),
            forall|i: int| 0 <= i < final(self).counters().len() ==> #[trigger] final(self).counters()[i] == 0,
    {
        let n = self.counters.len();
        let mut i: usize = 0;
        while i < n
            invariant
                n == self.counters@.len(),
                n == old(self).counters@.len(),
                self.width == old(self).width,
                self.width_u64 == old(self).width_u64,
                self.samples == old(self).samples,
                self.sample_window == old(self).sample_window,
                i <= n,
                forall|j: int| 0 <= j < i ==> #[trigger] self.counters@[j] == 0,
            decreases n - i,
        {
            self.counters.set(i, 0);
            i = i + 1;
        }
        self.samples = 0;
    }
}

/// Saturating increment commutes with taking the smaller counter.
proof fn lemma_min_sat_inc(a: u8, b: u8)
    ensures
        min_u8(sat_inc(a), sat_inc(b)) == sat_inc(min_u8(a, b)),
{
}

/// Halving commutes with taking the smaller counter.
proof fn lemma_min_half(a: u8, b: u8)
    ensures
        min_u8((a / 2) as u8, (b / 2) as u8) == (min_u8(a, b) / 2) as u8,
{
}

/// An observation raises the observed key's own estimate by one, saturating
/// at `u8::MAX`.
pub proof fn lemma_increment_raises_estimate(counters: Seq<u8>, width: nat, cols: Seq<usize>)
    requires
        valid_cols(cols, width),
        counters.len() == width * SKETCH_DEPTH,
    ensures
        estimate_spec(bumped(counters, width, cols), width, cols) == sat_inc(
            estimate_spec(counters, width, cols),
        ),
{
    lemma_bumped_rows_min(counters, width, cols, SKETCH_DEPTH as int);
}

proof fn lemma_bumped_rows_min(counters: Seq<u8>, width: nat, cols: Seq<usize>, n: int)
    requires
        valid_cols(cols, width),
        counters.len() == width * SKETCH_DEPTH,
        0 <= n <= SKETCH_DEPTH,
    ensures
        min_rows(bumped(counters, width, cols), width, cols, n) == sat_inc(
            min_rows(counters, width, cols, n),
        ),
    decreases n,
{
    if n > 0 {
        lemma_bumped_rows_min(counters, width, cols, n - 1);
        let i = cell(width, n - 1, cols[n - 1]);
        assert(cols[n - 1] < width);
        assert(0 <= i < counters.len()) by (nonlinear_arith)
            requires
                i == (n - 1) * width + cols[n - 1],
                cols[n - 1] < width,
                1 <= n <= 4,
                counters.len() == width * 4,
        ;
        assert(is_key_cell(width, cols, i, SKETCH_DEPTH as int));
        lemma_min_sat_inc(min_rows(counters, width, cols, n - 1), counters[i]);
    }
}

/// An observation of one key never lowers the estimate of any key: counters
/// only grow between two agings.
pub proof fn lemma_increment_never_lowers(counters: Seq<u8>, width: nat, observed: Seq<usize>, cols: Seq<usize>)
    requires
        valid_cols(observed, width),
        valid_cols(cols, width),
        counters.len() == width * SKETCH_DEPTH,
    ensures
        estimate_spec(counters, width, cols) <= estimate_spec(bumped(counters, width, observed), width, cols),
{
    lemma_min_rows_grows(counters, bumped(counters, width, observed), width, cols, SKETCH_DEPTH as int);
}

proof fn lemma_min_rows_grows(a: Seq<u8>, b: Seq<u8>, width: nat, cols: Seq<usize>, n: int)
    requires
        valid_cols(cols, width),
        a.len() == width * SKETCH_DEPTH,
        b.len() == a.len(),
        forall|i: int| 0 <= i < a.len() ==> #[trigger] a[i] <= b[i],
        0 <= n <= SKETCH_DEPTH,
    ensures
        min_rows(a, width, cols, n) <= min_rows(b, width, cols, n),
    decreases n,
{
    if n > 0 {
        lemma_min_rows_grows(a, b, width, cols, n - 1);
        let i = cell(width, n - 1, cols[n - 1]);
        assert(cols[n - 1] < width);
        assert(0 <= i < a.len()) by (nonlinear_arith)
            requires
                i == (n - 1) * width + cols[n - 1],
                cols[n - 1] < width,
                1 <= n <= 4,
                a.len() == width * 4,
        ;
        assert(a[i] <= b[i]);
    }
}

/// Aging halves every estimate.
pub proof fn lemma_aging_halves_estimate(counters: Seq<u8>, width: nat, cols: Seq<usize>)
    requires
        valid_cols(cols, width),
        counters.len() == width * SKETCH_DEPTH,
    ensures
        estimate_spec(halved(counters), width, cols) == (estimate_spec(counters, width, cols) / 2) as u8,
{
    lemma_halved_rows_min(counters, width, cols, SKETCH_DEPTH as int);
}

proof fn lemma_halved_rows_min(counters: Seq<u8>, width: nat, cols: Seq<usize>, n: int)
    requires
        valid_cols(cols, width),
        counters.len() == width * SKETCH_DEPTH,
        1 <= n <= SKETCH_DEPTH,
    ensures
        min_rows(halved(counters), width, cols, n) == (min_rows(counters, width, cols, n) / 2) as u8,
    decreases n,
{
    let i = cell(width, n - 1, cols[n - 1]);
    assert(cols[n - 1] < width);
    assert(0 <= i < counters.len()) by (nonlinear_arith)
        requires
            i == (n - 1) * width + cols[n - 1],
            cols[n - 1] < width,
            1 <= n <= 4,
            counters.len() == width * 4,
    ;
    if n > 1 {
        lemma_halved_rows_min(counters, width, cols, n - 1);
        lemma_min_half(min_rows(counters, width, cols, n - 1), counters[i]);
    } else {
        assert(min_rows(halved(counters), width, cols, 0) == u8::MAX);
        assert(min_rows(counters, width, cols, 0) == u8::MAX);
    }
}

} // verus!
