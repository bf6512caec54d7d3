//! Sequence smoothing: a bounded-lookahead dynamic program over perceptual
//! frame hashes.
//!
//! Each candidate frame carries a fixed-length bit-vector hash; the visual
//! jump between two frames is their hamming distance over the bit length,
//! and skipping a frame costs a configured penalty. The program picks a
//! strictly increasing frame order from the first frame to the last that
//! minimizes the accumulated cost, never jumping further than the lookahead
//! window. All cost arithmetic is exact: costs are scaled by
//! `bit length * penalty denominator`, so no rounding and no undefined
//! comparison can occur.

use vstd::prelude::*;
use vstd::arithmetic::mul::lemma_mul_inequality;
use vstd::arithmetic::mul::lemma_mul_nonnegative;
use vstd::arithmetic::mul::lemma_mul_upper_bound;
use vstd::arithmetic::div_mod::lemma_fundamental_div_mod;
use vstd::arithmetic::div_mod::lemma_div_is_ordered;
use vstd::arithmetic::div_mod::lemma_mod_bound;
use vstd::arithmetic::div_mod::lemma_div_multiples_vanish;

verus! {

/// A perceptual fingerprint of one fetched image: a fixed-length bit vector
/// over a coarse grid of a cropped, downsampled thumbnail. Two hashes are
/// comparable only when produced with identical parameters, hence of equal
/// bit length.
#[derive(Debug)]
pub struct FrameHash {
    pub bits: Vec<bool>,
}

impl View for FrameHash {
    type V = Seq<bool>;

    open spec fn view(&self) -> Seq<bool> {
        self.bits@
    }
}

impl Clone for FrameHash {
    /// The copy carries the same bits.
    fn clone(&self) -> (res: Self)
        ensures
            res@ == self@,
    {
        let mut bits: Vec<bool> = Vec::new();
        let mut i: usize = 0;
        while i < self.bits.len()
            invariant
                0 <= i <= self.bits@.len(),
                bits@ =~= self.bits@.take(i as int),
            decreases self.bits@.len() - i,
        {
            bits.push(self.bits[i]);
            i = i + 1;
        }
        proof {
            assert(self.bits@.take(self.bits@.len() as int) =~= self.bits@);
        }
        FrameHash { bits }
    }
}

/// The number of positions at which two bit vectors differ, over their
/// common length.
pub open spec fn hamming(a: Seq<bool>, b: Seq<bool>) -> int
    decreases a.len(),
{
    if a.len() == 0 || b.len() == 0 {
        0
    } else {
        hamming(a.drop_last(), b.drop_last()) + if a.last() != b.last() {
            1int
        } else {
            0int
        }
    }
}

pub proof fn lemma_hamming_bounds(a: Seq<bool>, b: Seq<bool>)
    ensures
        0 <= hamming(a, b),
        hamming(a, b) <= a.len(),
    decreases a.len(),
{
    if a.len() > 0 && b.len() > 0 {
        lemma_hamming_bounds(a.drop_last(), b.drop_last());
    }
}

pub proof fn lemma_hamming_self(a: Seq<bool>, b: Seq<bool>)
    requires
        a == b,
    ensures
        hamming(a, b) == 0,
    decreases a.len(),
{
    if a.len() > 0 {
        lemma_hamming_self(a.drop_last(), b.drop_last());
    }
}

pub proof fn lemma_hamming_take_succ(a: Seq<bool>, b: Seq<bool>, i: int)
    requires
        0 <= i < a.len(),
        0 <= i < b.len(),
    ensures
        hamming(a.take(i + 1), b.take(i + 1)) == hamming(a.take(i), b.take(i)) + if a[i] != b[i] {
            1int
        } else {
            0int
        },
{
    assert(a.take(i + 1).drop_last() =~= a.take(i));
    assert(b.take(i + 1).drop_last() =~= b.take(i));
}

/// The number of differing bit positions of two equal-length frame hashes.
pub fn hamming_distance(a: &FrameHash, b: &FrameHash) -> (r: usize)
    requires
        a@.len() == b@.len(),
    ensures
        r == hamming(a@, b@),
        r <= a@.len(),
{
    let mut count: usize = 0;
    let mut i: usize = 0;
    while i < a.bits.len()
        invariant
            a@.len() == b@.len(),
            0 <= i <= a@.len(),
            count == hamming(a@.take(i as int), b@.take(i as int)),
            count <= i,
        decreases a@.len() - i,
    {
        proof {
            lemma_hamming_take_succ(a@, b@, i as int);
        }
        if a.bits[i] != b.bits[i] {
            count = count + 1;
        }
        i = i + 1;
    }
    proof {
        assert(a@.take(a@.len() as int) =~= a@);
        assert(b@.take(b@.len() as int) =~= b@);
    }
    count
}

/// Tuning of the sequence optimizer: the lookahead bounds how many frames
/// one transition may advance; the skip penalty, the rational
/// `penalty_num / penalty_den`, is the cost added per skipped frame.
#[derive(Clone, Copy, Debug, PartialEq, Eq, Structural)]
pub struct OptimizerConfig {
    pub lookahead: usize,
    pub penalty_num: u64,
    pub penalty_den: u64,
}

impl OptimizerConfig {
    /// At least one frame of lookahead, and a well-defined penalty.
    pub open spec fn wf(self) -> bool {
        &&& self.lookahead >= 1
        &&& self.penalty_den >= 1
    }
}

impl Default for OptimizerConfig {
    /// Three frames of lookahead and a skip penalty of one fifth.
    fn default() -> (r: Self)
        ensures
            r == (OptimizerConfig { lookahead: 3usize, penalty_num: 200u64, penalty_den: 1000u64 }),
            r.wf(),
    {
        OptimizerConfig { lookahead: 3, penalty_num: 200, penalty_den: 1000 }
    }
}

/// The ingredients of the dynamic program, in exact integer form: all costs
/// are scaled by `bits * pden`, so stepping from frame `j` to frame `i`
/// costs `hamming * pden + pnum * bits * (i - j - 1)`.
pub ghost struct DpInput {
    pub hashes: Seq<Seq<bool>>,
    pub bits: int,
    pub la: int,
    pub pnum: int,
    pub pden: int,
}

impl DpInput {
    pub open spec fn wf(self) -> bool {
        &&& self.hashes.len() >= 1
        &&& self.bits >= 1
        &&& self.la >= 1
        &&& self.pden >= 1
        &&& self.pnum >= 0
        &&& forall|i: int|
            0 <= i < self.hashes.len() ==> (#[trigger] self.hashes[i]).len() == self.bits
    }

    pub open spec fn n(self) -> int {
        self.hashes.len() as int
    }

    /// The scaled cost of stepping from frame `j` to frame `i`.
    pub open spec fn trans_cost(self, i: int, j: int) -> int {
        hamming(self.hashes[i], self.hashes[j]) * self.pden + self.pnum * self.bits * (i - j - 1)
    }

    /// The earliest candidate predecessor of frame `i`.
    pub open spec fn lo(self, i: int) -> int {
        if self.la < 1 || i - self.la <= 0 {
            0
        } else {
            i - self.la
        }
    }

    /// An upper bound on any single transition cost.
    pub open spec fn trans_cap(self) -> int {
        self.bits * self.pden + self.pnum * self.bits * self.n()
    }
}

/// The least cumulative scaled cost of reaching frame `i` along admissible
/// transitions from frame 0, which costs nothing to reach.
pub open spec fn best_cost(inp: DpInput, i: int) -> int
    decreases i, i - inp.lo(i) + 1int,
{
    if i <= 0 {
        0
    } else {
        scan_min(inp, i, inp.lo(i))
    }
}

/// The least cost of reaching frame `i` through a predecessor in
/// `[j, i-1]`, scanned upward from `j`.
pub open spec fn scan_min(inp: DpInput, i: int, j: int) -> int
    decreases i, i - j,
{
    if i <= 0 {
        0
    } else if j >= i - 1 || j < 0 {
        best_cost(inp, i - 1) + inp.trans_cost(i, i - 1)
    } else {
        let c = best_cost(inp, j) + inp.trans_cost(i, j);
        let rest = scan_min(inp, i, j + 1);
        if c < rest {
            c
        } else {
            rest
        }
    }
}

/// The predecessor the program chooses for frame `i` among `[j, i-1]`: the
/// latest candidate achieving the least cost, so ties favor the nearest
/// predecessor — the fewest skipped frames.
pub open spec fn scan_pred(inp: DpInput, i: int, j: int) -> int
    decreases i - j,
{
    if j >= i - 1 || j < 0 {
        i - 1
    } else {
        let c = best_cost(inp, j) + inp.trans_cost(i, j);
        if c < scan_min(inp, i, j + 1) {
            j
        } else {
            scan_pred(inp, i, j + 1)
        }
    }
}

/// The predecessor chosen for frame `i` over its whole lookahead window.
pub open spec fn pred(inp: DpInput, i: int) -> int {
    scan_pred(inp, i, inp.lo(i))
}

/// The chosen predecessor lies in the scanned window, achieves the least
/// cost of the window, and no window member beats it.
pub proof fn lemma_scan_pred_range(inp: DpInput, i: int, j: int)
    requires
        0 <= j <= i - 1,
    ensures
        j <= scan_pred(inp, i, j) <= i - 1,
        best_cost(inp, scan_pred(inp, i, j)) + inp.trans_cost(i, scan_pred(inp, i, j)) == scan_min(
            inp,
            i,
            j,
        ),
        forall|t: int|
            j <= t <= i - 1 ==> scan_min(inp, i, j) <= best_cost(inp, t) + inp.trans_cost(i, t),
    decreases i - j,
{
    if !(j >= i - 1 || j < 0) {
        lemma_scan_pred_range(inp, i, j + 1);
    }
}

/// The frame order the optimizer returns for a track ending at frame `i`:
/// the chain of chosen predecessors walked back to frame 0, listed in
/// increasing order. The range guard on the predecessor only aids the
/// termination checker; a chosen predecessor always lies below its frame.
pub open spec fn chain(inp: DpInput, i: int) -> Seq<int>
    decreases i,
{
    if i <= 0 {
        seq![0int]
    } else {
        let p = pred(inp, i);
        let clamped = if 0 <= p < i {
            p
        } else {
            0
        };
        chain(inp, clamped) + seq![i]
    }
}

/// The returned order starts at frame 0, ends at its last frame, is
/// strictly increasing, and never jumps further than the lookahead window.
pub proof fn lemma_chain_props(inp: DpInput, i: int)
    requires
        inp.la >= 1,
        0 <= i,
    ensures
        chain(inp, i).len() >= 1,
        chain(inp, i).first() == 0,
        chain(inp, i).last() == i,
        forall|k: int| 0 <= k < chain(inp, i).len() ==> 0 <= #[trigger] chain(inp, i)[k] <= i,
        forall|k: int|
            0 <= k < chain(inp, i).len() - 1 ==> #[trigger] chain(inp, i)[k] < chain(inp, i)[k + 1]
                && chain(inp, i)[k + 1] - chain(inp, i)[k] <= inp.la,
    decreases i,
{
    if i > 0 {
        let p = pred(inp, i);
        lemma_scan_pred_range(inp, i, inp.lo(i));
        let clamped = if 0 <= p < i {
            p
        } else {
            0
        };
        lemma_chain_props(inp, clamped);
        let c = chain(inp, i);
        let cp = chain(inp, clamped);
        assert(c == cp + seq![i]);
        assert(c.last() == i);
        assert(c.first() == cp.first());
        assert forall|k: int| 0 <= k < c.len() - 1 implies #[trigger] c[k] < c[k + 1] && c[k + 1]
            - c[k] <= inp.la by {
            if k < cp.len() - 1 {
                assert(c[k] == cp[k] && c[k + 1] == cp[k + 1]);
            } else {
                assert(c[k] == cp.last() && c[k + 1] == i);
            }
        }
    }
}

/// Every transition cost is nonnegative and at most the transition cap.
pub proof fn lemma_trans_bounds(inp: DpInput, i: int, j: int)
    requires
        inp.wf(),
        0 <= j < i < inp.n(),
    ensures
        0 <= inp.trans_cost(i, j),
        inp.trans_cost(i, j) <= inp.trans_cap(),
{
    lemma_hamming_bounds(inp.hashes[i], inp.hashes[j]);
    let h = hamming(inp.hashes[i], inp.hashes[j]);
    lemma_mul_nonnegative(h, inp.pden);
    lemma_mul_nonnegative(inp.pnum, inp.bits);
    lemma_mul_nonnegative(inp.pnum * inp.bits, i - j - 1);
    lemma_mul_inequality(h, inp.bits, inp.pden);
    assert((inp.pnum * inp.bits) * (i - j - 1) <= (inp.pnum * inp.bits) * inp.n()) by {
        lemma_mul_inequality(i - j - 1, inp.n(), inp.pnum * inp.bits);
        vstd::arithmetic::mul::lemma_mul_is_commutative(inp.pnum * inp.bits, i - j - 1);
        vstd::arithmetic::mul::lemma_mul_is_commutative(inp.pnum * inp.bits, inp.n());
    }
    assert(inp.pnum * inp.bits * (i - j - 1) == (inp.pnum * inp.bits) * (i - j - 1));
    assert(inp.pnum * inp.bits * inp.n() == (inp.pnum * inp.bits) * inp.n());
}

/// Cumulative best costs are nonnegative and grow at most linearly in the
/// frame index.
pub proof fn lemma_best_cost_bounds(inp: DpInput, i: int)
    requires
        inp.wf(),
        0 <= i < inp.n(),
    ensures
        0 <= best_cost(inp, i),
        best_cost(inp, i) <= i * inp.trans_cap(),
    decreases i, i - inp.lo(i) + 1int,
{
    if i > 0 {
        lemma_scan_bounds(inp, i, inp.lo(i));
        assert(scan_min(inp, i, inp.lo(i)) <= (i - 1) * inp.trans_cap() + inp.trans_cap());
        assert((i - 1) * inp.trans_cap() + inp.trans_cap() == i * inp.trans_cap()) by {
            vstd::arithmetic::mul::lemma_mul_is_distributive_sub_other_way(
                inp.trans_cap(),
                i,
                1int,
            );
        }
    }
}

/// Grid cells per side of the perceptual hash: the hash has
/// `GRID * GRID` bits.
pub const GRID: usize = 16;

/// The brightness of the pixel at column `x`, row `y` of a row-major
/// grayscale image.
pub open spec fn px(pixels: Seq<u8>, width: int, x: int, y: int) -> int {
    pixels[y * width + x] as int
}

/// The summed brightness of `n` pixels of row `y`, starting at column `x0`.
pub open spec fn row_sum(pixels: Seq<u8>, width: int, y: int, x0: int, n: int) -> int
    decreases n,
{
    if n <= 0 {
        0
    } else {
        row_sum(pixels, width, y, x0, n - 1) + px(pixels, width, x0 + (n - 1), y)
    }
}

/// The summed brightness of the `w` by `h` rectangle whose top-left pixel
/// is at `(x0, y0)`.
pub open spec fn rect_sum(pixels: Seq<u8>, width: int, x0: int, y0: int, w: int, h: int) -> int
    decreases h,
{
    if h <= 0 {
        0
    } else {
        rect_sum(pixels, width, x0, y0, w, h - 1) + row_sum(pixels, width, y0 + (h - 1), x0, w)
    }
}

/// The width of one grid cell: the central crop spans half the image, and
/// the grid divides it evenly, trailing remainder pixels ignored.
pub open spec fn cell_w(width: int) -> int {
    (width / 2) / (GRID as int)
}

/// The height of one grid cell.
pub open spec fn cell_h(height: int) -> int {
    (height / 2) / (GRID as int)
}

/// The summed brightness of grid cell `(r, c)` of the central crop, whose
/// top-left corner sits a quarter of the image in from each edge.
pub open spec fn cell_sum(pixels: Seq<u8>, width: int, height: int, r: int, c: int) -> int {
    rect_sum(
        pixels,
        width,
        width / 4 + c * cell_w(width),
        height / 4 + r * cell_h(height),
        cell_w(width),
        cell_h(height),
    )
}

/// The summed brightness of the first `k` grid cells, row-major.
pub open spec fn cells_total(pixels: Seq<u8>, width: int, height: int, k: int) -> int
    decreases k,
{
    if k <= 0 {
        0
    } else {
        cells_total(pixels, width, height, k - 1) + cell_sum(
            pixels,
            width,
            height,
            (k - 1) / (GRID as int),
            (k - 1) % (GRID as int),
        )
    }
}

/// The perceptual hash of a grayscale image: one bit per grid cell of the
/// central crop — the crop excludes sky and road bias, each cell averages
/// away detail like one thumbnail pixel — set exactly when the cell is
/// strictly brighter than the average cell.
pub open spec fn frame_hash_spec(pixels: Seq<u8>, width: int, height: int) -> Seq<bool> {
    Seq::new(
        (GRID * GRID) as nat,
        |k: int|
            cell_sum(pixels, width, height, k / (GRID as int), k % (GRID as int)) * ((GRID
                * GRID) as int) > cells_total(pixels, width, height, (GRID * GRID) as int),
    )
}

/// Why hashing rejected an image.
#[derive(Clone, Copy, Debug, PartialEq, Eq, Structural)]
pub enum HashError {
    /// The image is too small to carve a grid out of its central crop.
    ImageTooSmall,
    /// The image is too large for exact brightness arithmetic.
    ImageTooLarge,
    /// The pixel buffer does not hold width times height bytes.
    SizeMismatch,
}

/// Largest image dimension the hash accepts.
pub const HASH_DIM_CAP: usize = 0x10_0000;

/// Smallest image dimension that still yields one pixel per grid cell.
pub const HASH_DIM_MIN: usize = 32;

/// The error, if any, with which `frame_hash` rejects its input, in
/// checking order.
pub open spec fn hash_check(pixels: Seq<u8>, width: int, height: int) -> Option<HashError> {
    if width < HASH_DIM_MIN || height < HASH_DIM_MIN {
        Some(HashError::ImageTooSmall)
    } else if width > HASH_DIM_CAP || height > HASH_DIM_CAP {
        Some(HashError::ImageTooLarge)
    } else if pixels.len() != width * height {
        Some(HashError::SizeMismatch)
    } else {
        None
    }
}

/// Row and rectangle sums are nonnegative and at most 255 per pixel.
proof fn lemma_row_sum_bounds(pixels: Seq<u8>, width: int, y: int, x0: int, n: int)
    requires
        0 <= n,
    ensures
        0 <= row_sum(pixels, width, y, x0, n),
        row_sum(pixels, width, y, x0, n) <= 255 * n,
    decreases n,
{
    if n > 0 {
        lemma_row_sum_bounds(pixels, width, y, x0, n - 1);
    }
}

proof fn lemma_rect_sum_bounds(pixels: Seq<u8>, width: int, x0: int, y0: int, w: int, h: int)
    requires
        0 <= w,
        0 <= h,
    ensures
        0 <= rect_sum(pixels, width, x0, y0, w, h),
        rect_sum(pixels, width, x0, y0, w, h) <= h * (255 * w),
    decreases h,
{
    if h > 0 {
        lemma_rect_sum_bounds(pixels, width, x0, y0, w, h - 1);
        lemma_row_sum_bounds(pixels, width, y0 + (h - 1), x0, w);
        assert((h - 1) * (255 * w) + 255 * w == h * (255 * w)) by {
            vstd::arithmetic::mul::lemma_mul_is_distributive_sub_other_way(255 * w, h, 1int);
        }
    }
}

/// The summed brightness of one rectangle of the image, by row.
#[verifier::loop_isolation(false)]
fn rect_brightness(
    pixels: &Vec<u8>,
    width: usize,
    x0: usize,
    y0: usize,
    w: usize,
    h: usize,
) -> (r: u64)
    requires
        1 <= w <= 0x8000,
        1 <= h <= 0x8000,
        x0 + w <= width,
        (y0 + h) * width <= pixels@.len(),
    ensures
        r as int == rect_sum(pixels@, width as int, x0 as int, y0 as int, w as int, h as int),
{
    let plen: usize = pixels.len();
    proof {
        lemma_rect_sum_bounds(pixels@, width as int, x0 as int, y0 as int, w as int, h as int);
        assert((y0 + h) as int <= ((y0 + h) as int) * (width as int)) by {
            lemma_mul_inequality(1int, width as int, (y0 + h) as int);
            vstd::arithmetic::mul::lemma_mul_is_commutative((y0 + h) as int, width as int);
        }
        assert((y0 + h) as int <= plen);
    }
    let mut sum: u64 = 0;
    let mut dy: usize = 0;
    while dy < h
        invariant
            0 <= dy <= h,
            sum as int == rect_sum(pixels@, width as int, x0 as int, y0 as int, w as int, dy as int),
            sum <= (dy as int) * (255 * (w as int)),
        decreases h - dy,
    {
        proof {
            lemma_rect_sum_bounds(
                pixels@,
                width as int,
                x0 as int,
                y0 as int,
                w as int,
                dy as int,
            );
        }
        let y: usize = y0 + dy;
        let mut row: u64 = 0;
        let mut dx: usize = 0;
        while dx < w
            invariant
                0 <= dx <= w,
                y == y0 + dy,
                dy < h,
                row as int == row_sum(pixels@, width as int, y as int, x0 as int, dx as int),
                row <= 255 * (dx as int),
            decreases w - dx,
        {
            proof {
                assert((y as int) * (width as int) + (x0 + dx) < pixels@.len()) by {
                    lemma_mul_inequality(y as int + 1, (y0 + h) as int, width as int);
                    vstd::arithmetic::mul::lemma_mul_is_distributive_add_other_way(
                        width as int,
                        y as int,
                        1int,
                    );
                }
            }
            let idx: usize = y * width + (x0 + dx);
            row = row + (pixels[idx] as u64);
            dx = dx + 1;
        }
        proof {
            assert((dy as int) * (255 * (w as int)) + 255 * (w as int) == (dy as int + 1) * (255
                * (w as int))) by {
                vstd::arithmetic::mul::lemma_mul_is_distributive_add_other_way(
                    255 * (w as int),
                    dy as int,
                    1int,
                );
            }
            lemma_mul_upper_bound(dy as int + 1, 0x8000int, 255 * (w as int), 255 * 0x8000int);
            assert(0x8000int * (255 * 0x8000int) == 0x3F_C000_0000int) by (nonlinear_arith);
        }
        sum = sum + row;
        dy = dy + 1;
    }
    sum
}

/// Compute the perceptual hash of a row-major grayscale image: crop the
/// central half in both dimensions, average each cell of a square grid over
/// the crop, and emit one bit per cell — set exactly when the cell is
/// strictly brighter than the average cell. Hashes are comparable only when
/// produced by this one procedure, which fixes all parameters.
#[verifier::loop_isolation(false)]
pub fn frame_hash(pixels: &Vec<u8>, width: usize, height: usize) -> (r: Result<
    FrameHash,
    HashError,
>)
    ensures
        r is Err <==> hash_check(pixels@, width as int, height as int) is Some,
        r is Err ==> r->Err_0 == hash_check(pixels@, width as int, height as int)->Some_0,
        r is Ok ==> r->Ok_0@ == frame_hash_spec(pixels@, width as int, height as int),
        r is Ok ==> r->Ok_0@.len() == GRID * GRID,
{
    if width < HASH_DIM_MIN || height < HASH_DIM_MIN {
        return Err(HashError::ImageTooSmall);
    }
    if width > HASH_DIM_CAP || height > HASH_DIM_CAP {
        return Err(HashError::ImageTooLarge);
    }
    if pixels.len() / width != height || pixels.len() % width != 0 {
        proof {
            lemma_fundamental_div_mod(pixels@.len() as int, width as int);
            if pixels@.len() == width * height {
                lemma_div_multiples_vanish(height as int, width as int);
                vstd::arithmetic::div_mod::lemma_mod_multiples_basic(
                    height as int,
                    width as int,
                );
                vstd::arithmetic::mul::lemma_mul_is_commutative(width as int, height as int);
            }
        }
        return Err(HashError::SizeMismatch);
    }
    proof {
        lemma_fundamental_div_mod(pixels@.len() as int, width as int);
        vstd::arithmetic::mul::lemma_mul_is_commutative(width as int, height as int);
    }

    let cw: usize = (width / 2) / GRID;
    let ch: usize = (height / 2) / GRID;
    proof {
        lemma_div_is_ordered(GRID as int, (width / 2) as int, GRID as int);
        lemma_div_is_ordered(GRID as int, (height / 2) as int, GRID as int);
        lemma_div_is_ordered((width / 2) as int, 0x8_0000int, GRID as int);
        lemma_div_is_ordered((height / 2) as int, 0x8_0000int, GRID as int);
        lemma_fundamental_div_mod((width / 2) as int, GRID as int);
        lemma_mod_bound((width / 2) as int, GRID as int);
        lemma_fundamental_div_mod((height / 2) as int, GRID as int);
        lemma_mod_bound((height / 2) as int, GRID as int);
        lemma_fundamental_div_mod(width as int, 4int);
        lemma_mod_bound(width as int, 4int);
        lemma_fundamental_div_mod(width as int, 2int);
        lemma_mod_bound(width as int, 2int);
        lemma_fundamental_div_mod(height as int, 4int);
        lemma_mod_bound(height as int, 4int);
        lemma_fundamental_div_mod(height as int, 2int);
        lemma_mod_bound(height as int, 2int);
        assert(width / 4 + (GRID as int) * (cw as int) <= width / 4 + width / 2);
        assert(height / 4 + (GRID as int) * (ch as int) <= height / 4 + height / 2);
    }

    let mut cells: Vec<u64> = Vec::new();
    let mut k: usize = 0;
    while k < GRID * GRID
        invariant
            0 <= k <= GRID * GRID,
            cells@.len() == k,
            forall|t: int|
                0 <= t < k ==> #[trigger] cells@[t] as int == cell_sum(
                    pixels@,
                    width as int,
                    height as int,
                    t / (GRID as int),
                    t % (GRID as int),
                ) && cells@[t] <= 0x3F_C000_0000u64,
        decreases GRID * GRID - k,
    {
        let r: usize = k / GRID;
        let c: usize = k % GRID;
        proof {
            lemma_div_is_ordered(k as int, 255int, GRID as int);
            lemma_mod_bound(k as int, GRID as int);
            assert((c as int + 1) * (cw as int) <= (GRID as int) * (cw as int)) by {
                lemma_mul_inequality(c as int + 1, GRID as int, cw as int);
            }
            assert((r as int + 1) * (ch as int) <= (GRID as int) * (ch as int)) by {
                lemma_mul_inequality(r as int + 1, GRID as int, ch as int);
            }
            vstd::arithmetic::mul::lemma_mul_is_distributive_add_other_way(
                cw as int,
                c as int,
                1int,
            );
            vstd::arithmetic::mul::lemma_mul_is_distributive_add_other_way(
                ch as int,
                r as int,
                1int,
            );
            assert(((height / 4 + r * ch + ch) as int) * (width as int) <= (height as int) * (
            width as int)) by {
                lemma_mul_inequality(
                    (height / 4 + r * ch + ch) as int,
                    height as int,
                    width as int,
                );
            }
            vstd::arithmetic::mul::lemma_mul_is_commutative(height as int, width as int);
        }
        let x0: usize = width / 4 + c * cw;
        let y0: usize = height / 4 + r * ch;
        let sum: u64 = rect_brightness(pixels, width, x0, y0, cw, ch);
        proof {
            lemma_rect_sum_bounds(
                pixels@,
                width as int,
                x0 as int,
                y0 as int,
                cw as int,
                ch as int,
            );
            lemma_mul_upper_bound(ch as int, 0x8000int, 255 * (cw as int), 255 * 0x8000int);
            assert(0x8000int * (255 * 0x8000int) == 0x3F_C000_0000int) by (nonlinear_arith);
        }
        cells.push(sum);
        k = k + 1;
    }

    let mut total: u64 = 0;
    let mut k: usize = 0;
    while k < GRID * GRID
        invariant
            0 <= k <= GRID * GRID,
            total as int == cells_total(pixels@, width as int, height as int, k as int),
            total <= (k as int) * 0x3F_C000_0000int,
        decreases GRID * GRID - k,
    {
        proof {
            assert((k as int) * 0x3F_C000_0000int + 0x3F_C000_0000int == (k as int + 1)
                * 0x3F_C000_0000int) by {
                vstd::arithmetic::mul::lemma_mul_is_distributive_add_other_way(
                    0x3F_C000_0000int,
                    k as int,
                    1int,
                );
            }
        }
        total = total + cells[k];
        k = k + 1;
    }

    let mut bits: Vec<bool> = Vec::new();
    let mut k: usize = 0;
    while k < GRID * GRID
        invariant
            0 <= k <= GRID * GRID,
            bits@.len() == k,
            forall|t: int|
                0 <= t < k ==> #[trigger] bits@[t] == frame_hash_spec(
                    pixels@,
                    width as int,
                    height as int,
                )[t],
        decreases GRID * GRID - k,
    {
        let bright: bool = cells[k] * ((GRID * GRID) as u64) > total;
        bits.push(bright);
        k = k + 1;
    }
    proof {
        assert(bits@ =~= frame_hash_spec(pixels@, width as int, height as int));
    }
    Ok(FrameHash { bits })
}

/// Why the optimizer rejected its input.
#[derive(Clone, Copy, Debug, PartialEq, Eq, Structural)]
pub enum OptimizeError {
    /// The configuration is malformed: zero lookahead or a zero penalty
    /// denominator.
    BadConfig,
    /// No hashes were given; at least one frame is required.
    EmptyInput,
    /// A hash has no bits, so costs cannot be normalized.
    ZeroLengthHash,
    /// Hashes of differing bit lengths are not comparable.
    MismatchedHashLengths,
    /// The input or configuration is too large for exact cost arithmetic.
    CostOutOfRange,
}

/// The views of a hash vector.
pub open spec fn hash_views(s: Seq<FrameHash>) -> Seq<Seq<bool>> {
    s.map_values(|h: FrameHash| h@)
}

/// The dynamic program an input and configuration give rise to.
pub open spec fn dp_input(hashes: Seq<Seq<bool>>, cfg: OptimizerConfig) -> DpInput {
    DpInput {
        hashes,
        bits: if hashes.len() > 0 {
            hashes[0].len() as int
        } else {
            0
        },
        la: cfg.lookahead as int,
        pnum: cfg.penalty_num as int,
        pden: cfg.penalty_den as int,
    }
}

/// Largest frame count, bit length and penalty component that exact cost
/// arithmetic accepts.
pub const DP_SIZE_CAP: u64 = 0x4000_0000;

/// The error, if any, with which `optimize` rejects its input, in checking
/// order.
pub open spec fn optimize_check(hashes: Seq<Seq<bool>>, cfg: OptimizerConfig) -> Option<
    OptimizeError,
> {
    if !cfg.wf() {
        Some(OptimizeError::BadConfig)
    } else if hashes.len() == 0 {
        Some(OptimizeError::EmptyInput)
    } else if hashes[0].len() == 0 {
        Some(OptimizeError::ZeroLengthHash)
    } else if exists|i: int|
        0 <= i < hashes.len() && (#[trigger] hashes[i]).len() != hashes[0].len() {
        Some(OptimizeError::MismatchedHashLengths)
    } else if hashes.len() > DP_SIZE_CAP || hashes[0].len() > DP_SIZE_CAP || cfg.penalty_num
        > DP_SIZE_CAP || cfg.penalty_den > DP_SIZE_CAP {
        Some(OptimizeError::CostOutOfRange)
    } else {
        None
    }
}

/// All size inputs within the cap keep every transition cost below `2^91`.
pub proof fn lemma_cap_small(inp: DpInput)
    requires
        inp.wf(),
        inp.n() <= DP_SIZE_CAP,
        inp.bits <= DP_SIZE_CAP,
        inp.pnum <= DP_SIZE_CAP,
        inp.pden <= DP_SIZE_CAP,
    ensures
        0 <= inp.trans_cap() < 0x800_0000_0000_0000_0000_0000,
{
    lemma_mul_upper_bound(inp.bits, DP_SIZE_CAP as int, inp.pden, DP_SIZE_CAP as int);
    lemma_mul_upper_bound(inp.pnum, DP_SIZE_CAP as int, inp.bits, DP_SIZE_CAP as int);
    lemma_mul_nonnegative(inp.pnum, inp.bits);
    lemma_mul_nonnegative(inp.bits, inp.pden);
    lemma_mul_upper_bound(
        inp.pnum * inp.bits,
        0x1000_0000_0000_0000int,
        inp.n(),
        DP_SIZE_CAP as int,
    );
    lemma_mul_nonnegative(inp.pnum * inp.bits, inp.n());
}

/// All size inputs within the cap keep every cumulative cost below `2^121`.
pub proof fn lemma_best_small(inp: DpInput, i: int)
    requires
        inp.wf(),
        inp.n() <= DP_SIZE_CAP,
        inp.bits <= DP_SIZE_CAP,
        inp.pnum <= DP_SIZE_CAP,
        inp.pden <= DP_SIZE_CAP,
        0 <= i < inp.n(),
    ensures
        0 <= best_cost(inp, i) <= 0x200_0000_0000_0000_0000_0000_0000_0000,
{
    lemma_cap_small(inp);
    lemma_best_cost_bounds(inp, i);
    lemma_mul_upper_bound(
        i,
        DP_SIZE_CAP as int,
        inp.trans_cap(),
        0x800_0000_0000_0000_0000_0000int,
    );
    assert((DP_SIZE_CAP as int) * 0x800_0000_0000_0000_0000_0000int
        == 0x200_0000_0000_0000_0000_0000_0000_0000int) by (nonlinear_arith);
}

/// The cost of reaching frame `i` through predecessor `j`: the best cost of
/// `j` plus the scaled transition cost.
fn cand_cost(
    hashes: &Vec<FrameHash>,
    best: &Vec<u128>,
    i: usize,
    j: usize,
    bits: usize,
    cfg: OptimizerConfig,
    Ghost(inp): Ghost<DpInput>,
) -> (r: u128)
    requires
        inp == dp_input(hash_views(hashes@), cfg),
        inp.wf(),
        inp.n() <= DP_SIZE_CAP,
        inp.bits <= DP_SIZE_CAP,
        inp.pnum <= DP_SIZE_CAP,
        inp.pden <= DP_SIZE_CAP,
        bits as int == inp.bits,
        0 <= j < i < hashes@.len(),
        j < best@.len(),
        best@[j as int] as int == best_cost(inp, j as int),
    ensures
        r as int == best_cost(inp, j as int) + inp.trans_cost(i as int, j as int),
{
    proof {
        lemma_cap_small(inp);
        lemma_best_small(inp, j as int);
        lemma_trans_bounds(inp, i as int, j as int);
        lemma_hamming_bounds(inp.hashes[i as int], inp.hashes[j as int]);
        lemma_mul_upper_bound(
            hamming(inp.hashes[i as int], inp.hashes[j as int]),
            DP_SIZE_CAP as int,
            inp.pden,
            DP_SIZE_CAP as int,
        );
        lemma_mul_upper_bound(inp.pnum, DP_SIZE_CAP as int, inp.bits, DP_SIZE_CAP as int);
        lemma_mul_nonnegative(inp.pnum, inp.bits);
        lemma_mul_upper_bound(
            inp.pnum * inp.bits,
            0x1000_0000_0000_0000int,
            i - j - 1,
            DP_SIZE_CAP as int,
        );
        lemma_mul_nonnegative(inp.pnum * inp.bits, i - j - 1);
        lemma_mul_nonnegative(hamming(inp.hashes[i as int], inp.hashes[j as int]), inp.pden);
    }
    let ham: usize = hamming_distance(&hashes[i], &hashes[j]);
    let hp: u128 = (ham as u128) * (cfg.penalty_den as u128);
    let gap: u128 = (i - j - 1) as u128;
    let pterm: u128 = ((cfg.penalty_num as u128) * (bits as u128)) * gap;
    best[j] + (hp + pterm)
}

/// The integer values of an index vector.
pub open spec fn usize_views(s: Seq<usize>) -> Seq<int> {
    s.map_values(|u: usize| u as int)
}

/// Choose the frame order: the admissible strictly increasing index
/// subsequence from frame 0 to the last frame with the least accumulated
/// cost, computed by the bounded-lookahead dynamic program and read back
/// through its predecessor table. A single frame yields the trivial
/// single-index order.
#[verifier::loop_isolation(false)]
pub fn optimize(hashes: &Vec<FrameHash>, cfg: OptimizerConfig) -> (r: Result<
    Vec<usize>,
    OptimizeError,
>)
    ensures
        r is Err <==> optimize_check(hash_views(hashes@), cfg) is Some,
        r is Err ==> r->Err_0 == optimize_check(hash_views(hashes@), cfg)->Some_0,
        r is Ok ==> ({
            let order = r->Ok_0@;
            let inp = dp_input(hash_views(hashes@), cfg);
            &&& usize_views(order) == chain(inp, inp.n() - 1)
            &&& order.len() >= 1
            &&& order[0] == 0
            &&& order[order.len() - 1] + 1 == hashes@.len()
            &&& forall|k: int|
                0 <= k < order.len() - 1 ==> #[trigger] order[k] < order[k + 1] && order[k + 1]
                    - order[k] <= cfg.lookahead
        }),
{
    let ghost inp = dp_input(hash_views(hashes@), cfg);
    if cfg.lookahead < 1 || cfg.penalty_den < 1 {
        return Err(OptimizeError::BadConfig);
    }
    let n = hashes.len();
    if n == 0 {
        return Err(OptimizeError::EmptyInput);
    }
    let bits = hashes[0].bits.len();
    if bits == 0 {
        return Err(OptimizeError::ZeroLengthHash);
    }
    let mut i: usize = 1;
    while i < n
        invariant
            1 <= i <= n,
            forall|t: int| 0 <= t < i ==> hash_views(hashes@)[t].len() == bits,
        decreases n - i,
    {
        if hashes[i].bits.len() != bits {
            proof {
                assert(hash_views(hashes@)[i as int].len() != hash_views(hashes@)[0].len());
            }
            return Err(OptimizeError::MismatchedHashLengths);
        }
        i = i + 1;
    }
    if n as u64 > DP_SIZE_CAP || bits as u64 > DP_SIZE_CAP || cfg.penalty_num > DP_SIZE_CAP
        || cfg.penalty_den > DP_SIZE_CAP {
        return Err(OptimizeError::CostOutOfRange);
    }
    proof {
        assert(inp.wf());
    }

    let mut best: Vec<u128> = Vec::new();
    let mut pred_v: Vec<usize> = Vec::new();
    best.push(0);
    pred_v.push(0);
    let mut i: usize = 1;
    while i < n
        invariant
            1 <= i <= n,
            best@.len() == i as int,
            pred_v@.len() == i as int,
            forall|t: int| 0 <= t < i ==> #[trigger] best@[t] as int == best_cost(inp, t),
            forall|t: int|
                1 <= t < i ==> #[trigger] pred_v@[t] as int == pred(inp, t) && pred_v@[t] < t,
        decreases n - i,
    {
        let lo: usize = if i > cfg.lookahead {
            i - cfg.lookahead
        } else {
            0
        };
        proof {
            assert(lo as int == inp.lo(i as int));
        }
        let mut bcost: u128 = cand_cost(hashes, &best, i, i - 1, bits, cfg, Ghost(inp));
        let mut bj: usize = i - 1;
        let mut j: usize = i - 1;
        proof {
            assert(bcost as int == scan_min(inp, i as int, i as int - 1));
            assert(bj as int == scan_pred(inp, i as int, i as int - 1));
        }
        while j > lo
            invariant
                lo <= j <= i - 1,
                bcost as int == scan_min(inp, i as int, j as int),
                bj as int == scan_pred(inp, i as int, j as int),
                lo <= bj <= i - 1,
            decreases j,
        {
            j = j - 1;
            let c = cand_cost(hashes, &best, i, j, bits, cfg, Ghost(inp));
            if c < bcost {
                bcost = c;
                bj = j;
            }
        }
        proof {
            assert(bcost as int == best_cost(inp, i as int));
            assert(bj as int == pred(inp, i as int));
            lemma_scan_pred_range(inp, i as int, inp.lo(i as int));
        }
        best.push(bcost);
        pred_v.push(bj);
        i = i + 1;
    }

    let mut out: Vec<usize> = Vec::new();
    let mut cur: usize = n - 1;
    while cur != 0
        invariant
            0 <= cur < n,
            chain(inp, inp.n() - 1) =~= chain(inp, cur as int) + usize_views(out@),
        decreases cur,
    {
        let ghost before = out@;
        out.insert(0, cur);
        proof {
            assert(usize_views(out@) =~= seq![cur as int] + usize_views(before));
            lemma_scan_pred_range(inp, cur as int, inp.lo(cur as int));
            assert(chain(inp, cur as int) == chain(inp, pred(inp, cur as int)) + seq![
                cur as int,
            ]);
            assert(chain(inp, pred(inp, cur as int)) + (seq![cur as int] + usize_views(before))
                =~= (chain(inp, pred(inp, cur as int)) + seq![cur as int]) + usize_views(before));
        }
        cur = pred_v[cur];
    }
    let ghost before = out@;
    out.insert(0, 0);
    proof {
        assert(usize_views(out@) =~= seq![0int] + usize_views(before));
        assert(chain(inp, 0) == seq![0int]);
        assert(usize_views(out@) =~= chain(inp, inp.n() - 1));
        lemma_chain_props(inp, inp.n() - 1);
        let c = chain(inp, inp.n() - 1);
        assert forall|k: int| 0 <= k < out@.len() implies #[trigger] out@[k] as int == c[k] by {
            assert(usize_views(out@)[k] == c[k]);
        }
    }
    Ok(out)
}

/// An admissible frame order: it starts at frame 0, increases strictly, and
/// never advances further than the lookahead window in one step.
pub open spec fn is_admissible(inp: DpInput, p: Seq<int>) -> bool {
    &&& p.len() >= 1
    &&& p.first() == 0
    &&& forall|k: int| 0 <= k < p.len() - 1 ==> #[trigger] p[k] < p[k + 1] && p[k + 1] - p[k] <= inp.la
}

/// The accumulated scaled cost of a frame order: the sum of its transition
/// costs; a single frame costs nothing.
pub open spec fn path_cost(inp: DpInput, p: Seq<int>) -> int
    decreases p.len(),
{
    if p.len() <= 1 {
        0
    } else {
        path_cost(inp, p.drop_last()) + inp.trans_cost(p.last(), p[p.len() - 2])
    }
}

/// The order the program returns accumulates exactly the best cost of its
/// final frame.
pub proof fn lemma_chain_cost(inp: DpInput, i: int)
    requires
        inp.la >= 1,
        0 <= i,
    ensures
        path_cost(inp, chain(inp, i)) == best_cost(inp, i),
    decreases i,
{
    if i > 0 {
        lemma_scan_pred_range(inp, i, inp.lo(i));
        let p = pred(inp, i);
        lemma_chain_props(inp, p);
        lemma_chain_cost(inp, p);
        let c = chain(inp, i);
        assert(c.drop_last() =~= chain(inp, p));
        assert(c[c.len() - 2] == chain(inp, p).last());
    }
}

/// Law: the returned order is optimal. No admissible frame order ending at
/// the same frame accumulates a smaller scaled cost than the chain the
/// program chooses.
pub proof fn lemma_chain_is_optimal(inp: DpInput, p: Seq<int>)
    requires
        inp.la >= 1,
        is_admissible(inp, p),
        p.last() == inp.n() - 1,
        inp.n() >= 1,
    ensures
        path_cost(inp, p) >= path_cost(inp, chain(inp, inp.n() - 1)),
        is_admissible(inp, chain(inp, inp.n() - 1)),
{
    lemma_chain_cost(inp, inp.n() - 1);
    lemma_path_cost_min(inp, p, inp.n() - 1);
    lemma_chain_props(inp, inp.n() - 1);
}

/// Any admissible order ending at frame `i` costs at least the best cost of
/// `i`: its second-to-last frame is a window candidate of `i`, so the scan
/// that defines the best cost considered it.
proof fn lemma_path_cost_min(inp: DpInput, p: Seq<int>, i: int)
    requires
        inp.la >= 1,
        is_admissible(inp, p),
        p.last() == i,
    ensures
        path_cost(inp, p) >= best_cost(inp, i),
    decreases p.len(),
{
    lemma_admissible_nonneg(inp, p);
    if p.len() == 1 {
        assert(i == 0);
    } else {
        let q = p.drop_last();
        let j = p[p.len() - 2];
        assert(q.last() == j);
        assert(is_admissible(inp, q)) by {
            assert(q.first() == p.first());
            assert forall|k: int| 0 <= k < q.len() - 1 implies #[trigger] q[k] < q[k + 1] && q[k
                + 1] - q[k] <= inp.la by {
                assert(q[k] == p[k] && q[k + 1] == p[k + 1]);
            }
        }
        lemma_path_cost_min(inp, q, j);
        assert(j < i && i - j <= inp.la);
        assert(inp.lo(i) <= j <= i - 1);
        lemma_scan_pred_range(inp, i, inp.lo(i));
        assert(scan_min(inp, i, inp.lo(i)) <= best_cost(inp, j) + inp.trans_cost(i, j));
    }
}

/// Every frame of an admissible order is at least frame 0.
proof fn lemma_admissible_nonneg(inp: DpInput, p: Seq<int>)
    requires
        is_admissible(inp, p),
    ensures
        forall|k: int| 0 <= k < p.len() ==> 0 <= #[trigger] p[k],
        p.last() >= 0,
    decreases p.len(),
{
    if p.len() > 1 {
        lemma_admissible_nonneg(inp, p.drop_last());
        assert forall|k: int| 0 <= k < p.len() implies 0 <= #[trigger] p[k] by {
            if k < p.len() - 1 {
                assert(p.drop_last()[k] == p[k]);
            } else {
                assert(p[k - 1] < p[k] && 0 <= p.drop_last()[k - 1]);
            }
        }
    }
}

/// With every hash identical, reaching any frame in the window costs
/// nothing, and the chosen predecessor is always the immediately preceding
/// frame: stepping to it is free, while skipping costs the per-frame
/// penalty, and even a free skip loses the tie to the nearer candidate.
proof fn lemma_ident_scan(inp: DpInput, i: int, j: int)
    requires
        inp.wf(),
        forall|t: int| 0 <= t < inp.n() ==> #[trigger] inp.hashes[t] == inp.hashes[0],
        1 <= i < inp.n(),
        0 <= j <= i - 1,
    ensures
        scan_min(inp, i, j) == 0,
        scan_pred(inp, i, j) == i - 1,
    decreases i, i - j,
{
    lemma_ident_best(inp, i - 1);
    lemma_hamming_self(inp.hashes[i], inp.hashes[i - 1]);
    if j < i - 1 {
        lemma_ident_best(inp, j);
        lemma_hamming_self(inp.hashes[i], inp.hashes[j]);
        lemma_ident_scan(inp, i, j + 1);
        lemma_mul_nonnegative(inp.pnum, inp.bits);
        lemma_mul_nonnegative(inp.pnum * inp.bits, i - j - 1);
    }
}

/// With every hash identical, every frame is reached at zero cost.
proof fn lemma_ident_best(inp: DpInput, i: int)
    requires
        inp.wf(),
        forall|t: int| 0 <= t < inp.n() ==> #[trigger] inp.hashes[t] == inp.hashes[0],
        0 <= i < inp.n(),
    ensures
        best_cost(inp, i) == 0,
    decreases i, i - inp.lo(i) + 1int,
{
    if i > 0 {
        lemma_ident_scan(inp, i, inp.lo(i));
    }
}

proof fn lemma_ident_chain(inp: DpInput, i: int)
    requires
        inp.wf(),
        forall|t: int| 0 <= t < inp.n() ==> #[trigger] inp.hashes[t] == inp.hashes[0],
        0 <= i < inp.n(),
    ensures
        chain(inp, i) =~= Seq::new((i + 1) as nat, |k: int| k),
    decreases i,
{
    if i > 0 {
        lemma_ident_scan(inp, i, inp.lo(i));
        lemma_ident_chain(inp, i - 1);
    }
}

/// Law: on an all-identical-hash input the optimizer keeps every frame and
/// returns the order `0, 1, ..., n-1`. The zero-cost transition to the
/// immediate predecessor dominates any skip, whatever the skip penalty.
pub proof fn lemma_identical_hashes_keep_all(inp: DpInput)
    requires
        inp.wf(),
        forall|t: int| 0 <= t < inp.n() ==> #[trigger] inp.hashes[t] == inp.hashes[0],
    ensures
        chain(inp, inp.n() - 1) == Seq::new(inp.n() as nat, |k: int| k),
{
    lemma_ident_chain(inp, inp.n() - 1);
    assert(chain(inp, inp.n() - 1) =~= Seq::new(inp.n() as nat, |k: int| k));
}

/// Window scans inherit the bounds of the best costs they combine.
pub proof fn lemma_scan_bounds(inp: DpInput, i: int, j: int)
    requires
        inp.wf(),
        1 <= i < inp.n(),
        0 <= j <= i - 1,
    ensures
        0 <= scan_min(inp, i, j),
        scan_min(inp, i, j) <= (i - 1) * inp.trans_cap() + inp.trans_cap(),
    decreases i, i - j,
{
    lemma_trans_bounds(inp, i, i - 1);
    lemma_best_cost_bounds(inp, i - 1);
    lemma_mul_nonnegative(i - 1, inp.trans_cap());
    if !(j >= i - 1 || j < 0) {
        lemma_trans_bounds(inp, i, j);
        lemma_best_cost_bounds(inp, j);
        lemma_scan_bounds(inp, i, j + 1);
        assert(j * inp.trans_cap() <= (i - 1) * inp.trans_cap()) by {
            lemma_mul_inequality(j, i - 1, inp.trans_cap());
        }
    }
}

} // verus!
