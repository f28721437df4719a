//! The similarity scorer: an exact mean-squared-error dissimilarity between
//! two equally sized pixel regions.
//!
//! The metric of record is the mean squared error over all three colour
//! channels: for each coordinate the sum of squared per-channel differences is
//! divided by the channel count, accumulated over the region, and divided by
//! the pixel count.  A [`Score`] keeps that value exactly as the rational
//! `num / (3 * area)` by storing the raw squared-difference sum `num` and the
//! pixel count `area`; comparisons are exact rational comparisons, so no
//! rounding can reorder two candidates.

use vstd::arithmetic::div_mod::{lemma_fundamental_div_mod, lemma_mod_bound};
use vstd::arithmetic::mul::lemma_mul_inequality;
use vstd::prelude::*;

use crate::pixel::{BufView, Pixel, PixelBuffer};

verus! {

/// The sum of squared per-channel differences of two samples.
pub open spec fn sqd(p: Pixel, q: Pixel) -> int {
    (p.r - q.r) * (p.r - q.r) + (p.g - q.g) * (p.g - q.g) + (p.b - q.b) * (p.b - q.b)
}

/// The largest value `sqd` can take: three channels, each differing by 255.
pub const MAX_SQD: u32 = 195075;

/// Squared-difference sum of samples `i..j` of two row-major stores.
pub open spec fn psum(a: Seq<Pixel>, b: Seq<Pixel>, i: int, j: int) -> int
    decreases j - i,
{
    if i >= j {
        0
    } else {
        psum(a, b, i, j - 1) + sqd(a[j - 1], b[j - 1])
    }
}

/// Squared-difference sum of the rows `y0..y1` of two buffers of equal width.
pub open spec fn row_sq_sum(a: BufView, b: BufView, y0: int, y1: int) -> int {
    psum(a.pixels, b.pixels, y0 * a.width, y1 * a.width)
}

/// A dissimilarity score; lower means more similar.
///
/// `Mse { num, area }` stands for the exact mean squared error
/// `num / (3 * area)`.  `Mismatch` is the sentinel for regions of differing
/// dimensions; it compares above every measured score, so a mismatched
/// candidate simply loses the matching round.
#[derive(Clone, Copy, PartialEq, Eq, Structural, Debug)]
pub enum Score {
    Mismatch,
    Mse { num: u128, area: u64 },
}

/// What comparing two regions yields: the sentinel on any dimension mismatch,
/// otherwise the exact squared-difference sum over the whole region together
/// with the pixel count.
pub open spec fn score_spec(a: BufView, b: BufView) -> Score {
    if a.width != b.width || a.height != b.height {
        Score::Mismatch
    } else {
        Score::Mse {
            num: psum(a.pixels, b.pixels, 0, (a.width * a.height) as int) as u128,
            area: (a.width * a.height) as u64,
        }
    }
}

/// Strict order on scores: measured scores compare as the exact rationals
/// `num / area` (cross-multiplied), and the mismatch sentinel sits above
/// every measured score.
pub open spec fn spec_score_lt(s1: Score, s2: Score) -> bool {
    match (s1, s2) {
        (Score::Mismatch, _) => false,
        (Score::Mse { .. }, Score::Mismatch) => true,
        (Score::Mse { num: n1, area: a1 }, Score::Mse { num: n2, area: a2 }) => n1 * a2 < n2
            * a1,
    }
}

/// Each squared-difference term lies between 0 and `MAX_SQD`.
pub proof fn lemma_sqd_bounds(p: Pixel, q: Pixel)
    by (nonlinear_arith)
    ensures
        0 <= sqd(p, q) <= MAX_SQD,
{
}

/// A partial sum of squared differences lies between 0 and
/// `MAX_SQD * (j - i)`.
pub proof fn lemma_psum_bounds(a: Seq<Pixel>, b: Seq<Pixel>, i: int, j: int)
    requires
        i <= j,
    ensures
        0 <= psum(a, b, i, j) <= MAX_SQD * (j - i),
    decreases j - i,
{
    if i < j {
        lemma_psum_bounds(a, b, i, j - 1);
        lemma_sqd_bounds(a[j - 1], b[j - 1]);
        assert(MAX_SQD * (j - 1 - i) + MAX_SQD == MAX_SQD * (j - i)) by (nonlinear_arith);
    }
}

/// Splitting a squared-difference accumulation at any point and adding the
/// partial sums gives exactly the unpartitioned sum.
pub proof fn lemma_psum_split(a: Seq<Pixel>, b: Seq<Pixel>, i: int, j: int, k: int)
    requires
        i <= j <= k,
    ensures
        psum(a, b, i, k) == psum(a, b, i, j) + psum(a, b, j, k),
    decreases k - j,
{
    if j < k {
        lemma_psum_split(a, b, i, j, k - 1);
    }
}

/// Computes `sqd` exactly in integer arithmetic.
fn sqd_exec(p: Pixel, q: Pixel) -> (d: u32)
    ensures
        d == sqd(p, q),
{
    let dr: i32 = p.r as i32 - q.r as i32;
    let dg: i32 = p.g as i32 - q.g as i32;
    let db: i32 = p.b as i32 - q.b as i32;
    proof {
        assert(dr * dr + dg * dg + db * db == sqd(p, q) && 0 <= dr * dr <= 65025 && 0 <= dg * dg
            <= 65025 && 0 <= db * db <= 65025) by (nonlinear_arith)
            requires
                dr == p.r - q.r,
                dg == p.g - q.g,
                db == p.b - q.b,
        ;
    }
    (dr * dr + dg * dg + db * db) as u32
}

/// Mean-squared-error comparison of two buffers: the scorer of record.
///
/// Regions of differing dimensions yield the mismatch sentinel; otherwise the
/// exact squared-difference sum over the whole region is returned together
/// with the pixel count.
pub fn compare_images_mse(reference_image: &PixelBuffer, test_image: &PixelBuffer) -> (s: Score)
    requires
        reference_image@.wf(),
        test_image@.wf(),
    ensures
        s == score_spec(reference_image@, test_image@),
{
    if reference_image.width() != test_image.width() || reference_image.height()
        != test_image.height() {
        return Score::Mismatch;
    }
    let sum = sq_diff_rows(reference_image, test_image, 0, reference_image.height());
    proof {
        assert(reference_image@.height * reference_image@.width == reference_image@.width
            * reference_image@.height && reference_image@.width * reference_image@.height
            <= u64::MAX) by (nonlinear_arith)
            requires
                reference_image@.width <= u32::MAX,
                reference_image@.height <= u32::MAX,
        ;
    }
    let area: u64 = (reference_image.width() as u64) * (reference_image.height() as u64);
    Score::Mse { num: sum, area }
}

/// The squared-difference sum over the row range `start_y..end_y` of two
/// equally sized buffers; row ranges partition the full computation exactly.
pub fn sq_diff_rows(
    reference_image: &PixelBuffer,
    test_image: &PixelBuffer,
    start_y: u32,
    end_y: u32,
) -> (sum: u128)
    requires
        reference_image@.wf(),
        test_image@.wf(),
        reference_image@.width == test_image@.width,
        reference_image@.height == test_image@.height,
        start_y <= end_y <= reference_image@.height,
    ensures
        sum == row_sq_sum(reference_image@, test_image@, start_y as int, end_y as int),
        sum <= MAX_SQD * ((end_y - start_y) * reference_image@.width),
{
    let w: u64 = reference_image.width() as u64;
    let ghost av = reference_image@;
    let ghost bv = test_image@;
    proof {
        lemma_mul_inequality(start_y as int, end_y as int, w as int);
        lemma_mul_inequality(end_y as int, av.height as int, w as int);
        assert(av.height * (w as int) <= u64::MAX) by (nonlinear_arith)
            requires
                av.height <= u32::MAX,
                w <= u32::MAX,
        ;
        assert(av.height * (w as int) == av.width * av.height) by (nonlinear_arith)
            requires
                w == av.width,
        ;
    }
    let s: u64 = (start_y as u64) * w;
    let e: u64 = (end_y as u64) * w;
    let mut sum: u128 = 0;
    let mut k: u64 = s;
    while k < e
        invariant
            av == reference_image@,
            bv == test_image@,
            av.wf(),
            bv.wf(),
            av.width == bv.width,
            av.height == bv.height,
            w == av.width,
            s == start_y * (w as int),
            e == end_y * (w as int),
            s <= k <= e,
            e <= av.pixels.len(),
            sum == psum(av.pixels, bv.pixels, s as int, k as int),
            sum <= MAX_SQD * (k - s),
        decreases e - k,
    {
        let p = buf_at(reference_image, k);
        let q = buf_at(test_image, k);
        let d = sqd_exec(p, q);
        proof {
            lemma_sqd_bounds(p, q);
            assert(MAX_SQD * (k - s) + MAX_SQD == MAX_SQD * (k + 1 - s)) by (nonlinear_arith);
            assert(MAX_SQD * (k + 1 - s) <= MAX_SQD * (e - s)) by {
                lemma_mul_inequality(k + 1 - s, e - s, MAX_SQD as int);
                assert(MAX_SQD * (k + 1 - s) == (k + 1 - s) * MAX_SQD) by (nonlinear_arith);
                assert(MAX_SQD * (e - s) == (e - s) * MAX_SQD) by (nonlinear_arith);
            }
            assert(MAX_SQD * (e - s) < u128::MAX) by (nonlinear_arith)
                requires
                    0 <= e - s <= u64::MAX,
            ;
        }
        sum = sum + (d as u128);
        k = k + 1;
    }
    proof {
        assert(e - s == (end_y - start_y) * (w as int)) by (nonlinear_arith)
            requires
                s == start_y * (w as int),
                e == end_y * (w as int),
        ;
        assert(MAX_SQD * ((k - s) as int) <= MAX_SQD * ((e - s) as int)) by (nonlinear_arith)
            requires
                k <= e,
                s <= k,
        ;
    }
    sum
}

/// Rational comparison by long division: for nonnegative numerators and
/// positive denominators, the cross-multiplied order of two fractions agrees
/// with comparing quotients first and cross-multiplied remainders second.
proof fn lemma_rational_lt(n1: int, a1: int, n2: int, a2: int)
    requires
        n1 >= 0,
        n2 >= 0,
        a1 > 0,
        a2 > 0,
    ensures
        (n1 * a2 < n2 * a1) <==> (n1 / a1 < n2 / a2 || (n1 / a1 == n2 / a2 && (n1 % a1) * a2 < (n2
            % a2) * a1)),
{
    let q1 = n1 / a1;
    let r1 = n1 % a1;
    let q2 = n2 / a2;
    let r2 = n2 % a2;
    lemma_fundamental_div_mod(n1, a1);
    lemma_mod_bound(n1, a1);
    lemma_fundamental_div_mod(n2, a2);
    lemma_mod_bound(n2, a2);
    assert((n1 * a2 < n2 * a1) <==> (q1 < q2 || (q1 == q2 && r1 * a2 < r2 * a1)))
        by (nonlinear_arith)
        requires
            n1 == a1 * q1 + r1,
            0 <= r1 < a1,
            n2 == a2 * q2 + r2,
            0 <= r2 < a2,
            a1 > 0,
            a2 > 0,
    ;
}

/// Decides the strict score order exactly.
pub fn score_lt(s1: &Score, s2: &Score) -> (r: bool)
    ensures
        r == spec_score_lt(*s1, *s2),
{
    match (s1, s2) {
        (Score::Mismatch, _) => false,
        (Score::Mse { .. }, Score::Mismatch) => true,
        (Score::Mse { num: n1, area: a1 }, Score::Mse { num: n2, area: a2 }) => {
            if *a1 == 0 {
                proof {
                    assert((*n1 as int) * (*a2 as int) >= 0 && (*n2 as int) * 0 == 0)
                        by (nonlinear_arith)
                        requires
                            *n1 >= 0,
                            *a2 >= 0,
                    ;
                }
                false
            } else if *a2 == 0 {
                proof {
                    assert((*n1 as int) * 0 == 0 && (0 < (*n2 as int) * (*a1 as int) <==> *n2 > 0))
                        by (nonlinear_arith)
                        requires
                            *n2 >= 0,
                            *a1 > 0,
                    ;
                }
                *n2 > 0
            } else {
                let d1 = *a1 as u128;
                let d2 = *a2 as u128;
                let q1 = *n1 / d1;
                let r1 = *n1 % d1;
                let q2 = *n2 / d2;
                let r2 = *n2 % d2;
                proof {
                    lemma_rational_lt(*n1 as int, d1 as int, *n2 as int, d2 as int);
                    assert(r1 * d2 <= u128::MAX && r2 * d1 <= u128::MAX) by (nonlinear_arith)
                        requires
                            0 <= r1 < d1,
                            0 <= r2 < d2,
                            d1 <= u64::MAX,
                            d2 <= u64::MAX,
                    ;
                }
                q1 < q2 || (q1 == q2 && r1 * d2 < r2 * d1)
            }
        },
    }
}

/// Mean-squared-error comparison computed over row-range partitions: the
/// height is split into `num_chunks` ranges that are scored independently and
/// whose partial sums are added.  Whatever the granularity, the result equals
/// the unpartitioned comparison, because the metric is a linear reduction
/// over independent per-sample terms.
pub fn parallel_mse(reference_image: &PixelBuffer, test_image: &PixelBuffer, num_chunks: u32) -> (s:
    Score)
    requires
        reference_image@.wf(),
        test_image@.wf(),
        num_chunks >= 1,
    ensures
        s == score_spec(reference_image@, test_image@),
{
    if reference_image.width() != test_image.width() || reference_image.height()
        != test_image.height() {
        return Score::Mismatch;
    }
    let ghost av = reference_image@;
    let ghost bv = test_image@;
    let w: u64 = reference_image.width() as u64;
    let h: u32 = reference_image.height();
    let chunk_size: u32 = h / num_chunks;
    proof {
        lemma_fundamental_div_mod(h as int, num_chunks as int);
        lemma_mod_bound(h as int, num_chunks as int);
        assert(num_chunks * chunk_size <= h);
    }
    let mut sum: u128 = 0;
    let mut covered: u32 = 0;
    let mut i: u32 = 0;
    while i < num_chunks
        invariant
            av == reference_image@,
            bv == test_image@,
            av.wf(),
            bv.wf(),
            av.width == bv.width,
            av.height == bv.height,
            w == av.width,
            h == av.height,
            num_chunks >= 1,
            chunk_size == h as int / num_chunks as int,
            num_chunks * chunk_size <= h,
            i <= num_chunks,
            covered <= h,
            i < num_chunks ==> covered == i * chunk_size,
            i == num_chunks ==> covered == h,
            sum == row_sq_sum(av, bv, 0, covered as int),
        decreases num_chunks - i,
    {
        let y0: u32 = covered;
        let y1: u32 = if i == num_chunks - 1 {
            h
        } else {
            proof {
                assert((i + 1) * chunk_size <= num_chunks * chunk_size) by (nonlinear_arith)
                    requires
                        i + 1 <= num_chunks,
                        chunk_size >= 0,
                ;
                assert(i * chunk_size + chunk_size == (i + 1) * chunk_size) by (nonlinear_arith);
            }
            covered + chunk_size
        };
        let part = sq_diff_rows(reference_image, test_image, y0, y1);
        proof {
            lemma_mul_inequality(y0 as int, y1 as int, w as int);
            lemma_mul_inequality(y1 as int, h as int, w as int);
            lemma_psum_bounds(av.pixels, bv.pixels, 0, (y1 as int) * (w as int));
            lemma_psum_split(
                av.pixels,
                bv.pixels,
                0,
                (y0 as int) * (w as int),
                (y1 as int) * (w as int),
            );
            assert(MAX_SQD * ((y1 as int) * (w as int)) < u128::MAX) by (nonlinear_arith)
                requires
                    0 <= y1 <= u32::MAX,
                    0 <= w <= u32::MAX,
            ;
        }
        sum = sum + part;
        covered = y1;
        i = i + 1;
    }
    proof {
        assert((h as int) * (w as int) == av.width * av.height && av.width * av.height <= u64::MAX)
            by (nonlinear_arith)
            requires
                w == av.width,
                h == av.height,
                av.width <= u32::MAX,
                av.height <= u32::MAX,
        ;
        lemma_psum_bounds(av.pixels, bv.pixels, 0, (av.width * av.height) as int);
    }
    let area: u64 = (reference_image.width() as u64) * (reference_image.height() as u64);
    Score::Mse { num: sum, area }
}

/// Exact pixel-for-pixel equality of two buffers: true only when both the
/// dimensions and every sample agree.
pub fn compare_images_px(reference_image: &PixelBuffer, test_image: &PixelBuffer) -> (r: bool)
    requires
        reference_image@.wf(),
        test_image@.wf(),
    ensures
        r == (reference_image@.width == test_image@.width && reference_image@.height
            == test_image@.height && reference_image@.pixels =~= test_image@.pixels),
{
    if reference_image.width() != test_image.width() || reference_image.height()
        != test_image.height() {
        return false;
    }
    let ghost av = reference_image@;
    let ghost bv = test_image@;
    let w: u64 = reference_image.width() as u64;
    let h: u64 = reference_image.height() as u64;
    proof {
        assert(av.width * av.height <= u64::MAX) by (nonlinear_arith)
            requires
                av.width <= u32::MAX,
                av.height <= u32::MAX,
        ;
    }
    let total: u64 = w * h;
    let mut k: u64 = 0;
    while k < total
        invariant
            av == reference_image@,
            bv == test_image@,
            av.wf(),
            bv.wf(),
            av.width == bv.width,
            av.height == bv.height,
            total == av.width * av.height,
            k <= total,
            forall|m: int| 0 <= m < k ==> av.pixels[m] == bv.pixels[m],
        decreases total - k,
    {
        let p = buf_at(reference_image, k);
        let q = buf_at(test_image, k);
        if p.r != q.r || p.g != q.g || p.b != q.b {
            return false;
        }
        k = k + 1;
    }
    proof {
        assert(av.pixels =~= bv.pixels);
    }
    true
}

/// Scorer identity: comparing any region with an identical copy of itself
/// yields a measured score of exactly zero.
pub proof fn lemma_score_identity(a: BufView)
    ensures
        score_spec(a, a) == (Score::Mse { num: 0, area: (a.width * a.height) as u64 }),
{
    lemma_psum_refl(a.pixels, 0, (a.width * a.height) as int);
}

pub proof fn lemma_psum_refl(a: Seq<Pixel>, i: int, j: int)
    ensures
        psum(a, a, i, j) == 0,
    decreases j - i,
{
    if i < j {
        lemma_psum_refl(a, i, j - 1);
        assert(sqd(a[j - 1], a[j - 1]) == 0) by (nonlinear_arith);
    }
}

/// Scorer symmetry: comparing two regions gives the same score in either
/// order.
pub proof fn lemma_score_symmetry(a: BufView, b: BufView)
    ensures
        score_spec(a, b) == score_spec(b, a),
{
    if a.width == b.width && a.height == b.height {
        lemma_psum_sym(a.pixels, b.pixels, 0, (a.width * a.height) as int);
    }
}

proof fn lemma_psum_sym(a: Seq<Pixel>, b: Seq<Pixel>, i: int, j: int)
    ensures
        psum(a, b, i, j) == psum(b, a, i, j),
    decreases j - i,
{
    if i < j {
        lemma_psum_sym(a, b, i, j - 1);
        assert(sqd(a[j - 1], b[j - 1]) == sqd(b[j - 1], a[j - 1])) by (nonlinear_arith);
    }
}

/// Scorer monotonicity in a constant offset: two regions whose samples differ
/// by the same offset `delta` in every channel score as
/// `num == 3 * delta^2 * area` over `area` pixels, so the mean squared error
/// `num / (3 * area)` is exactly `delta^2`.
pub proof fn lemma_score_offset(a: BufView, b: BufView, delta: int)
    requires
        a.wf(),
        b.wf(),
        a.width == b.width,
        a.height == b.height,
        forall|k: int|
            0 <= k < a.pixels.len() ==> (b.pixels[k].r == a.pixels[k].r + delta && b.pixels[k].g
                == a.pixels[k].g + delta && b.pixels[k].b == a.pixels[k].b + delta),
    ensures
        score_spec(a, b) == (Score::Mse {
            num: (3 * delta * delta * (a.width * a.height)) as u128,
            area: (a.width * a.height) as u64,
        }),
{
    let area = (a.width * a.height) as int;
    lemma_psum_offset(a.pixels, b.pixels, delta, 0, area);
    if area > 0 {
        assert(b.pixels[0].r == a.pixels[0].r + delta);
        assert(a.width * a.height <= 0xffff_ffff_ffff_ffff) by (nonlinear_arith)
            requires
                a.width <= u32::MAX,
                a.height <= u32::MAX,
        ;
        assert(0 <= 3 * delta * delta * area < u128::MAX) by (nonlinear_arith)
            requires
                -255 <= delta <= 255,
                0 < area <= 0xffff_ffff_ffff_ffff,
        ;
    } else {
        assert(3 * delta * delta * area == 0) by (nonlinear_arith)
            requires
                area == 0,
        ;
    }
}

proof fn lemma_psum_offset(a: Seq<Pixel>, b: Seq<Pixel>, delta: int, i: int, j: int)
    requires
        0 <= i <= j,
        j <= a.len(),
        forall|k: int|
            0 <= k < a.len() ==> (b[k].r == a[k].r + delta && b[k].g == a[k].g + delta && b[k].b
                == a[k].b + delta),
    ensures
        psum(a, b, i, j) == 3 * delta * delta * (j - i),
    decreases j - i,
{
    if i >= j {
        assert(3 * delta * delta * (j - i) == 0) by (nonlinear_arith)
            requires
                j == i,
        ;
    } else {
        lemma_psum_offset(a, b, delta, i, j - 1);
        assert(sqd(a[j - 1], b[j - 1]) == 3 * delta * delta) by (nonlinear_arith)
            requires
                b[j - 1].r == a[j - 1].r + delta,
                b[j - 1].g == a[j - 1].g + delta,
                b[j - 1].b == a[j - 1].b + delta,
        ;
        assert(3 * delta * delta * (j - 1 - i) + 3 * delta * delta == 3 * delta * delta * (j - i))
            by (nonlinear_arith);
    }
}

/// A squared-difference sum of zero means the two stores agree sample for
/// sample over the summed range.
pub proof fn lemma_psum_zero(a: Seq<Pixel>, b: Seq<Pixel>, i: int, j: int)
    requires
        i <= j,
        psum(a, b, i, j) == 0,
    ensures
        forall|m: int| i <= m < j ==> a[m] == b[m],
    decreases j - i,
{
    if i < j {
        lemma_psum_bounds(a, b, i, j - 1);
        lemma_sqd_bounds(a[j - 1], b[j - 1]);
        lemma_psum_zero(a, b, i, j - 1);
        let p = a[j - 1];
        let q = b[j - 1];
        assert(p.r == q.r && p.g == q.g && p.b == q.b) by (nonlinear_arith)
            requires
                sqd(p, q) == 0,
        ;
    }
}

/// The strict score order is transitive.
pub proof fn lemma_score_lt_trans(s1: Score, s2: Score, s3: Score)
    requires
        spec_score_lt(s1, s2),
        spec_score_lt(s2, s3),
    ensures
        spec_score_lt(s1, s3),
{
    match (s1, s2, s3) {
        (
            Score::Mse { num: n1, area: a1 },
            Score::Mse { num: n2, area: a2 },
            Score::Mse { num: n3, area: a3 },
        ) => {
            assert((n1 as int) * (a3 as int) < (n3 as int) * (a1 as int)) by (nonlinear_arith)
                requires
                    (n1 as int) * (a2 as int) < (n2 as int) * (a1 as int),
                    (n2 as int) * (a3 as int) < (n3 as int) * (a2 as int),
                    n1 >= 0,
                    n2 >= 0,
                    n3 >= 0,
                    a1 >= 0,
                    a2 >= 0,
                    a3 >= 0,
            ;
        },
        _ => {},
    }
}

/// Partition invariance: splitting a row range at any boundary and adding the
/// partial squared-difference sums gives exactly the unpartitioned sum,
/// whatever the granularity repeated splitting produces.
pub proof fn lemma_partition_invariance(a: BufView, b: BufView, y0: int, y1: int, y2: int)
    requires
        0 <= y0 <= y1 <= y2,
    ensures
        row_sq_sum(a, b, y0, y2) == row_sq_sum(a, b, y0, y1) + row_sq_sum(a, b, y1, y2),
{
    lemma_mul_inequality(y0, y1, a.width as int);
    lemma_mul_inequality(y1, y2, a.width as int);
    lemma_psum_split(a.pixels, b.pixels, y0 * a.width, y1 * a.width, y2 * a.width);
}

/// The sample at flat row-major index `k`.
fn buf_at(buffer: &PixelBuffer, k: u64) -> (p: Pixel)
    requires
        buffer@.wf(),
        k < buffer@.pixels.len(),
    ensures
        p == buffer@.pixels[k as int],
{
    let w = buffer.width();
    proof {
        if buffer@.width == 0 {
            assert(buffer@.width * buffer@.height == 0) by (nonlinear_arith)
                requires
                    buffer@.width == 0,
            ;
            assert(false);
        }
    }
    let y: u64 = k / (w as u64);
    let x: u64 = k % (w as u64);
    proof {
        lemma_fundamental_div_mod(k as int, w as int);
        lemma_mod_bound(k as int, w as int);
        assert((k as int) / (w as int) < buffer@.height && ((k as int) / (w as int)) * (w as int) + (
        k as int) % (w as int) == ((k as int) % (w as int)) + ((k as int) / (w as int)) * (
        buffer@.width as int)) by (nonlinear_arith)
            requires
                w == buffer@.width,
                0 < w,
                k as int == (w as int) * ((k as int) / (w as int)) + (k as int) % (w as int),
                0 <= (k as int) % (w as int) < w,
                k < buffer@.width * buffer@.height,
        ;
    }
    buffer.get_pixel(x as u32, y as u32)
}

} // verus!
