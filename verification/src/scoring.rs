//! Scoring strategies for calculating opposition between participants.
//!
//! Each strategy measures how "opposite" two response vectors are and reports
//! the result as an exact fixed-point score in ten-thousandths (a raw score
//! of `10000` stands for a real score of `1.0`). The mathematical value of
//! every score is pinned down by a spec function, so callers can reason
//! about scores exactly.

use crate::ScoringStrategy;
use crate::User;
use vstd::prelude::*;

verus! {

/// The absolute difference of two answers.
pub open spec fn abs_diff(x: int, y: int) -> int {
    if x >= y {
        x - y
    } else {
        y - x
    }
}

// ============================================================================
// Simple difference
// ============================================================================

/// Sum of the absolute per-question differences of two response vectors
/// (unscaled survey units).
pub open spec fn simple_sum(a: Seq<i32>, b: Seq<i32>) -> int
    decreases a.len(),
{
    if a.len() == 0 || b.len() == 0 {
        0
    } else {
        simple_sum(a.drop_last(), b.drop_last()) + abs_diff(a.last() as int, b.last() as int)
    }
}

proof fn lemma_simple_sum_step(a: Seq<i32>, b: Seq<i32>, i: int)
    requires
        0 <= i < a.len(),
        i < b.len(),
    ensures
        simple_sum(a.take(i + 1), b.take(i + 1)) == simple_sum(a.take(i), b.take(i)) + abs_diff(
            a[i] as int,
            b[i] as int,
        ),
{
    assert(a.take(i + 1).drop_last() =~= a.take(i));
    assert(b.take(i + 1).drop_last() =~= b.take(i));
    assert(a.take(i + 1).last() == a[i]);
    assert(b.take(i + 1).last() == b[i]);
}

proof fn lemma_simple_sum_symmetric(a: Seq<i32>, b: Seq<i32>)
    ensures
        simple_sum(a, b) == simple_sum(b, a),
    decreases a.len(),
{
    if a.len() != 0 && b.len() != 0 {
        lemma_simple_sum_symmetric(a.drop_last(), b.drop_last());
    }
}

proof fn lemma_simple_sum_identical(a: Seq<i32>)
    ensures
        simple_sum(a, a) == 0,
    decreases a.len(),
{
    if a.len() != 0 {
        lemma_simple_sum_identical(a.drop_last());
    }
}

proof fn lemma_simple_sum_nonneg(a: Seq<i32>, b: Seq<i32>)
    ensures
        0 <= simple_sum(a, b),
    decreases a.len(),
{
    if a.len() != 0 && b.len() != 0 {
        lemma_simple_sum_nonneg(a.drop_last(), b.drop_last());
    }
}

proof fn lemma_simple_sum_upper(a: Seq<i32>, b: Seq<i32>)
    requires
        crate::valid_responses(a),
        crate::valid_responses(b),
    ensures
        simple_sum(a, b) <= 6 * a.len(),
    decreases a.len(),
{
    if a.len() != 0 && b.len() != 0 {
        lemma_simple_sum_upper(a.drop_last(), b.drop_last());
    }
}

/// Calculates opposition as the sum of absolute differences.
///
/// The most straightforward scoring method: for each question, subtract the
/// answers and take the absolute value, then sum. All differences count
/// equally, so the score ranges from 0 (identical) to `6 * N` survey units
/// for `N` questions (reported in ten-thousandths).
pub struct SimpleDifferenceScorer;

impl ScoringStrategy for SimpleDifferenceScorer {
    open spec fn spec_score(&self, a: Seq<i32>, b: Seq<i32>) -> int {
        simple_sum(a, b) * 10000
    }

    open spec fn compatible(&self, len: int) -> bool {
        60000 * len <= u64::MAX as int
    }

    open spec fn spec_name(&self) -> Seq<char> {
        "Simple Difference"@
    }

    fn calculate_score(&self, user1: &User, user2: &User) -> u64 {
        let n = user1.responses.len();
        let mut total: u64 = 0;
        let mut i: usize = 0;
        while i < n
            invariant
                user1.wf(),
                user2.wf(),
                n == user1.responses@.len(),
                n == user2.responses@.len(),
                60000 * n <= u64::MAX as int,
                0 <= i <= n,
                total as int == simple_sum(
                    user1.responses@.take(i as int),
                    user2.responses@.take(i as int),
                ) * 10000,
                total as int <= 60000 * i,
            decreases n - i,
        {
            let r1 = user1.responses[i];
            let r2 = user2.responses[i];
            let diff: u64 = if r1 >= r2 {
                (r1 - r2) as u64
            } else {
                (r2 - r1) as u64
            };
            proof {
                lemma_simple_sum_step(user1.responses@, user2.responses@, i as int);
            }
            total = total + diff * 10000;
            i = i + 1;
        }
        proof {
            assert(user1.responses@.take(n as int) =~= user1.responses@);
            assert(user2.responses@.take(n as int) =~= user2.responses@);
        }
        total
    }

    fn name(&self) -> &'static str {
        "Simple Difference"
    }

    proof fn lemma_symmetric(&self, a: Seq<i32>, b: Seq<i32>) {
        lemma_simple_sum_symmetric(a, b);
    }

    proof fn lemma_identical_zero(&self, a: Seq<i32>) {
        lemma_simple_sum_identical(a);
    }

    proof fn lemma_score_bounds(&self, a: Seq<i32>, b: Seq<i32>) {
        lemma_simple_sum_nonneg(a, b);
        lemma_simple_sum_upper(a, b);
    }
}

// ============================================================================
// Euclidean distance
// ============================================================================

/// Sum of the squared per-question differences of two response vectors
/// (unscaled squared survey units).
pub open spec fn square_sum(a: Seq<i32>, b: Seq<i32>) -> int
    decreases a.len(),
{
    if a.len() == 0 || b.len() == 0 {
        0
    } else {
        square_sum(a.drop_last(), b.drop_last()) + abs_diff(a.last() as int, b.last() as int)
            * abs_diff(a.last() as int, b.last() as int)
    }
}

proof fn lemma_square_sum_step(a: Seq<i32>, b: Seq<i32>, i: int)
    requires
        0 <= i < a.len(),
        i < b.len(),
    ensures
        square_sum(a.take(i + 1), b.take(i + 1)) == square_sum(a.take(i), b.take(i)) + abs_diff(
            a[i] as int,
            b[i] as int,
        ) * abs_diff(a[i] as int, b[i] as int),
{
    assert(a.take(i + 1).drop_last() =~= a.take(i));
    assert(b.take(i + 1).drop_last() =~= b.take(i));
    assert(a.take(i + 1).last() == a[i]);
    assert(b.take(i + 1).last() == b[i]);
}

proof fn lemma_square_sum_symmetric(a: Seq<i32>, b: Seq<i32>)
    ensures
        square_sum(a, b) == square_sum(b, a),
    decreases a.len(),
{
    if a.len() != 0 && b.len() != 0 {
        lemma_square_sum_symmetric(a.drop_last(), b.drop_last());
    }
}

proof fn lemma_square_sum_identical(a: Seq<i32>)
    ensures
        square_sum(a, a) == 0,
    decreases a.len(),
{
    if a.len() != 0 {
        lemma_square_sum_identical(a.drop_last());
        let d = abs_diff(a.last() as int, a.last() as int);
        assert(d == 0);
        assert(d * d == 0) by (nonlinear_arith)
            requires
                d == 0,
        ;
    }
}

proof fn lemma_square_sum_nonneg(a: Seq<i32>, b: Seq<i32>)
    ensures
        0 <= square_sum(a, b),
    decreases a.len(),
{
    if a.len() != 0 && b.len() != 0 {
        lemma_square_sum_nonneg(a.drop_last(), b.drop_last());
        let d = abs_diff(a.last() as int, b.last() as int);
        assert(0 <= d * d) by (nonlinear_arith);
    }
}

proof fn lemma_square_sum_upper(a: Seq<i32>, b: Seq<i32>)
    requires
        crate::valid_responses(a),
        crate::valid_responses(b),
    ensures
        square_sum(a, b) <= 36 * a.len(),
    decreases a.len(),
{
    if a.len() != 0 && b.len() != 0 {
        lemma_square_sum_upper(a.drop_last(), b.drop_last());
        let d = abs_diff(a.last() as int, b.last() as int);
        assert(d * d <= 36) by (nonlinear_arith)
            requires
                0 <= d <= 6,
        ;
    }
}

/// The integer square root never exceeds its argument.
proof fn lemma_sqrt_floor_le(x: int)
    requires
        0 <= x,
    ensures
        sqrt_floor(x) <= x,
{
    lemma_sqrt_floor_bounds(x);
    let s = sqrt_floor(x);
    if s >= 1 {
        assert(s <= s * s) by (nonlinear_arith)
            requires
                1 <= s,
        ;
    }
}

/// The integer square root: the largest `r` with `r * r <= x` (0 for
/// arguments below 1).
pub open spec fn sqrt_floor(x: int) -> int
    decreases x,
{
    if x < 1 {
        0
    } else {
        let r = sqrt_floor(x - 1);
        if (r + 1) * (r + 1) <= x {
            r + 1
        } else {
            r
        }
    }
}

/// `sqrt_floor(x)` is the non-negative root with
/// `r * r <= x < (r + 1) * (r + 1)`.
pub proof fn lemma_sqrt_floor_bounds(x: int)
    requires
        0 <= x,
    ensures
        0 <= sqrt_floor(x),
        sqrt_floor(x) * sqrt_floor(x) <= x,
        x < (sqrt_floor(x) + 1) * (sqrt_floor(x) + 1),
    decreases x,
{
    if x >= 1 {
        lemma_sqrt_floor_bounds(x - 1);
        let r = sqrt_floor(x - 1);
        let s = sqrt_floor(x);
        if (r + 1) * (r + 1) <= x {
            assert(s == r + 1);
            assert(x == (r + 1) * (r + 1));
            assert(x < (s + 1) * (s + 1)) by (nonlinear_arith)
                requires
                    0 <= r,
                    s == r + 1,
                    x == (r + 1) * (r + 1),
            ;
        } else {
            assert(s == r);
        }
    }
}

/// Any `r` within the `sqrt_floor` bounds is `sqrt_floor(x)` itself.
pub proof fn lemma_sqrt_floor_unique(x: int, r: int)
    requires
        0 <= x,
        0 <= r,
        r * r <= x,
        x < (r + 1) * (r + 1),
    ensures
        r == sqrt_floor(x),
{
    lemma_sqrt_floor_bounds(x);
    let s = sqrt_floor(x);
    if r < s {
        assert((r + 1) * (r + 1) <= s * s) by (nonlinear_arith)
            requires
                0 <= r,
                r + 1 <= s,
        ;
    }
    if s < r {
        assert((s + 1) * (s + 1) <= r * r) by (nonlinear_arith)
            requires
                0 <= s,
                s + 1 <= r,
        ;
    }
}

/// The integer square root of `x`, by binary search.
fn isqrt(x: u64) -> (r: u64)
    ensures
        r as int == sqrt_floor(x as int),
{
    let mut lo: u64 = 0;
    let mut hi: u64 = 0xFFFF_FFFF;
    proof {
        assert((0xFFFF_FFFFu64 as int + 1) * (0xFFFF_FFFFu64 as int + 1) > u64::MAX as int);
    }
    while lo < hi
        invariant
            lo <= hi <= 0xFFFF_FFFF,
            lo as int * lo as int <= x as int,
            (x as int) < (hi as int + 1) * (hi as int + 1),
        decreases hi - lo,
    {
        let mid = lo + (hi - lo + 1) / 2;
        proof {
            assert(lo < mid <= hi);
            assert(mid as int * mid as int <= 0xFFFF_FFFFu64 as int * 0xFFFF_FFFFu64 as int)
                by (nonlinear_arith)
                requires
                    0 <= mid as int <= 0xFFFF_FFFFu64 as int,
            ;
        }
        if (mid as u128) * (mid as u128) <= x as u128 {
            lo = mid;
        } else {
            hi = mid - 1;
        }
    }
    proof {
        lemma_sqrt_floor_unique(x as int, lo as int);
    }
    lo
}

/// Calculates opposition as the Euclidean distance (L2 norm) of the two
/// response vectors: the square root of the sum of squared differences.
///
/// Squaring emphasizes a few large differences over many small ones of the
/// same total, which is the intended behavioral contrast with
/// [`SimpleDifferenceScorer`]. The score is the distance in ten-thousandths,
/// rounded down to an integer; it ranges from 0 to `6 * sqrt(N)` survey
/// units for `N` questions.
pub struct EuclideanDistanceScorer;

impl ScoringStrategy for EuclideanDistanceScorer {
    open spec fn spec_score(&self, a: Seq<i32>, b: Seq<i32>) -> int {
        sqrt_floor(square_sum(a, b) * 100000000)
    }

    open spec fn compatible(&self, len: int) -> bool {
        3600000000 * len <= u64::MAX as int
    }

    open spec fn spec_name(&self) -> Seq<char> {
        "Euclidean Distance"@
    }

    fn calculate_score(&self, user1: &User, user2: &User) -> u64 {
        let n = user1.responses.len();
        let mut sum_sq: u64 = 0;
        let mut i: usize = 0;
        while i < n
            invariant
                user1.wf(),
                user2.wf(),
                n == user1.responses@.len(),
                n == user2.responses@.len(),
                3600000000 * n <= u64::MAX as int,
                0 <= i <= n,
                sum_sq as int == square_sum(
                    user1.responses@.take(i as int),
                    user2.responses@.take(i as int),
                ),
                sum_sq as int <= 36 * i,
            decreases n - i,
        {
            let r1 = user1.responses[i];
            let r2 = user2.responses[i];
            let diff: u64 = if r1 >= r2 {
                (r1 - r2) as u64
            } else {
                (r2 - r1) as u64
            };
            proof {
                lemma_square_sum_step(user1.responses@, user2.responses@, i as int);
                assert(diff as int * (diff as int) <= 36) by (nonlinear_arith)
                    requires
                        0 <= diff as int <= 6,
                ;
            }
            sum_sq = sum_sq + diff * diff;
            i = i + 1;
        }
        proof {
            assert(user1.responses@.take(n as int) =~= user1.responses@);
            assert(user2.responses@.take(n as int) =~= user2.responses@);
        }
        isqrt(sum_sq * 100000000)
    }

    fn name(&self) -> &'static str {
        "Euclidean Distance"
    }

    proof fn lemma_symmetric(&self, a: Seq<i32>, b: Seq<i32>) {
        lemma_square_sum_symmetric(a, b);
    }

    proof fn lemma_identical_zero(&self, a: Seq<i32>) {
        lemma_square_sum_identical(a);
    }

    proof fn lemma_score_bounds(&self, a: Seq<i32>, b: Seq<i32>) {
        lemma_square_sum_nonneg(a, b);
        lemma_square_sum_upper(a, b);
        lemma_sqrt_floor_bounds(square_sum(a, b) * 100000000);
        lemma_sqrt_floor_le(square_sum(a, b) * 100000000);
    }
}

// ============================================================================
// Weighted
// ============================================================================

/// Sum of a sequence of weights (fixed-point hundredths).
pub open spec fn weight_sum(w: Seq<i64>) -> int
    decreases w.len(),
{
    if w.len() == 0 {
        0
    } else {
        weight_sum(w.drop_last()) + w.last()
    }
}

/// Weighted sum of absolute per-question differences, in ten-thousandths:
/// each question's difference is multiplied by that question's weight
/// (hundredths) and by 100 to reach the score scale.
pub open spec fn weighted_sum(a: Seq<i32>, b: Seq<i32>, w: Seq<i64>) -> int
    decreases a.len(),
{
    if a.len() == 0 || b.len() == 0 || w.len() == 0 {
        0
    } else {
        weighted_sum(a.drop_last(), b.drop_last(), w.drop_last()) + abs_diff(
            a.last() as int,
            b.last() as int,
        ) * w.last() * 100
    }
}

proof fn lemma_weighted_sum_step(a: Seq<i32>, b: Seq<i32>, w: Seq<i64>, i: int)
    requires
        0 <= i < a.len(),
        i < b.len(),
        i < w.len(),
    ensures
        weighted_sum(a.take(i + 1), b.take(i + 1), w.take(i + 1)) == weighted_sum(
            a.take(i),
            b.take(i),
            w.take(i),
        ) + abs_diff(a[i] as int, b[i] as int) * w[i] * 100,
{
    assert(a.take(i + 1).drop_last() =~= a.take(i));
    assert(b.take(i + 1).drop_last() =~= b.take(i));
    assert(w.take(i + 1).drop_last() =~= w.take(i));
    assert(a.take(i + 1).last() == a[i]);
    assert(b.take(i + 1).last() == b[i]);
    assert(w.take(i + 1).last() == w[i]);
}

proof fn lemma_weighted_sum_symmetric(a: Seq<i32>, b: Seq<i32>, w: Seq<i64>)
    ensures
        weighted_sum(a, b, w) == weighted_sum(b, a, w),
    decreases a.len(),
{
    if a.len() != 0 && b.len() != 0 && w.len() != 0 {
        lemma_weighted_sum_symmetric(a.drop_last(), b.drop_last(), w.drop_last());
    }
}

proof fn lemma_weighted_sum_identical(a: Seq<i32>, w: Seq<i64>)
    ensures
        weighted_sum(a, a, w) == 0,
    decreases a.len(),
{
    if a.len() != 0 && w.len() != 0 {
        lemma_weighted_sum_identical(a.drop_last(), w.drop_last());
        let d = abs_diff(a.last() as int, a.last() as int);
        let wl = w.last() as int;
        assert(d == 0);
        assert(d * wl * 100 == 0) by (nonlinear_arith)
            requires
                d == 0,
        ;
    }
}

proof fn lemma_weighted_sum_nonneg(a: Seq<i32>, b: Seq<i32>, w: Seq<i64>)
    requires
        forall|k: int| 0 <= k < w.len() ==> 0 < #[trigger] w[k],
    ensures
        0 <= weighted_sum(a, b, w),
    decreases a.len(),
{
    if a.len() != 0 && b.len() != 0 && w.len() != 0 {
        lemma_weighted_sum_nonneg(a.drop_last(), b.drop_last(), w.drop_last());
        let d = abs_diff(a.last() as int, b.last() as int);
        let wl = w.last() as int;
        assert(0 < wl);
        assert(0 <= d * wl * 100) by (nonlinear_arith)
            requires
                0 <= d,
                0 <= wl,
        ;
    }
}

proof fn lemma_weighted_sum_upper(a: Seq<i32>, b: Seq<i32>, w: Seq<i64>)
    requires
        crate::valid_responses(a),
        crate::valid_responses(b),
        a.len() == b.len(),
        w.len() == a.len(),
        forall|k: int| 0 <= k < w.len() ==> 0 < #[trigger] w[k],
    ensures
        weighted_sum(a, b, w) <= 600 * weight_sum(w),
    decreases a.len(),
{
    if a.len() != 0 {
        lemma_weighted_sum_upper(a.drop_last(), b.drop_last(), w.drop_last());
        let d = abs_diff(a.last() as int, b.last() as int);
        let wl = w.last() as int;
        assert(0 < wl);
        assert(d * wl * 100 <= 600 * wl) by (nonlinear_arith)
            requires
                0 <= d <= 6,
                0 <= wl,
        ;
    }
}

proof fn lemma_weight_sum_nonneg(w: Seq<i64>)
    requires
        forall|k: int| 0 <= k < w.len() ==> 0 < #[trigger] w[k],
    ensures
        0 <= weight_sum(w),
    decreases w.len(),
{
    if w.len() != 0 {
        lemma_weight_sum_nonneg(w.drop_last());
    }
}

proof fn lemma_weight_sum_take_step(w: Seq<i64>, i: int)
    requires
        0 <= i < w.len(),
    ensures
        weight_sum(w.take(i + 1)) == weight_sum(w.take(i)) + w[i],
{
    assert(w.take(i + 1).drop_last() =~= w.take(i));
    assert(w.take(i + 1).last() == w[i]);
}

proof fn lemma_weight_sum_prefix(w: Seq<i64>, i: int)
    requires
        0 <= i <= w.len(),
        forall|k: int| 0 <= k < w.len() ==> 0 < #[trigger] w[k],
    ensures
        weight_sum(w.take(i)) <= weight_sum(w),
        0 <= weight_sum(w.take(i)),
    decreases w.len() - i,
{
    assert(forall|k: int| 0 <= k < w.take(i).len() ==> 0 < #[trigger] w.take(i)[k]);
    lemma_weight_sum_nonneg(w.take(i));
    if i == w.len() {
        assert(w.take(i) =~= w);
    } else {
        lemma_weight_sum_take_step(w, i);
        lemma_weight_sum_prefix(w, i + 1);
    }
}

/// Calculates opposition with a caller-supplied weight per question.
///
/// Like [`SimpleDifferenceScorer`], but each question's absolute difference
/// is multiplied by that question's weight, so disagreement on important
/// questions can count for more. Weights are fixed-point hundredths (`100`
/// stands for `1.0`); the weight vector's length must equal the question
/// count.
#[derive(Debug, Clone)]
pub struct WeightedScorer {
    /// Weight for each question, in hundredths; always non-empty with every
    /// weight positive.
    weights: Vec<i64>,
}

impl WeightedScorer {
    /// The weight vector, in hundredths.
    pub closed spec fn spec_weights(&self) -> Seq<i64> {
        self.weights@
    }

    /// The weight vector is non-empty and every weight is positive.
    /// Both constructors establish this.
    pub open spec fn wf(&self) -> bool {
        self.spec_weights().len() > 0 && forall|k: int|
            0 <= k < self.spec_weights().len() ==> 0 < #[trigger] self.spec_weights()[k]
    }

    /// Create a weighted scorer with custom weights (hundredths).
    ///
    /// Succeeds exactly when the weight vector is non-empty and every weight
    /// is positive; otherwise reports which rule was broken.
    pub fn new(weights: Vec<i64>) -> (r: Result<WeightedScorer, String>)
        ensures
            r is Ok <==> (weights@.len() > 0 && forall|k: int|
                0 <= k < weights@.len() ==> 0 < #[trigger] weights@[k]),
            r matches Ok(s) ==> s.spec_weights() == weights@ && s.wf(),
            r matches Err(e) ==> (if weights@.len() == 0 {
                e@ == "Weights vector cannot be empty"@
            } else {
                e@ == "All weights must be positive"@
            }),
    {
        if weights.len() == 0 {
            return Err(String::from_str("Weights vector cannot be empty"));
        }
        let mut k: usize = 0;
        while k < weights.len()
            invariant
                0 <= k <= weights@.len(),
                weights@.len() > 0,
                forall|m: int| 0 <= m < k ==> 0 < #[trigger] weights@[m],
            decreases weights@.len() - k,
        {
            if weights[k] <= 0 {
                return Err(String::from_str("All weights must be positive"));
            }
            k = k + 1;
        }
        Ok(WeightedScorer { weights })
    }

    /// Create a weighted scorer whose weights are all `1.0` (that is, `100`
    /// hundredths), one per question, which scores exactly like
    /// [`SimpleDifferenceScorer`].
    pub fn equal_weights(num_questions: usize) -> (s: WeightedScorer)
        ensures
            s.spec_weights().len() == num_questions,
            forall|k: int| 0 <= k < num_questions ==> #[trigger] s.spec_weights()[k] == 100,
    {
        let mut weights: Vec<i64> = Vec::new();
        let mut k: usize = 0;
        while k < num_questions
            invariant
                0 <= k <= num_questions,
                weights@.len() == k,
                forall|m: int| 0 <= m < k ==> #[trigger] weights@[m] == 100,
            decreases num_questions - k,
        {
            weights.push(100);
            k = k + 1;
        }
        WeightedScorer { weights }
    }

    /// The number of questions this scorer expects.
    pub fn num_questions(&self) -> (n: usize)
        ensures
            n == self.spec_weights().len(),
    {
        self.weights.len()
    }

    /// The weights, in hundredths.
    pub fn weights(&self) -> (r: &[i64])
        ensures
            r@ == self.spec_weights(),
    {
        self.weights.as_slice()
    }
}

impl ScoringStrategy for WeightedScorer {
    open spec fn spec_score(&self, a: Seq<i32>, b: Seq<i32>) -> int {
        weighted_sum(a, b, self.spec_weights())
    }

    open spec fn compatible(&self, len: int) -> bool {
        &&& self.spec_weights().len() == len
        &&& self.wf()
        &&& 600 * weight_sum(self.spec_weights()) <= u64::MAX as int
    }

    open spec fn spec_name(&self) -> Seq<char> {
        "Weighted"@
    }

    fn calculate_score(&self, user1: &User, user2: &User) -> u64 {
        let n = user1.responses.len();
        let mut total: u64 = 0;
        let mut i: usize = 0;
        while i < n
            invariant
                user1.wf(),
                user2.wf(),
                n == user1.responses@.len(),
                n == user2.responses@.len(),
                self.spec_weights().len() == n,
                forall|k: int|
                    0 <= k < self.spec_weights().len() ==> 0 < #[trigger] self.spec_weights()[k],
                600 * weight_sum(self.spec_weights()) <= u64::MAX as int,
                0 <= i <= n,
                total as int == weighted_sum(
                    user1.responses@.take(i as int),
                    user2.responses@.take(i as int),
                    self.spec_weights().take(i as int),
                ),
                total as int <= 600 * weight_sum(self.spec_weights().take(i as int)),
            decreases n - i,
        {
            let r1 = user1.responses[i];
            let r2 = user2.responses[i];
            let w = self.weights[i];
            let diff: u64 = if r1 >= r2 {
                (r1 - r2) as u64
            } else {
                (r2 - r1) as u64
            };
            proof {
                let ws = self.spec_weights();
                lemma_weighted_sum_step(user1.responses@, user2.responses@, ws, i as int);
                lemma_weight_sum_take_step(ws, i as int);
                lemma_weight_sum_prefix(ws, i as int);
                lemma_weight_sum_prefix(ws, (i + 1) as int);
                assert(w as int <= weight_sum(ws));
                assert(diff as int * (w as int) <= 6 * (w as int)) by (nonlinear_arith)
                    requires
                        0 <= diff as int <= 6,
                        0 <= w as int,
                ;
                assert(abs_diff(
                    user1.responses@[i as int] as int,
                    user2.responses@[i as int] as int,
                ) * (w as int) * 100 == (diff as int * (w as int)) * 100);
            }
            total = total + diff * (w as u64) * 100;
            i = i + 1;
        }
        proof {
            assert(user1.responses@.take(n as int) =~= user1.responses@);
            assert(user2.responses@.take(n as int) =~= user2.responses@);
            assert(self.spec_weights().take(n as int) =~= self.spec_weights());
        }
        total
    }

    fn name(&self) -> &'static str {
        "Weighted"
    }

    proof fn lemma_symmetric(&self, a: Seq<i32>, b: Seq<i32>) {
        lemma_weighted_sum_symmetric(a, b, self.spec_weights());
    }

    proof fn lemma_identical_zero(&self, a: Seq<i32>) {
        lemma_weighted_sum_identical(a, self.spec_weights());
    }

    proof fn lemma_score_bounds(&self, a: Seq<i32>, b: Seq<i32>) {
        lemma_weighted_sum_nonneg(a, b, self.spec_weights());
        lemma_weighted_sum_upper(a, b, self.spec_weights());
    }
}

// ============================================================================
// Polarization
// ============================================================================

/// The conviction multiplier (hundredths) a polarization scorer assigns to a
/// single answer: extreme answers (1 or 7) weigh most, leaning answers
/// (2 or 6) next, moderate answers (3-5) least. Out-of-scale answers fall
/// back to a multiplier of `1.0`.
pub open spec fn spec_conviction(s: PolarizationScorer, answer: int) -> int {
    if answer == 1 || answer == 7 {
        s.spec_extreme() as int
    } else if answer == 2 || answer == 6 {
        s.spec_lean() as int
    } else if 3 <= answer <= 5 {
        s.spec_moderate() as int
    } else {
        100
    }
}

/// Polarization-weighted sum of per-question differences, in
/// ten-thousandths: each question's absolute difference is multiplied by the
/// conviction multipliers of *both* answers (each in hundredths).
pub open spec fn polar_sum(s: PolarizationScorer, a: Seq<i32>, b: Seq<i32>) -> int
    decreases a.len(),
{
    if a.len() == 0 || b.len() == 0 {
        0
    } else {
        polar_sum(s, a.drop_last(), b.drop_last()) + abs_diff(a.last() as int, b.last() as int)
            * spec_conviction(s, a.last() as int) * spec_conviction(s, b.last() as int)
    }
}

proof fn lemma_polar_sum_step(s: PolarizationScorer, a: Seq<i32>, b: Seq<i32>, i: int)
    requires
        0 <= i < a.len(),
        i < b.len(),
    ensures
        polar_sum(s, a.take(i + 1), b.take(i + 1)) == polar_sum(s, a.take(i), b.take(i)) + abs_diff(
            a[i] as int,
            b[i] as int,
        ) * spec_conviction(s, a[i] as int) * spec_conviction(s, b[i] as int),
{
    assert(a.take(i + 1).drop_last() =~= a.take(i));
    assert(b.take(i + 1).drop_last() =~= b.take(i));
    assert(a.take(i + 1).last() == a[i]);
    assert(b.take(i + 1).last() == b[i]);
}

proof fn lemma_polar_sum_symmetric(s: PolarizationScorer, a: Seq<i32>, b: Seq<i32>)
    ensures
        polar_sum(s, a, b) == polar_sum(s, b, a),
    decreases a.len(),
{
    if a.len() != 0 && b.len() != 0 {
        lemma_polar_sum_symmetric(s, a.drop_last(), b.drop_last());
        let d = abs_diff(a.last() as int, b.last() as int);
        let ca = spec_conviction(s, a.last() as int);
        let cb = spec_conviction(s, b.last() as int);
        assert(d * ca * cb == d * cb * ca) by (nonlinear_arith);
    }
}

proof fn lemma_polar_sum_identical(s: PolarizationScorer, a: Seq<i32>)
    ensures
        polar_sum(s, a, a) == 0,
    decreases a.len(),
{
    if a.len() != 0 {
        lemma_polar_sum_identical(s, a.drop_last());
        let d = abs_diff(a.last() as int, a.last() as int);
        let c = spec_conviction(s, a.last() as int);
        assert(d == 0);
        assert(d * c * c == 0) by (nonlinear_arith)
            requires
                d == 0,
        ;
    }
}

proof fn lemma_polar_sum_nonneg(s: PolarizationScorer, a: Seq<i32>, b: Seq<i32>)
    ensures
        0 <= polar_sum(s, a, b),
    decreases a.len(),
{
    if a.len() != 0 && b.len() != 0 {
        lemma_polar_sum_nonneg(s, a.drop_last(), b.drop_last());
        let d = abs_diff(a.last() as int, b.last() as int);
        let ca = spec_conviction(s, a.last() as int);
        let cb = spec_conviction(s, b.last() as int);
        assert(0 <= ca && 0 <= cb);
        assert(0 <= d * ca * cb) by (nonlinear_arith)
            requires
                0 <= d,
                0 <= ca,
                0 <= cb,
        ;
    }
}

proof fn lemma_polar_sum_upper(s: PolarizationScorer, a: Seq<i32>, b: Seq<i32>)
    requires
        crate::valid_responses(a),
        crate::valid_responses(b),
        a.len() == b.len(),
    ensures
        polar_sum(s, a, b) <= 6 * a.len() * s.max_mult() * s.max_mult(),
    decreases a.len(),
{
    let m = s.max_mult();
    if a.len() != 0 {
        lemma_polar_sum_upper(s, a.drop_last(), b.drop_last());
        let d = abs_diff(a.last() as int, b.last() as int);
        let ca = spec_conviction(s, a.last() as int);
        let cb = spec_conviction(s, b.last() as int);
        assert(ca <= m && cb <= m && 0 <= ca && 0 <= cb);
        assert(d * ca * cb <= 6 * m * m) by (nonlinear_arith)
            requires
                0 <= d <= 6,
                0 <= ca <= m,
                0 <= cb <= m,
        ;
        assert(6 * (a.len() - 1) * m * m + 6 * m * m == 6 * a.len() * m * m) by (nonlinear_arith);
    } else {
        assert(0 <= 6 * a.len() * m * m) by (nonlinear_arith)
            requires
                0 <= m,
                0 <= a.len(),
        ;
    }
}

/// Calculates opposition with emphasis on passionate, extreme positions.
///
/// Like [`SimpleDifferenceScorer`], but each question's difference is
/// multiplied by the conviction of *both* answers: strongly held opinions
/// (1 or 7) count more than leaning ones (2 or 6), which count more than
/// moderate ones (3-5). Two passionate opponents therefore score higher
/// than a passionate participant paired with an indifferent one.
#[derive(Debug, Clone)]
pub struct PolarizationScorer {
    /// Multiplier for extreme positions (answer 1 or 7), in hundredths.
    extreme_multiplier: u64,

    /// Multiplier for leaning positions (answer 2 or 6), in hundredths.
    lean_multiplier: u64,

    /// Multiplier for moderate positions (answer 3, 4 or 5), in hundredths.
    moderate_multiplier: u64,
}

impl PolarizationScorer {
    /// The multiplier for extreme positions, in hundredths.
    pub closed spec fn spec_extreme(&self) -> u64 {
        self.extreme_multiplier
    }

    /// The multiplier for leaning positions, in hundredths.
    pub closed spec fn spec_lean(&self) -> u64 {
        self.lean_multiplier
    }

    /// The multiplier for moderate positions, in hundredths.
    pub closed spec fn spec_moderate(&self) -> u64 {
        self.moderate_multiplier
    }

    /// The largest of the three multipliers, in hundredths.
    pub open spec fn max_mult(&self) -> int {
        let m = if self.spec_extreme() >= self.spec_lean() {
            self.spec_extreme()
        } else {
            self.spec_lean()
        };
        if m >= self.spec_moderate() {
            m as int
        } else {
            self.spec_moderate() as int
        }
    }

    /// Create a polarization scorer with custom multipliers, each in
    /// hundredths (`150` stands for `1.5`).
    pub fn new(extreme_multiplier: u64, lean_multiplier: u64, moderate_multiplier: u64) -> (s:
        PolarizationScorer)
        ensures
            s.spec_extreme() == extreme_multiplier,
            s.spec_lean() == lean_multiplier,
            s.spec_moderate() == moderate_multiplier,
    {
        PolarizationScorer { extreme_multiplier, lean_multiplier, moderate_multiplier }
    }

    /// Create a polarization scorer with the default multipliers:
    /// `1.5` for extreme, `1.2` for leaning and `1.0` for moderate positions
    /// (in hundredths: 150, 120 and 100).
    pub fn default() -> (s: PolarizationScorer)
        ensures
            s.spec_extreme() == 150,
            s.spec_lean() == 120,
            s.spec_moderate() == 100,
    {
        PolarizationScorer {
            extreme_multiplier: 150,
            lean_multiplier: 120,
            moderate_multiplier: 100,
        }
    }

    /// The conviction multiplier for a single answer (hundredths).
    fn polarization_weight(&self, answer: i32) -> (w: u64)
        ensures
            w as int == spec_conviction(*self, answer as int),
    {
        if answer == 1 || answer == 7 {
            self.extreme_multiplier
        } else if answer == 2 || answer == 6 {
            self.lean_multiplier
        } else if 3 <= answer && answer <= 5 {
            self.moderate_multiplier
        } else {
            100
        }
    }
}

impl ScoringStrategy for PolarizationScorer {
    open spec fn spec_score(&self, a: Seq<i32>, b: Seq<i32>) -> int {
        polar_sum(*self, a, b)
    }

    open spec fn compatible(&self, len: int) -> bool {
        6 * len * self.max_mult() * self.max_mult() <= u64::MAX as int
    }

    open spec fn spec_name(&self) -> Seq<char> {
        "Polarization"@
    }

    fn calculate_score(&self, user1: &User, user2: &User) -> u64 {
        let n = user1.responses.len();
        let mut total: u64 = 0;
        let mut i: usize = 0;
        while i < n
            invariant
                user1.wf(),
                user2.wf(),
                n == user1.responses@.len(),
                n == user2.responses@.len(),
                6 * n * self.max_mult() * self.max_mult() <= u64::MAX as int,
                0 <= i <= n,
                total as int == polar_sum(
                    *self,
                    user1.responses@.take(i as int),
                    user2.responses@.take(i as int),
                ),
                total as int <= 6 * i * self.max_mult() * self.max_mult(),
            decreases n - i,
        {
            let r1 = user1.responses[i];
            let r2 = user2.responses[i];
            let diff: u64 = if r1 >= r2 {
                (r1 - r2) as u64
            } else {
                (r2 - r1) as u64
            };
            let w1 = self.polarization_weight(r1);
            let w2 = self.polarization_weight(r2);
            proof {
                let m = self.max_mult();
                let d = diff as int;
                let x1 = w1 as int;
                let x2 = w2 as int;
                lemma_polar_sum_step(*self, user1.responses@, user2.responses@, i as int);
                assert(x1 <= m && x2 <= m);
                assert(6 * m <= u64::MAX as int && 6 * m * m <= u64::MAX as int && d * x1 <= 6 * m
                    && d * x1 * x2 <= 6 * m * m) by (nonlinear_arith)
                    requires
                        0 <= d <= 6,
                        0 <= x1 <= m,
                        0 <= x2 <= m,
                        6 * (n as int) * m * m <= u64::MAX as int,
                        1 <= n as int,
                ;
                assert(total as int + d * x1 * x2 <= 6 * ((i as int) + 1) * m * m)
                    by (nonlinear_arith)
                    requires
                        total as int <= 6 * (i as int) * m * m,
                        d * x1 * x2 <= 6 * m * m,
                ;
                assert(6 * ((i as int) + 1) * m * m <= 6 * (n as int) * m * m) by (nonlinear_arith)
                    requires
                        (i as int) + 1 <= n as int,
                        0 <= m,
                ;
            }
            total = total + diff * w1 * w2;
            i = i + 1;
        }
        proof {
            assert(user1.responses@.take(n as int) =~= user1.responses@);
            assert(user2.responses@.take(n as int) =~= user2.responses@);
        }
        total
    }

    fn name(&self) -> &'static str {
        "Polarization"
    }

    proof fn lemma_symmetric(&self, a: Seq<i32>, b: Seq<i32>) {
        lemma_polar_sum_symmetric(*self, a, b);
    }

    proof fn lemma_identical_zero(&self, a: Seq<i32>) {
        lemma_polar_sum_identical(*self, a);
    }

    proof fn lemma_score_bounds(&self, a: Seq<i32>, b: Seq<i32>) {
        lemma_polar_sum_nonneg(*self, a, b);
        lemma_polar_sum_upper(*self, a, b);
    }
}

// ============================================================================
// Relations between the strategies
// ============================================================================

/// A weighted scorer whose weights are all `1.0` scores exactly like the
/// plain absolute-difference strategy, on any pair of equal-length response
/// vectors.
pub proof fn lemma_equal_weights_match_simple_difference(
    s: WeightedScorer,
    a: Seq<i32>,
    b: Seq<i32>,
)
    requires
        a.len() == b.len(),
        s.spec_weights().len() == a.len(),
        forall|k: int| 0 <= k < s.spec_weights().len() ==> #[trigger] s.spec_weights()[k] == 100,
    ensures
        s.spec_score(a, b) == SimpleDifferenceScorer.spec_score(a, b),
{
    lemma_weighted_sum_unit(a, b, s.spec_weights());
}

proof fn lemma_weighted_sum_unit(a: Seq<i32>, b: Seq<i32>, w: Seq<i64>)
    requires
        a.len() == b.len(),
        w.len() == a.len(),
        forall|k: int| 0 <= k < w.len() ==> #[trigger] w[k] == 100,
    ensures
        weighted_sum(a, b, w) == simple_sum(a, b) * 10000,
    decreases a.len(),
{
    if a.len() != 0 {
        lemma_weighted_sum_unit(a.drop_last(), b.drop_last(), w.drop_last());
    }
}

/// Whenever both participants answer only in the moderate 3-5 band, a
/// polarization scorer whose moderate multiplier is `1.0` scores exactly
/// like the plain absolute-difference strategy.
pub proof fn lemma_moderate_answers_match_simple_difference(
    s: PolarizationScorer,
    a: Seq<i32>,
    b: Seq<i32>,
)
    requires
        a.len() == b.len(),
        s.spec_moderate() == 100,
        forall|k: int| 0 <= k < a.len() ==> 3 <= #[trigger] a[k] <= 5,
        forall|k: int| 0 <= k < b.len() ==> 3 <= #[trigger] b[k] <= 5,
    ensures
        s.spec_score(a, b) == SimpleDifferenceScorer.spec_score(a, b),
    decreases a.len(),
{
    if a.len() != 0 {
        lemma_moderate_answers_match_simple_difference(s, a.drop_last(), b.drop_last());
    }
}

} // verus!
