//! The statistic and the decision rule behind calibration.
//!
//! Calibration asks whether the panel's ordering of lines agrees with the
//! lines' measured behavioural impact. The comparison is rank-based, because
//! the panel score is a ranking signal by contract, and is judged against a
//! positional null computed on the same lines.
//!
//! Observations come as integers that order like the measured values; ranks
//! are kept doubled, so that the mean of two positions is an integer.

use vstd::prelude::*;

use crate::ranks::{below, lemma_below_grows, lemma_counts, lemma_tied_self, tied};

verus! {

/// Below this many mutated-and-scored lines, no rank correlation is worth
/// reporting.
pub const MIN_SCORED_LINES: usize = 20;

/// Below this many executed mutants, per-line kill rates are too coarse to
/// rank against.
pub const MIN_EXECUTED_MUTANTS: usize = 30;

/// The calibration verdict for one repository.
#[derive(Debug, Clone, Copy, PartialEq, Eq, Structural)]
pub enum Verdict {
    /// The panel beats the positional null by the margin and clears the floor
    /// on its own.
    Calibrated,
    /// The panel beats the null, but not by enough to clear both thresholds.
    Marginal,
    /// The panel does not beat the null on this repository.
    Uncalibrated,
    /// Fewer lines or mutants than the floors: no verdict offered.
    InsufficientData,
}

impl Verdict {
    /// The verdict as it appears in the report.
    pub open spec fn text(self) -> Seq<char> {
        match self {
            Verdict::Calibrated => "calibrated"@,
            Verdict::Marginal => "marginal"@,
            Verdict::Uncalibrated => "uncalibrated"@,
            Verdict::InsufficientData => "insufficient data"@,
        }
    }

    /// The verdict as it appears in the report.
    #[must_use]
    pub fn name(self) -> (r: &'static str)
        ensures
            r@ == self.text(),
    {
        match self {
            Verdict::Calibrated => "calibrated",
            Verdict::Marginal => "marginal",
            Verdict::Uncalibrated => "uncalibrated",
            Verdict::InsufficientData => "insufficient data",
        }
    }
}

/// How the panel's correlation compares.
#[derive(Debug, Clone, Copy, PartialEq, Eq, Structural)]
pub struct Standing {
    /// It is above the null's by at least the margin.
    pub clears_margin: bool,
    /// It is at least the absolute floor.
    pub clears_floor: bool,
    /// It is above the null's.
    pub beats_null: bool,
}

/// The verdict that a standing gets on enough data.
pub open spec fn judged(s: Standing, scored_lines: usize, executed_mutants: usize) -> Verdict {
    if scored_lines < MIN_SCORED_LINES || executed_mutants < MIN_EXECUTED_MUTANTS {
        Verdict::InsufficientData
    } else if s.clears_margin && s.clears_floor {
        Verdict::Calibrated
    } else if s.beats_null {
        Verdict::Marginal
    } else {
        Verdict::Uncalibrated
    }
}

/// Judges the panel against the positional null computed on the same lines.
#[must_use]
pub fn verdict(s: Standing, scored_lines: usize, executed_mutants: usize) -> (r: Verdict)
    ensures
        r == judged(s, scored_lines, executed_mutants),
{
    if scored_lines < MIN_SCORED_LINES || executed_mutants < MIN_EXECUTED_MUTANTS {
        return Verdict::InsufficientData;
    }
    if s.clears_margin && s.clears_floor {
        return Verdict::Calibrated;
    }
    if s.beats_null {
        Verdict::Marginal
    } else {
        Verdict::Uncalibrated
    }
}

/// The values as integers.
pub open spec fn ints(v: Seq<i64>) -> Seq<int> {
    v.map_values(|x: i64| x as int)
}

/// Twice the rank of the value `x`: tied values share the mean of the
/// positions they span, counted from one.
pub open spec fn doubled_rank(v: Seq<i64>, x: i64) -> int {
    let n = v.len() as int;
    (2 * below(ints(v), x as int, n) + tied(ints(v), x as int, n) + 1) as int
}

/// Twice the deviation of a rank from the mean rank.
pub open spec fn deviation(v: Seq<i64>, i: int) -> int {
    doubled_rank(v, v[i]) - (v.len() + 1)
}

/// The sum of the products of the first `k` doubled deviations.
pub open spec fn product_sum(xs: Seq<i64>, ys: Seq<i64>, k: int) -> int
    decreases k,
{
    if k <= 0 {
        0
    } else {
        product_sum(xs, ys, k - 1) + deviation(xs, k - 1) * deviation(ys, k - 1)
    }
}

/// What a rank correlation is made of: it is `num` divided by the square
/// roots of `dx` and `dy`.
#[derive(Debug, Clone, Copy, PartialEq, Eq, Structural)]
pub struct Correlation {
    pub num: i128,
    pub dx: i128,
    pub dy: i128,
}

/// A rank lies between the first and the last position.
pub proof fn ranks_are_positions(v: Seq<i64>, i: int)
    requires
        0 <= i < v.len(),
    ensures
        2 <= doubled_rank(v, v[i]) <= 2 * v.len(),
        -v.len() <= deviation(v, i) <= v.len(),
{
    lemma_counts(ints(v), v[i] as int, v.len() as int);
    lemma_tied_self(ints(v), i, v.len() as int);
}

/// A greater value has a greater rank, and equal values share one.
pub proof fn ranks_follow_values(v: Seq<i64>, i: int, j: int)
    requires
        0 <= i < v.len(),
        0 <= j < v.len(),
    ensures
        v[i] < v[j] ==> doubled_rank(v, v[i]) < doubled_rank(v, v[j]),
        v[i] == v[j] ==> doubled_rank(v, v[i]) == doubled_rank(v, v[j]),
{
    if v[i] < v[j] {
        lemma_below_grows(ints(v), v[i] as int, v[j] as int, v.len() as int);
        lemma_tied_self(ints(v), i, v.len() as int);
        lemma_tied_self(ints(v), j, v.len() as int);
    }
}

/// Twice the 1-based ranks, with tied values sharing the mean of their
/// positions.
pub fn average_ranks(v: &[i64]) -> (r: Vec<u64>)
    requires
        v.len() <= u32::MAX,
    ensures
        r@.len() == v@.len(),
        forall|i: int| 0 <= i < v@.len() ==> #[trigger] r@[i] == doubled_rank(v@, v@[i]),
{
    let mut out: Vec<u64> = Vec::new();
    let mut i: usize = 0;
    while i < v.len()
        invariant
            v.len() <= u32::MAX,
            i <= v.len(),
            out.len() == i,
            forall|x: int| 0 <= x < i ==> #[trigger] out@[x] == doubled_rank(v@, v@[x]),
        decreases v.len() - i,
    {
        let x: i64 = v[i];
        let mut less: u64 = 0;
        let mut equal: u64 = 0;
        let mut k: usize = 0;
        while k < v.len()
            invariant
                v.len() <= u32::MAX,
                k <= v.len(),
                less == below(ints(v@), x as int, k as int),
                equal == tied(ints(v@), x as int, k as int),
                less <= k,
                equal <= k,
            decreases v.len() - k,
        {
            if v[k] < x {
                less += 1;
            } else if v[k] == x {
                equal += 1;
            }
            k += 1;
        }
        out.push(2 * less + equal + 1);
        i += 1;
    }
    out
}

proof fn lemma_product_bound(a: int, b: int, n: int)
    requires
        -n <= a <= n,
        -n <= b <= n,
    ensures
        -(n * n) <= a * b <= n * n,
{
    assert(-(n * n) <= a * b <= n * n) by (nonlinear_arith)
        requires
            -n <= a <= n,
            -n <= b <= n,
    ;
}

/// The sum of the products of the doubled deviations.
fn sum_products(rx: &Vec<u64>, ry: &Vec<u64>, xs: Ghost<Seq<i64>>, ys: Ghost<Seq<i64>>) -> (r: i128)
    requires
        rx.len() == ry.len(),
        rx.len() <= u32::MAX,
        rx.len() == xs@.len(),
        ry.len() == ys@.len(),
        forall|i: int| 0 <= i < rx.len() ==> #[trigger] rx@[i] == doubled_rank(xs@, xs@[i]),
        forall|i: int| 0 <= i < ry.len() ==> #[trigger] ry@[i] == doubled_rank(ys@, ys@[i]),
    ensures
        r == product_sum(xs@, ys@, rx.len() as int),
{
    let n: usize = rx.len();
    let mut sum: i128 = 0;
    let mut i: usize = 0;
    let mean: i128 = n as i128 + 1;
    while i < n
        invariant
            n == rx.len(),
            n == ry.len(),
            n <= u32::MAX,
            n == xs@.len(),
            n == ys@.len(),
            mean == n + 1,
            forall|i: int| 0 <= i < n ==> #[trigger] rx@[i] == doubled_rank(xs@, xs@[i]),
            forall|i: int| 0 <= i < n ==> #[trigger] ry@[i] == doubled_rank(ys@, ys@[i]),
            i <= n,
            sum == product_sum(xs@, ys@, i as int),
            -(i * (n * n)) <= sum <= i * (n * n),
        decreases n - i,
    {
        let a: i128 = rx[i] as i128 - mean;
        let b: i128 = ry[i] as i128 - mean;
        proof {
            ranks_are_positions(xs@, i as int);
            ranks_are_positions(ys@, i as int);
            assert(a == deviation(xs@, i as int));
            assert(b == deviation(ys@, i as int));
            lemma_product_bound(a as int, b as int, n as int);
            let sq = n * n;
            assert(sq <= 0xffff_ffff * 0xffff_ffff) by (nonlinear_arith)
                requires
                    sq == n * n,
                    0 <= n <= 0xffff_ffff,
            ;
            assert((i + 1) * sq == i * sq + sq) by (nonlinear_arith);
            assert((i + 1) * sq <= 0xffff_ffff * (0xffff_ffff * 0xffff_ffff)) by (nonlinear_arith)
                requires
                    0 <= i + 1 <= 0xffff_ffff,
                    0 <= sq <= 0xffff_ffff * 0xffff_ffff,
            ;
        }
        sum = sum + a * b;
        i += 1;
    }
    sum
}

/// Whether `r` is the rank correlation of the pairs: there is none of fewer
/// than two pairs, nor where a side has no variance.
pub open spec fn is_correlation(xs: Seq<i64>, ys: Seq<i64>, r: Option<Correlation>) -> bool {
    let n = xs.len() as int;
    let dx = product_sum(xs, xs, n);
    let dy = product_sum(ys, ys, n);
    match r {
        Some(c) => n >= 2 && dx != 0 && dy != 0 && c.num == product_sum(xs, ys, n) && c.dx == dx
            && c.dy == dy,
        None => n < 2 || dx == 0 || dy == 0,
    }
}

/// What the Spearman rank correlation of the pairs is made of, ties included:
/// the Pearson correlation of the two rank vectors.
///
/// `None` when either side has no variance or there are fewer than two
/// pairs: a constant vector ranks nothing.
#[must_use]
pub fn spearman(xs: &[i64], ys: &[i64]) -> (r: Option<Correlation>)
    requires
        xs.len() == ys.len(),
        xs.len() <= u32::MAX,
    ensures
        is_correlation(xs@, ys@, r),
{
    if xs.len() < 2 {
        return None;
    }
    let rx = average_ranks(xs);
    let ry = average_ranks(ys);
    let gx: Ghost<Seq<i64>> = Ghost(xs@);
    let gy: Ghost<Seq<i64>> = Ghost(ys@);
    let num: i128 = sum_products(&rx, &ry, gx, gy);
    let dx: i128 = sum_products(&rx, &rx, gx, gx);
    let dy: i128 = sum_products(&ry, &ry, gy, gy);
    if dx == 0 || dy == 0 {
        return None;
    }
    Some(Correlation { num, dx, dy })
}

proof fn lemma_square_sum(xs: Seq<i64>, k: int)
    requires
        0 <= k <= xs.len(),
    ensures
        product_sum(xs, xs, k) >= 0,
        product_sum(xs, xs, k) == 0 ==> forall|i: int|
            0 <= i < k ==> #[trigger] deviation(xs, i) == 0,
    decreases k,
{
    if k > 0 {
        lemma_square_sum(xs, k - 1);
        let d = deviation(xs, k - 1);
        assert(d * d >= 0 && (d * d == 0 ==> d == 0)) by (nonlinear_arith);
    }
}

/// A side has no variance exactly when all its values are equal.
pub proof fn no_variance_means_all_equal(xs: Seq<i64>)
    ensures
        product_sum(xs, xs, xs.len() as int) >= 0,
        product_sum(xs, xs, xs.len() as int) == 0 <==> forall|i: int, j: int|
            0 <= i < xs.len() && 0 <= j < xs.len() ==> xs[i] == xs[j],
{
    let n = xs.len() as int;
    lemma_square_sum(xs, n);
    if product_sum(xs, xs, n) == 0 {
        assert forall|i: int, j: int| 0 <= i < n && 0 <= j < n implies xs[i] == xs[j] by {
            assert(deviation(xs, i) == 0 && deviation(xs, j) == 0);
            ranks_follow_values(xs, i, j);
            ranks_follow_values(xs, j, i);
        }
    }
    if forall|i: int, j: int| 0 <= i < n && 0 <= j < n ==> xs[i] == xs[j] {
        lemma_constant(xs, n);
    }
}

proof fn lemma_constant_counts(xs: Seq<i64>, x: i64, k: int)
    requires
        0 <= k <= xs.len(),
        forall|i: int| 0 <= i < xs.len() ==> xs[i] == x,
    ensures
        below(ints(xs), x as int, k) == 0,
        tied(ints(xs), x as int, k) == k,
    decreases k,
{
    if k > 0 {
        lemma_constant_counts(xs, x, k - 1);
    }
}

proof fn lemma_constant(xs: Seq<i64>, k: int)
    requires
        0 <= k <= xs.len(),
        forall|i: int, j: int| 0 <= i < xs.len() && 0 <= j < xs.len() ==> xs[i] == xs[j],
    ensures
        product_sum(xs, xs, k) == 0,
    decreases k,
{
    if k > 0 {
        lemma_constant(xs, k - 1);
        lemma_constant_counts(xs, xs[k - 1], xs.len() as int);
        assert(deviation(xs, k - 1) == 0);
    }
}

/// Whether all values are equal.
pub open spec fn is_constant(xs: Seq<i64>) -> bool {
    forall|i: int, j: int| 0 <= i < xs.len() && 0 <= j < xs.len() ==> xs[i] == xs[j]
}

/// There is a rank correlation exactly of two pairs or more of which neither
/// side is constant.
pub proof fn a_constant_side_ranks_nothing(xs: Seq<i64>, ys: Seq<i64>, r: Option<Correlation>)
    requires
        xs.len() == ys.len(),
        is_correlation(xs, ys, r),
    ensures
        r is None <==> xs.len() < 2 || is_constant(xs) || is_constant(ys),
{
    no_variance_means_all_equal(xs);
    no_variance_means_all_equal(ys);
}

proof fn lemma_sum_symmetric(xs: Seq<i64>, ys: Seq<i64>, k: int)
    ensures
        product_sum(xs, ys, k) == product_sum(ys, xs, k),
    decreases k,
{
    if k > 0 {
        lemma_sum_symmetric(xs, ys, k - 1);
        let a = deviation(xs, k - 1);
        let b = deviation(ys, k - 1);
        assert(a * b == b * a) by (nonlinear_arith);
    }
}

/// The sides can change places.
pub proof fn spearman_is_symmetric(
    xs: Seq<i64>,
    ys: Seq<i64>,
    r: Option<Correlation>,
    s: Option<Correlation>,
)
    requires
        xs.len() == ys.len(),
        is_correlation(xs, ys, r),
        is_correlation(ys, xs, s),
    ensures
        match r {
            Some(c) => s == Some(Correlation { num: c.num, dx: c.dy, dy: c.dx }),
            None => s is None,
        },
{
    lemma_sum_symmetric(xs, ys, xs.len() as int);
}

/// Whether two lists put their positions in the same order, ties included.
pub open spec fn ordered_alike(xs: Seq<i64>, zs: Seq<i64>) -> bool {
    &&& xs.len() == zs.len()
    &&& forall|i: int, j: int|
        0 <= i < xs.len() && 0 <= j < xs.len() ==> (xs[i] < xs[j] <==> zs[i] < zs[j])
}

proof fn lemma_counts_alike(xs: Seq<i64>, zs: Seq<i64>, i: int, k: int)
    requires
        ordered_alike(xs, zs),
        0 <= i < xs.len(),
        0 <= k <= xs.len(),
    ensures
        below(ints(xs), xs[i] as int, k) == below(ints(zs), zs[i] as int, k),
        tied(ints(xs), xs[i] as int, k) == tied(ints(zs), zs[i] as int, k),
    decreases k,
{
    if k > 0 {
        lemma_counts_alike(xs, zs, i, k - 1);
        assert(xs[k - 1] < xs[i] <==> zs[k - 1] < zs[i]);
        assert(xs[i] < xs[k - 1] <==> zs[i] < zs[k - 1]);
    }
}

proof fn lemma_sums_alike(xs: Seq<i64>, zs: Seq<i64>, ys: Seq<i64>, k: int)
    requires
        ordered_alike(xs, zs),
        0 <= k <= xs.len(),
    ensures
        product_sum(xs, ys, k) == product_sum(zs, ys, k),
        product_sum(xs, xs, k) == product_sum(zs, zs, k),
    decreases k,
{
    if k > 0 {
        lemma_sums_alike(xs, zs, ys, k - 1);
        lemma_counts_alike(xs, zs, k - 1, xs.len() as int);
        assert(deviation(xs, k - 1) == deviation(zs, k - 1));
    }
}

/// A rank correlation rests on the order of the values alone: a strictly
/// increasing change of one side leaves it as it is.
pub proof fn spearman_rests_on_order_alone(
    xs: Seq<i64>,
    zs: Seq<i64>,
    ys: Seq<i64>,
    r: Option<Correlation>,
    s: Option<Correlation>,
)
    requires
        xs.len() == ys.len(),
        ordered_alike(xs, zs),
        is_correlation(xs, ys, r),
        is_correlation(zs, ys, s),
    ensures
        r == s,
{
    lemma_sums_alike(xs, zs, ys, xs.len() as int);
}

/// One step of the inequality between a sum of products and the sums of
/// squares.
proof fn lemma_bounded_step(p: int, s: int, t: int, a: int, b: int)
    requires
        s >= 0,
        t >= 0,
        p * p <= s * t,
    ensures
        (p + a * b) * (p + a * b) <= (s + a * a) * (t + b * b),
{
    let u = s * (b * b);
    let v = t * (a * a);
    let w = p * (a * b);
    assert(u >= 0 && v >= 0) by (nonlinear_arith)
        requires
            s >= 0,
            t >= 0,
            u == s * (b * b),
            v == t * (a * a),
    ;
    let c = (a * b) * (a * b);
    assert(c >= 0) by (nonlinear_arith)
        requires
            c == (a * b) * (a * b),
    ;
    assert(u * v == (s * t) * c) by (nonlinear_arith)
        requires
            u == s * (b * b),
            v == t * (a * a),
            c == (a * b) * (a * b),
    ;
    assert(w * w == (p * p) * c) by (nonlinear_arith)
        requires
            w == p * (a * b),
            c == (a * b) * (a * b),
    ;
    let pp = p * p;
    let st = s * t;
    assert(pp * c <= st * c) by (nonlinear_arith)
        requires
            pp <= st,
            c >= 0,
    ;
    assert(4 * (u * v) <= (u + v) * (u + v)) by (nonlinear_arith);
    assert(2 * w <= u + v) by (nonlinear_arith)
        requires
            u >= 0,
            v >= 0,
            w * w <= u * v,
            4 * (u * v) <= (u + v) * (u + v),
    ;
    assert((p + a * b) * (p + a * b) == pp + 2 * w + c) by (nonlinear_arith)
        requires
            pp == p * p,
            w == p * (a * b),
            c == (a * b) * (a * b),
    ;
    assert((s + a * a) * (t + b * b) == st + u + v + c) by (nonlinear_arith)
        requires
            st == s * t,
            u == s * (b * b),
            v == t * (a * a),
            c == (a * b) * (a * b),
    ;
}

proof fn lemma_bounded(xs: Seq<i64>, ys: Seq<i64>, k: int)
    requires
        0 <= k <= xs.len(),
        xs.len() == ys.len(),
    ensures
        product_sum(xs, ys, k) * product_sum(xs, ys, k) <= product_sum(xs, xs, k) * product_sum(
            ys,
            ys,
            k,
        ),
    decreases k,
{
    if k > 0 {
        lemma_bounded(xs, ys, k - 1);
        lemma_square_sum(xs, k - 1);
        lemma_square_sum(ys, k - 1);
        lemma_bounded_step(
            product_sum(xs, ys, k - 1),
            product_sum(xs, xs, k - 1),
            product_sum(ys, ys, k - 1),
            deviation(xs, k - 1),
            deviation(ys, k - 1),
        );
    }
}

/// A rank correlation lies between minus one and one: its square, `num`
/// squared divided by the product of `dx` and `dy`, is at most one.
pub proof fn spearman_lies_between_minus_one_and_one(xs: Seq<i64>, ys: Seq<i64>, c: Correlation)
    requires
        xs.len() == ys.len(),
        is_correlation(xs, ys, Some(c)),
    ensures
        c.dx > 0,
        c.dy > 0,
        c.num * c.num <= c.dx * c.dy,
{
    let n = xs.len() as int;
    lemma_square_sum(xs, n);
    lemma_square_sum(ys, n);
    lemma_bounded(xs, ys, n);
}

/// Orders that agree correlate fully: the rank correlation is one.
pub proof fn agreeing_orders_correlate_fully(xs: Seq<i64>, ys: Seq<i64>, c: Correlation)
    requires
        ordered_alike(xs, ys),
        is_correlation(xs, ys, Some(c)),
    ensures
        c.num == c.dx,
        c.num == c.dy,
{
    let n = xs.len() as int;
    lemma_sums_alike(xs, ys, ys, n);
}

/// Whether two lists put their positions in opposite orders, ties included.
pub open spec fn ordered_oppositely(xs: Seq<i64>, zs: Seq<i64>) -> bool {
    &&& xs.len() == zs.len()
    &&& forall|i: int, j: int|
        0 <= i < xs.len() && 0 <= j < xs.len() ==> (xs[i] < xs[j] <==> zs[j] < zs[i])
}

proof fn lemma_counts_opposite(xs: Seq<i64>, zs: Seq<i64>, i: int, k: int)
    requires
        ordered_oppositely(xs, zs),
        0 <= i < xs.len(),
        0 <= k <= xs.len(),
    ensures
        below(ints(xs), xs[i] as int, k) + tied(ints(xs), xs[i] as int, k) + below(
            ints(zs),
            zs[i] as int,
            k,
        ) == k,
        tied(ints(xs), xs[i] as int, k) == tied(ints(zs), zs[i] as int, k),
    decreases k,
{
    if k > 0 {
        lemma_counts_opposite(xs, zs, i, k - 1);
        assert(xs[k - 1] < xs[i] <==> zs[i] < zs[k - 1]);
        assert(xs[i] < xs[k - 1] <==> zs[k - 1] < zs[i]);
    }
}

proof fn lemma_sums_opposite(xs: Seq<i64>, zs: Seq<i64>, ys: Seq<i64>, k: int)
    requires
        ordered_oppositely(xs, zs),
        0 <= k <= xs.len(),
    ensures
        product_sum(zs, ys, k) == -product_sum(xs, ys, k),
        product_sum(zs, zs, k) == product_sum(xs, xs, k),
    decreases k,
{
    if k > 0 {
        lemma_sums_opposite(xs, zs, ys, k - 1);
        lemma_counts_opposite(xs, zs, k - 1, xs.len() as int);
        let a = deviation(xs, k - 1);
        let b = deviation(ys, k - 1);
        assert(deviation(zs, k - 1) == -a);
        assert((-a) * b == -(a * b)) by (nonlinear_arith);
        assert((-a) * (-a) == a * a) by (nonlinear_arith);
    }
}

/// Turning the order of one side round turns the sign of the correlation round,
/// and nothing else. So opposite orders correlate at minus one.
pub proof fn an_opposite_order_turns_the_sign(
    xs: Seq<i64>,
    zs: Seq<i64>,
    ys: Seq<i64>,
    r: Option<Correlation>,
    s: Option<Correlation>,
)
    requires
        xs.len() == ys.len(),
        ordered_oppositely(xs, zs),
        is_correlation(xs, ys, r),
        is_correlation(zs, ys, s),
    ensures
        r is Some <==> s is Some,
        r is Some ==> s->0.num == -r->0.num && s->0.dx == r->0.dx && s->0.dy == r->0.dy,
{
    lemma_sums_opposite(xs, zs, ys, xs.len() as int);
}

/// The first `k` positions whose values are below `x`.
pub open spec fn places_below(v: Seq<i64>, x: i64, k: int) -> Set<int> {
    Set::new(|j: int| 0 <= j < k && v[j] < x)
}

/// The first `k` positions whose values are `x`.
pub open spec fn places_of(v: Seq<i64>, x: i64, k: int) -> Set<int> {
    Set::new(|j: int| 0 <= j < k && v[j] == x)
}

proof fn lemma_counted(v: Seq<i64>, x: i64, k: int)
    requires
        0 <= k <= v.len(),
    ensures
        places_below(v, x, k).finite(),
        places_below(v, x, k).len() == below(ints(v), x as int, k),
        places_of(v, x, k).finite(),
        places_of(v, x, k).len() == tied(ints(v), x as int, k),
    decreases k,
{
    let low = places_below(v, x, k);
    let same = places_of(v, x, k);
    if k == 0 {
        assert(low =~= Set::<int>::empty());
        assert(same =~= Set::<int>::empty());
    } else {
        lemma_counted(v, x, k - 1);
        let low_rest = places_below(v, x, k - 1);
        let same_rest = places_of(v, x, k - 1);
        if v[k - 1] < x {
            assert(low =~= low_rest.insert(k - 1));
            assert(same =~= same_rest);
        } else if v[k - 1] == x {
            assert(low =~= low_rest);
            assert(same =~= same_rest.insert(k - 1));
        } else {
            assert(low =~= low_rest);
            assert(same =~= same_rest);
        }
    }
}

/// A rank is the mean of the positions that a value takes in order: with `m`
/// values below it and `t` values like it, itself among them, those from `m + 1`
/// to `m + t`.
pub proof fn a_rank_is_the_mean_of_the_positions(v: Seq<i64>, i: int, m: nat, t: nat)
    requires
        0 <= i < v.len(),
        m == places_below(v, v[i], v.len() as int).len(),
        t == places_of(v, v[i], v.len() as int).len(),
    ensures
        doubled_rank(v, v[i]) == (m + 1) + (m + t),
{
    lemma_counted(v, v[i], v.len() as int);
}

/// No verdict is offered on fewer than twenty scored lines or thirty executed
/// mutants. On more the panel is calibrated exactly when it clears both the
/// margin and the floor, and of the rest it is marginal exactly when it beats
/// the null.
pub proof fn a_verdict_takes_enough_data(s: Standing, scored_lines: usize, executed_mutants: usize)
    ensures
        judged(s, scored_lines, executed_mutants) is InsufficientData <==> scored_lines < 20
            || executed_mutants < 30,
        judged(s, scored_lines, executed_mutants) is Calibrated <==> scored_lines >= 20
            && executed_mutants >= 30 && s.clears_margin && s.clears_floor,
        judged(s, scored_lines, executed_mutants) is Uncalibrated ==> !s.beats_null,
        judged(s, scored_lines, executed_mutants) is Marginal ==> s.beats_null && !(
        s.clears_margin && s.clears_floor),
{
}

/// A verdict on more data, of the same standing, is the same or the first one
/// offered.
pub proof fn more_data_changes_no_verdict(
    s: Standing,
    scored_lines: usize,
    executed_mutants: usize,
    more_lines: usize,
    more_mutants: usize,
)
    requires
        scored_lines <= more_lines,
        executed_mutants <= more_mutants,
        !(judged(s, scored_lines, executed_mutants) is InsufficientData),
    ensures
        judged(s, more_lines, more_mutants) == judged(s, scored_lines, executed_mutants),
{
}

} // verus!
