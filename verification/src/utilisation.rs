//! The Liu and Layland utilisation bound test.
//!
//! A set of implicit-deadline tasks is schedulable under rate-monotonic
//! priorities if its total utilisation `U`, the sum of `C / T` over its tasks,
//! is at most `n * (2^(1/n) - 1)` for `n` task families. The test is
//! sufficient only: a set that fails it may still be schedulable.
//!
//! The bound is irrational from `n = 2` on, so the test is decided in whole
//! numbers. With `U = p / q`, `U <= n * (2^(1/n) - 1)` says the same as
//! `(1 + U / n)^n <= 2`, and that as `(n * q + p)^n <= 2 * (n * q)^n`. The
//! bound itself is given in millionths, rounded down: the largest count of
//! millionths that passes the test.

use vstd::prelude::*;
use crate::error::AnalysisError;
use crate::natural::Natural;
use crate::task::Task;

verus! {

/// The product of the periods of `tasks`: the denominator over which their
/// utilisations are added.
pub open spec fn utilisation_denominator(tasks: Seq<Task>) -> nat
    decreases tasks.len(),
{
    if tasks.len() == 0 {
        1
    } else {
        utilisation_denominator(tasks.drop_last()) * tasks.last().T as nat
    }
}

/// The total utilisation of `tasks` as a count of `utilisation_denominator`
/// parts: adding `c / t` to `p / q` gives `(p * t + c * q) / (q * t)`.
pub open spec fn utilisation_numerator(tasks: Seq<Task>) -> nat
    decreases tasks.len(),
{
    if tasks.len() == 0 {
        0
    } else {
        utilisation_numerator(tasks.drop_last()) * tasks.last().T as nat + tasks.last().C as nat
            * utilisation_denominator(tasks.drop_last())
    }
}

/// `b` to the power of `e`.
pub open spec fn power(b: nat, e: nat) -> nat
    decreases e,
{
    if e == 0 {
        1
    } else {
        b * power(b, (e - 1) as nat)
    }
}

/// The utilisation `numerator / denominator` is at most the bound for `n`
/// families.
pub open spec fn within_bound(numerator: nat, denominator: nat, n: nat) -> bool {
    power(n * denominator + numerator, n) <= 2 * power(n * denominator, n)
}

/// The parts in which `utilisation_bound` gives the bound: millionths.
pub const BOUND_PARTS: u64 = 1_000_000;

/// `bound` is the bound for `n` families in parts of `BOUND_PARTS`, rounded
/// down: a utilisation of `bound` parts is within the bound, and one of
/// `bound + 1` parts is not.
pub open spec fn is_bound(n: nat, bound: nat) -> bool {
    &&& within_bound(bound, BOUND_PARTS as nat, n)
    &&& !within_bound(bound + 1, BOUND_PARTS as nat, n)
}

/// Every task of `tasks` has a period, so that its utilisation is defined.
pub open spec fn measurable(tasks: Seq<Task>) -> bool {
    forall|i: int| 0 <= i < tasks.len() ==> (#[trigger] tasks[i]).T > 0
}

/// The number of families that the bound is taken for: the number given, or
/// else the number of tasks.
pub open spec fn family_count(tasks: Seq<Task>, families: Option<u32>) -> nat {
    match families {
        Some(n) => n as nat,
        None => tasks.len(),
    }
}

/// The outcome of the utilisation test.
#[derive(Debug)]
pub struct UtilisationVerdict {
    /// The total utilisation is `numerator / denominator`.
    pub numerator: Natural,
    pub denominator: Natural,
    /// The number of families that the bound was taken for.
    pub families: u64,
    /// That bound in parts of `BOUND_PARTS`, rounded down.
    pub bound: u64,
    /// Whether the total utilisation is at most the bound itself, whatever
    /// the rounding of `bound` hides.
    pub pass: bool,
}

/// `verdict` is the outcome of the test of `tasks` against the bound for `n`
/// families.
pub open spec fn verdict_of(tasks: Seq<Task>, n: nat, verdict: UtilisationVerdict) -> bool {
    &&& verdict.numerator@ == utilisation_numerator(tasks)
    &&& verdict.denominator@ == utilisation_denominator(tasks)
    &&& verdict.families == n
    &&& is_bound(n, verdict.bound as nat)
    &&& verdict.bound <= BOUND_PARTS
    &&& verdict.pass == within_bound(utilisation_numerator(tasks), utilisation_denominator(tasks), n)
}

/// What the test of `tasks` against the bound for `n` families comes to: a
/// `DomainError` where `n` is zero or a task has no period, and the verdict
/// everywhere else.
pub open spec fn tested(tasks: Seq<Task>, n: nat, res: Result<UtilisationVerdict, AnalysisError>) -> bool {
    match res {
        Ok(verdict) => n > 0 && measurable(tasks) && verdict_of(tasks, n, verdict),
        Err(e) => e == AnalysisError::DomainError && (n == 0 || !measurable(tasks)),
    }
}

/// For a single family the bound is one: the test passes exactly where the
/// total utilisation is at most one.
pub proof fn lemma_single_family_bound(numerator: nat, denominator: nat)
    ensures
        within_bound(numerator, denominator, 1) <==> numerator <= denominator,
{
    let raised = 1 * denominator + numerator;
    let base = 1 * denominator;
    assert(power(raised, 1) == raised * power(raised, 0));
    assert(power(base, 1) == base * power(base, 0));
    assert(raised * 1 == raised && base * 1 == base);
}

proof fn lemma_power_product(x: nat, y: nat, n: nat)
    ensures
        power(x * y, n) == power(x, n) * power(y, n),
    decreases n,
{
    if n == 0 {
        assert(power(x, 0) * power(y, 0) == 1) by (nonlinear_arith)
            requires
                power(x, 0) == 1,
                power(y, 0) == 1,
        ;
    } else {
        lemma_power_product(x, y, (n - 1) as nat);
        let px = power(x, (n - 1) as nat);
        let py = power(y, (n - 1) as nat);
        assert((x * y) * (px * py) == (x * px) * (y * py)) by (nonlinear_arith);
        assert(power(x * y, n) == (x * y) * power(x * y, (n - 1) as nat));
        assert(power(x, n) == x * px);
        assert(power(y, n) == y * py);
    }
}

proof fn lemma_power_positive(x: nat, n: nat)
    requires
        x > 0,
    ensures
        power(x, n) > 0,
    decreases n,
{
    if n > 0 {
        lemma_power_positive(x, (n - 1) as nat);
        let px = power(x, (n - 1) as nat);
        assert(x * px > 0) by (nonlinear_arith)
            requires
                x > 0,
                px > 0,
        ;
    }
}

/// Bernoulli's inequality, `(1 - d/s)^n >= 1 - n*d/s`, cleared of fractions.
#[verifier::rlimit(50)]
proof fn lemma_bernoulli(s: nat, d: nat, n: nat)
    requires
        d <= s,
    ensures
        s * power((s - d) as nat, n) >= power(s, n) * (s - n * d),
    decreases n,
{
    if n == 0 {
        assert(s * 1 >= 1 * (s - 0 * d)) by (nonlinear_arith);
    } else {
        let m = (n - 1) as nat;
        lemma_bernoulli(s, d, m);
        let r = (s - d) as nat;
        let lower = power(r, m);
        let upper = power(s, m);
        assert(s * (r * lower) >= (s * upper) * (s - n * d)) by (nonlinear_arith)
            requires
                s * lower >= upper * (s - m * d),
                r == s - d,
                n == m + 1,
                d <= s,
        {
            assert(r * (s * lower) >= r * (upper * (s - m * d)));
            assert(r * (s - m * d) - s * (s - n * d) == m * d * d);
            assert(upper * (m * d * d) >= 0);
        }
    }
}

/// `(1 + U/n)^n <= (1 + U/(n + 1))^(n + 1)` for `U = p / q`, cleared of
/// fractions.
#[verifier::rlimit(50)]
proof fn lemma_compounding_grows(p: nat, q: nat, n: nat)
    requires
        n >= 1,
        q > 0,
    ensures
        power(n * q + p, n) * power((n + 1) * q, n + 1) <= power((n + 1) * q + p, n + 1) * power(
            n * q,
            n,
        ),
        ((n * q + p) * (n + 1)) * (power((n + 1) * q + p, n + 1) * power(n * q, n)) >= (power(
            n * q + p,
            n,
        ) * power((n + 1) * q, n)) * (((n * q + p) * (n + 1)) * ((n + 1) * q) + p * p),
{
    let a = (n + 1) * q + p;
    let b = n * q + p;
    let s = b * (n + 1);
    let r = a * n;
    let e = n * (n + 1) * q + p;
    assert(s - p == r && p <= s && s - n * p == e && s > 0) by (nonlinear_arith)
        requires
            a == (n + 1) * q + p,
            b == n * q + p,
            s == b * (n + 1),
            r == a * n,
            e == n * (n + 1) * q + p,
            n >= 1,
            q > 0,
    ;
    lemma_bernoulli(s, p, n);
    let pq = power(q, n);
    let x = power(a, n + 1);
    let z = power(n * q, n);
    let w = power(b, n);
    let yn = power((n + 1) * q, n);
    let y = power((n + 1) * q, n + 1);
    assert(x == a * power(a, n));
    assert(y == ((n + 1) * q) * yn);
    // power(r, n) * power(q, n) == power(a, n) * z
    lemma_power_product(r, q, n);
    lemma_power_product(a, n * q, n);
    assert(r * q == a * (n * q)) by (nonlinear_arith)
        requires
            r == a * n,
    ;
    // power(s, n) * power(q, n) == w * yn
    lemma_power_product(s, q, n);
    lemma_power_product(b, (n + 1) * q, n);
    assert(s * q == b * ((n + 1) * q)) by (nonlinear_arith)
        requires
            s == b * (n + 1),
    ;
    let pr = power(r, n);
    let ps = power(s, n);
    let pa = power(a, n);
    assert(s * (pa * z) >= (w * yn) * e) by (nonlinear_arith)
        requires
            s * pr >= ps * e,
            pr * pq == pa * z,
            ps * pq == w * yn,
    {
        assert((s * pr) * pq >= (ps * e) * pq);
        assert((s * pr) * pq == s * (pr * pq));
        assert((ps * e) * pq == (ps * pq) * e);
    }
    // e * a exceeds s * ((n + 1) * q) by p * p
    let m = n + 1;
    let u = m * q;
    assert(s == n * u + p * m) by (nonlinear_arith)
        requires
            s == b * m,
            b == n * q + p,
            u == m * q,
    ;
    assert(e == n * u + p) by (nonlinear_arith)
        requires
            e == n * m * q + p,
            u == m * q,
    ;
    assert(e * a == s * u + p * p) by (nonlinear_arith)
        requires
            e == n * u + p,
            a == u + p,
            s == n * u + p * m,
            m == n + 1,
    ;
    assert(e * a >= s * ((n + 1) * q));
    assert(s * (x * z) >= s * (w * y)) by (nonlinear_arith)
        requires
            s * (pa * z) >= (w * yn) * e,
            e * a >= s * ((n + 1) * q),
            x == a * pa,
            y == ((n + 1) * q) * yn,
    {
        assert(s * (x * z) == (s * (pa * z)) * a);
        assert((s * (pa * z)) * a >= ((w * yn) * e) * a);
        assert(((w * yn) * e) * a == (w * yn) * (e * a));
        assert((w * yn) * (e * a) >= (w * yn) * (s * ((n + 1) * q)));
        assert((w * yn) * (s * ((n + 1) * q)) == s * (w * y));
    }
    assert(x * z >= w * y) by (nonlinear_arith)
        requires
            s * (x * z) >= s * (w * y),
            s > 0,
    ;
    assert(s * (x * z) >= (w * yn) * (s * u + p * p)) by (nonlinear_arith)
        requires
            s * (pa * z) >= (w * yn) * e,
            e * a == s * u + p * p,
            x == a * pa,
    {
        assert(s * (x * z) == (s * (pa * z)) * a);
        assert((s * (pa * z)) * a >= ((w * yn) * e) * a);
        assert(((w * yn) * e) * a == (w * yn) * (e * a));
    }
}

/// The bound falls as the families grow in number: a set that passes the
/// test for `n + 1` families passes it for `n`.
#[verifier::rlimit(50)]
pub proof fn lemma_bound_falls(numerator: nat, denominator: nat, n: nat)
    requires
        n >= 1,
        denominator > 0,
        within_bound(numerator, denominator, n + 1),
    ensures
        within_bound(numerator, denominator, n),
{
    let p = numerator;
    let q = denominator;
    lemma_compounding_grows(p, q, n);
    let x = power((n + 1) * q + p, n + 1);
    let y = power((n + 1) * q, n + 1);
    let z = power(n * q, n);
    let w = power(n * q + p, n);
    assert((n + 1) * q > 0) by (nonlinear_arith)
        requires
            q > 0,
    ;
    lemma_power_positive((n + 1) * q, n + 1);
    assert(w <= 2 * z) by (nonlinear_arith)
        requires
            w * y <= x * z,
            x <= 2 * y,
            y > 0,
    {
        assert(x * z <= (2 * y) * z);
        assert(w * y <= (2 * z) * y);
    }
}

proof fn lemma_power_monotone(a: nat, b: nat, n: nat)
    requires
        a <= b,
    ensures
        power(a, n) <= power(b, n),
    decreases n,
{
    if n > 0 {
        lemma_power_monotone(a, b, (n - 1) as nat);
        let pa = power(a, (n - 1) as nat);
        let pb = power(b, (n - 1) as nat);
        assert(a * pa <= b * pb) by (nonlinear_arith)
            requires
                a <= b,
                pa <= pb,
        ;
    }
}

/// A smaller utilisation is within every bound that a larger one is within.
pub proof fn lemma_less_fits(numerator: nat, larger: nat, denominator: nat, n: nat)
    requires
        numerator <= larger,
        within_bound(larger, denominator, n),
    ensures
        within_bound(numerator, denominator, n),
{
    lemma_power_monotone(n * denominator + numerator, n * denominator + larger, n);
}

proof fn lemma_nothing_fits(denominator: nat, n: nat)
    ensures
        within_bound(0, denominator, n),
{
}

/// No bound is more than the whole processor: a utilisation above one is
/// within the bound for no number of families.
pub proof fn lemma_more_than_all_never_fits(denominator: nat, n: nat)
    requires
        n >= 1,
        denominator > 0,
    ensures
        !within_bound(denominator + 1, denominator, n),
    decreases n,
{
    if n == 1 {
        lemma_single_family_bound(denominator + 1, denominator);
    } else {
        lemma_more_than_all_never_fits(denominator, (n - 1) as nat);
        if within_bound(denominator + 1, denominator, n) {
            lemma_bound_falls(denominator + 1, denominator, (n - 1) as nat);
        }
    }
}

/// There is one bound for each number of families.
pub proof fn lemma_bound_unique(n: nat, one: nat, other: nat)
    requires
        is_bound(n, one),
        is_bound(n, other),
    ensures
        one == other,
{
    if one < other {
        lemma_less_fits(one + 1, other, BOUND_PARTS as nat, n);
    }
    if other < one {
        lemma_less_fits(other + 1, one, BOUND_PARTS as nat, n);
    }
}

/// For a single family the bound is the whole processor.
pub proof fn lemma_bound_for_one_family()
    ensures
        is_bound(1, BOUND_PARTS as nat),
{
    lemma_single_family_bound(BOUND_PARTS as nat, BOUND_PARTS as nat);
    lemma_single_family_bound(BOUND_PARTS as nat + 1, BOUND_PARTS as nat);
}

/// The bound never rises with the number of families.
pub proof fn lemma_bound_never_rises(n: nat, bound: nat, next: nat)
    requires
        n >= 1,
        is_bound(n, bound),
        is_bound(n + 1, next),
    ensures
        next <= bound,
{
    lemma_bound_falls(next, BOUND_PARTS as nat, n);
    if next > bound {
        lemma_less_fits(bound + 1, next, BOUND_PARTS as nat, n);
    }
}

/// `(1 + 1/b)^n <= 1 / (1 - n/b)`, cleared of fractions.
#[verifier::rlimit(50)]
proof fn lemma_bernoulli_upper(b: nat, n: nat)
    requires
        b >= n,
    ensures
        power(b + 1, n) * (b - n) <= power(b, n) * b,
    decreases n,
{
    if n == 0 {
        assert(1 * (b - 0) <= 1 * b);
    } else {
        let m = (n - 1) as nat;
        lemma_bernoulli_upper(b, m);
        let up = power(b + 1, m);
        let base = power(b, m);
        assert(((b + 1) * up) * (b - n) <= (b * base) * b) by (nonlinear_arith)
            requires
                up * (b - m) <= base * b,
                n == m + 1,
                b >= n,
                up >= 0,
        {
            assert((b + 1) * (b - n) <= b * (b - m));
            assert(((b + 1) * up) * (b - n) == up * ((b + 1) * (b - n)));
            assert(up * ((b + 1) * (b - n)) <= up * (b * (b - m)));
            assert(up * (b * (b - m)) == b * (up * (b - m)));
            assert(b * (up * (b - m)) <= b * (base * b));
        }
    }
}

/// No bound is less than a half: a utilisation of one half is within the
/// bound for every number of families.
pub proof fn lemma_half_always_fits(n: nat)
    requires
        n >= 1,
    ensures
        within_bound(1, 2, n),
{
    lemma_bernoulli_upper(n * 2, n);
    let up = power(n * 2 + 1, n);
    let base = power(n * 2, n);
    assert(up <= 2 * base) by (nonlinear_arith)
        requires
            up * (n * 2 - n) <= base * (n * 2),
            n >= 1,
    {
        assert(up * n <= (2 * base) * n);
    }
}

/// The test looks at the fraction alone, whatever it is written over.
pub proof fn lemma_scale_fits(numerator: nat, denominator: nat, k: nat, n: nat)
    requires
        k > 0,
    ensures
        within_bound(k * numerator, k * denominator, n) == within_bound(numerator, denominator, n),
{
    let p = numerator;
    let q = denominator;
    let up = n * q + p;
    let base = n * q;
    assert(n * (k * q) + k * p == k * up && n * (k * q) == k * base) by (nonlinear_arith)
        requires
            up == n * q + p,
            base == n * q,
    ;
    lemma_power_product(k, up, n);
    lemma_power_product(k, base, n);
    lemma_power_positive(k, n);
    let scale = power(k, n);
    let x = power(up, n);
    let y = power(base, n);
    assert((scale * x <= 2 * (scale * y)) == (x <= 2 * y)) by (nonlinear_arith)
        requires
            scale > 0,
    ;
}

proof fn lemma_boundary(denominator: nat, n: nat, low: nat, high: nat) -> (found: nat)
    requires
        low < high,
        within_bound(low, denominator, n),
        !within_bound(high, denominator, n),
    ensures
        low <= found < high,
        within_bound(found, denominator, n),
        !within_bound(found + 1, denominator, n),
    decreases high - low,
{
    if within_bound(low + 1, denominator, n) {
        lemma_boundary(denominator, n, low + 1, high)
    } else {
        low
    }
}

/// The bound falls strictly with the number of families: for every `n` there
/// is a utilisation, here `witness.0 / witness.1`, that passes the test for
/// `n` families and fails it for `n + 1`.
#[verifier::rlimit(100)]
pub proof fn lemma_bound_falls_strictly_between(n: nat) -> (witness: (nat, nat))
    requires
        n >= 1,
    ensures
        witness.1 > 0,
        within_bound(witness.0, witness.1, n),
        !within_bound(witness.0, witness.1, n + 1),
{
    let m = n + 1;
    let k = 4 * n * (m * m);
    let q = 2 * k;
    assert(k > 0 && q >= 8) by (nonlinear_arith)
        requires
            k == 4 * n * (m * m),
            q == 2 * k,
            m == n + 1,
            n >= 1,
    ;
    // One half passes, more than all fails: somewhere between the test turns.
    lemma_half_always_fits(m);
    lemma_scale_fits(1, 2, k, m);
    assert(k * 1 == k && k * 2 == q);
    lemma_more_than_all_never_fits(q, m);
    let p = lemma_boundary(q, m, k, q + 1);
    // What passes for `m` families has room to spare for `n`.
    lemma_compounding_grows(p, q, n);
    let b = n * q + p;
    let u = m * q;
    let s = b * m;
    let x = power(m * q + p, m);
    let y = power(m * q, m);
    let yn = power(m * q, n);
    let z = power(n * q, n);
    let w = power(b, n);
    let su = s * u;
    let pp = p * p;
    assert(u > 0 && b >= 2 * n && s > 0) by (nonlinear_arith)
        requires
            u == m * q,
            b == n * q + p,
            s == b * m,
            m == n + 1,
            q >= 8,
            n >= 1,
    ;
    lemma_power_positive(u, n);
    assert(y == u * yn);
    assert(2 * (su * z) >= w * (su + pp)) by (nonlinear_arith)
        requires
            s * (x * z) >= (w * yn) * (su + pp),
            x <= 2 * y,
            y == u * yn,
            su == s * u,
            yn > 0,
            s > 0,
            z >= 0,
    {
        assert(s * (x * z) <= s * ((2 * y) * z));
        assert(s * ((2 * y) * z) == yn * (2 * (su * z)));
        assert((w * yn) * (su + pp) == yn * (w * (su + pp)));
    }
    let d = b - n;
    assert(pp * d >= n * su) by (nonlinear_arith)
        requires
            pp == p * p,
            d == b - n,
            b >= 2 * n,
            p >= k,
            k == 4 * n * (m * m),
            q == 2 * k,
            su == s * u,
            s == b * m,
            u == m * q,
            n >= 1,
    {
        assert(2 * d >= b);
        assert(p * p >= k * k);
        assert(2 * (pp * d) >= pp * b);
        assert(pp * b >= (k * k) * b);
        assert((k * k) * b == 2 * (n * (s * u)));
    }
    assert(su > 0) by (nonlinear_arith)
        requires
            su == s * u,
            s > 0,
            u > 0,
    ;
    lemma_bernoulli_upper(b, n);
    let top = power(b + 1, n);
    assert(top <= 2 * z) by (nonlinear_arith)
        requires
            top * d <= w * b,
            d == b - n,
            d > 0,
            su > 0,
            pp * d >= n * su,
            2 * (su * z) >= w * (su + pp),
            w >= 0,
            top >= 0,
    {
        assert((top * d) * su <= (w * b) * su);
        assert((w * b) * su == w * (d * su) + w * (n * su));
        assert(w * (n * su) <= w * (pp * d));
        assert(w * (d * su) + w * (pp * d) == d * (w * (su + pp)));
        assert(d * (w * (su + pp)) <= d * (2 * (su * z)));
        assert(d * (2 * (su * z)) == (2 * z) * (d * su));
        assert((top * d) * su == top * (d * su));
        assert(d * su > 0);
    }
    assert(n * q + (p + 1) == b + 1);
    (p + 1, q)
}

/// The denominator of a measurable set is not zero.
pub proof fn lemma_denominator_positive(tasks: Seq<Task>)
    requires
        measurable(tasks),
    ensures
        utilisation_denominator(tasks) > 0,
    decreases tasks.len(),
{
    if tasks.len() > 0 {
        let rest = tasks.drop_last();
        assert forall|i: int| 0 <= i < rest.len() implies (#[trigger] rest[i]).T > 0 by {
            assert(rest[i] == tasks[i]);
        }
        lemma_denominator_positive(rest);
        assert(tasks.last() == tasks[tasks.len() - 1]);
        let q = utilisation_denominator(rest);
        let t = tasks.last().T as nat;
        assert(q * t > 0) by (nonlinear_arith)
            requires
                q > 0,
                t > 0,
        ;
    }
}

fn check_measurable(tasks: &Vec<Task>) -> (ok: bool)
    ensures
        ok == measurable(tasks@),
{
    let mut i: usize = 0;
    while i < tasks.len()
        invariant
            i <= tasks.len(),
            forall|k: int| 0 <= k < i ==> (#[trigger] tasks@[k]).T > 0,
        decreases tasks.len() - i,
    {
        if tasks[i].T == 0 {
            return false;
        }
        i += 1;
    }
    true
}

fn raise(base: &Natural, e: u64) -> (raised: Natural)
    ensures
        raised@ == power(base@, e as nat),
{
    let mut raised = Natural::from_u64(1);
    let mut i: u64 = 0;
    while i < e
        invariant
            i <= e,
            raised@ == power(base@, i as nat),
        decreases e - i,
    {
        raised = base.times(&raised);
        i += 1;
    }
    raised
}

/// Whether the utilisation `numerator / denominator` is at most the bound
/// for `n` families.
fn fits(numerator: &Natural, denominator: &Natural, n: u64) -> (pass: bool)
    ensures
        pass == within_bound(numerator@, denominator@, n as nat),
{
    let base = Natural::from_u64(n).times(denominator);
    let raised = base.plus(numerator);
    let left = raise(&raised, n);
    let right = Natural::from_u64(2).times(&raise(&base, n));
    left.at_most(&right)
}

/// The bound for `n` families in parts of `BOUND_PARTS`, rounded down.
///
/// Fails with `DomainError` where `n` is zero. The time taken grows with the
/// square of `n`.
pub fn utilisation_bound(n: u64) -> (res: Result<u64, AnalysisError>)
    ensures
        match res {
            Ok(bound) => n > 0 && bound <= BOUND_PARTS && is_bound(n as nat, bound as nat),
            Err(e) => n == 0 && e == AnalysisError::DomainError,
        },
{
    if n == 0 {
        return Err(AnalysisError::DomainError);
    }
    let whole = Natural::from_u64(BOUND_PARTS);
    let mut low: u64 = 0;
    let mut high: u64 = BOUND_PARTS + 1;
    proof {
        lemma_nothing_fits(BOUND_PARTS as nat, n as nat);
        lemma_more_than_all_never_fits(BOUND_PARTS as nat, n as nat);
    }
    while high - low > 1
        invariant
            low < high <= BOUND_PARTS + 1,
            whole@ == BOUND_PARTS,
            within_bound(low as nat, BOUND_PARTS as nat, n as nat),
            !within_bound(high as nat, BOUND_PARTS as nat, n as nat),
        decreases high - low,
    {
        let middle = low + (high - low) / 2;
        if fits(&Natural::from_u64(middle), &whole, n) {
            low = middle;
        } else {
            high = middle;
        }
    }
    Ok(low)
}

/// The total utilisation of `tasks` as a fraction, numerator first.
pub fn total_utilisation(tasks: &Vec<Task>) -> (total: (Natural, Natural))
    ensures
        total.0@ == utilisation_numerator(tasks@),
        total.1@ == utilisation_denominator(tasks@),
{
    let mut numerator = Natural::from_u64(0);
    let mut denominator = Natural::from_u64(1);
    let mut i: usize = 0;
    proof {
        assert(tasks@.take(0) =~= Seq::<Task>::empty());
    }
    while i < tasks.len()
        invariant
            i <= tasks.len(),
            numerator@ == utilisation_numerator(tasks@.take(i as int)),
            denominator@ == utilisation_denominator(tasks@.take(i as int)),
        decreases tasks.len() - i,
    {
        let period = Natural::from_u64(tasks[i].T);
        let computation = Natural::from_u64(tasks[i].C);
        proof {
            assert(tasks@.take(i + 1).drop_last() =~= tasks@.take(i as int));
            assert(tasks@.take(i + 1).last() == tasks@[i as int]);
        }
        numerator = numerator.times(&period).plus(&computation.times(&denominator));
        denominator = denominator.times(&period);
        i += 1;
    }
    proof {
        assert(tasks@.take(tasks@.len() as int) =~= tasks@);
    }
    (numerator, denominator)
}

fn test_against(tasks: &Vec<Task>, n: u64) -> (res: Result<UtilisationVerdict, AnalysisError>)
    ensures
        tested(tasks@, n as nat, res),
{
    if n == 0 || !check_measurable(tasks) {
        return Err(AnalysisError::DomainError);
    }
    let (numerator, denominator) = total_utilisation(tasks);
    let pass = fits(&numerator, &denominator, n);
    match utilisation_bound(n) {
        Ok(bound) => Ok(UtilisationVerdict { numerator, denominator, families: n, bound, pass }),
        // Never taken: there is a bound for every number of families but zero.
        Err(e) => Err(e),
    }
}

/// The utilisation test of `tasks` against the bound for `families` task
/// families, or for as many families as there are tasks where none is given.
///
/// Fails with `DomainError` where that number is zero or a task has no
/// period. The time taken grows with the square of the number of families.
#[allow(non_snake_case)]
pub fn LL_utilissation(tasks: &Vec<Task>, families: Option<u32>) -> (res: Result<
    UtilisationVerdict,
    AnalysisError,
>)
    ensures
        tested(tasks@, family_count(tasks@, families), res),
{
    let n: u64 = match families {
        Some(given) => given as u64,
        None => tasks.len() as u64,
    };
    test_against(tasks, n)
}

/// The number of task families of `task_set`. Every task is taken as a family
/// of its own.
fn calc_families(task_set: &Vec<Task>) -> (n: usize)
    ensures
        n == task_set@.len(),
{
    task_set.len()
}

/// The utilisation test of `task_set` against the bound for its number of
/// tasks, or for its number of families where `families` is set.
///
/// Fails with `DomainError` where the set is empty or a task has no period.
pub fn test_utilisation(task_set: &Vec<Task>, families: bool) -> (res: Result<
    UtilisationVerdict,
    AnalysisError,
>)
    ensures
        tested(task_set@, task_set@.len(), res),
{
    let n = if families {
        calc_families(task_set)
    } else {
        task_set.len()
    };
    test_against(task_set, n as u64)
}

} // verus!
