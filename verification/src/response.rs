//! Response-time analysis for fixed-priority preemptive scheduling.
//!
//! The worst-case response time of a task is the least solution `R` of
//!
//! ```text
//! R = C + sum over the higher-priority tasks j of ceil(R / T_j) * C_j
//! ```
//!
//! found by iterating the right-hand side from `R = C`. The iteration is
//! followed up to a horizon of `HORIZON_FACTOR` deadlines; a recurrence
//! without a solution below it does not converge.

use vstd::prelude::*;
use crate::error::AnalysisError;
use crate::task::Task;

verus! {

/// How many deadlines long a response time may be and still be followed to
/// its end. Beyond that the recurrence is reported as not converging.
pub const HORIZON_FACTOR: u64 = 1000;

/// The number of activations of a task with period `t` in a window of length
/// `r`: `r / t`, rounded up.
pub open spec fn activations(r: int, t: int) -> int {
    (r + t - 1) / t
}

/// What `other` adds to the response time of a task of priority `p` in a
/// window of length `r`: nothing unless its priority is higher.
pub open spec fn demand(other: Task, p: int, r: int) -> int {
    if other.P > p {
        activations(r, other.T as int) * other.C
    } else {
        0
    }
}

/// The time that the tasks of `tasks` with a priority above `p` take in a
/// window of length `r`.
pub open spec fn interference(tasks: Seq<Task>, p: int, r: int) -> int
    decreases tasks.len(),
{
    if tasks.len() == 0 {
        0
    } else {
        interference(tasks.drop_last(), p, r) + demand(tasks.last(), p, r)
    }
}

/// The right-hand side of the recurrence for `task` among `tasks`.
pub open spec fn recurrence(task: Task, tasks: Seq<Task>, r: int) -> int {
    task.C + interference(tasks, task.P as int, r)
}

/// The `k`-th iterate of the recurrence, from `R = C`.
pub open spec fn iterate(task: Task, tasks: Seq<Task>, k: nat) -> int
    decreases k,
{
    if k == 0 {
        task.C as int
    } else {
        recurrence(task, tasks, iterate(task, tasks, (k - 1) as nat))
    }
}

/// `r` solves the recurrence, and no smaller window does.
pub open spec fn least_fixed_point(task: Task, tasks: Seq<Task>, r: int) -> bool {
    &&& recurrence(task, tasks, r) == r
    &&& forall|s: int| 0 <= s && #[trigger] recurrence(task, tasks, s) == s ==> r <= s
}

/// The analysis of `task` among `tasks` is defined: `task` is well formed,
/// and every task of higher priority has a period. Nothing else of the other
/// tasks is read.
pub open spec fn analysable(task: Task, tasks: Seq<Task>) -> bool {
    &&& task.well_formed()
    &&& forall|j: int| 0 <= j < tasks.len() && (#[trigger] tasks[j]).P > task.P ==> tasks[j].T > 0
}

/// The longest response time of `task` that the analysis follows:
/// `HORIZON_FACTOR` deadlines, or what 64 bits hold if that is less.
pub open spec fn horizon(task: Task) -> int {
    if task.D * HORIZON_FACTOR <= u64::MAX {
        task.D * HORIZON_FACTOR
    } else {
        u64::MAX as int
    }
}

/// The recurrence has a least solution within the horizon.
pub open spec fn converges(task: Task, tasks: Seq<Task>) -> bool {
    exists|s: int| 0 <= s <= horizon(task) && #[trigger] least_fixed_point(task, tasks, s)
}

/// The result of the analysis of `task` among `tasks`: the least solution of
/// the recurrence where the analysis is defined and that solution lies
/// within the horizon.
pub open spec fn response_time_spec(task: Task, tasks: Seq<Task>) -> Result<u64, AnalysisError> {
    if !analysable(task, tasks) {
        Err(AnalysisError::DomainError)
    } else if converges(task, tasks) {
        Ok(
            (choose|s: int| 0 <= s <= horizon(task) && #[trigger] least_fixed_point(task, tasks, s))
                as u64,
        )
    } else {
        Err(AnalysisError::NonConvergence)
    }
}

#[verifier::rlimit(50)]
proof fn lemma_activations(r: int, t: int)
    requires
        0 <= r,
        0 < t,
    ensures
        0 <= activations(r, t) <= r,
        activations(r, t) * t >= r,
        activations(r, t) == if r % t == 0 {
            r / t
        } else {
            r / t + 1
        },
{
    let q = r / t;
    let m = r % t;
    assert(r == t * q + m && 0 <= m < t) by {
        vstd::arithmetic::div_mod::lemma_fundamental_div_mod(r, t);
        vstd::arithmetic::div_mod::lemma_mod_bound(r, t);
    }
    assert(0 <= q <= r) by (nonlinear_arith)
        requires
            r == t * q + m,
            0 <= m < t,
            0 <= r,
    ;
    if m == 0 {
        vstd::arithmetic::div_mod::lemma_fundamental_div_mod_converse(r + t - 1, t, q, t - 1);
    } else {
        assert(r + t - 1 == (q + 1) * t + (m - 1)) by (nonlinear_arith)
            requires
                r == t * q + m,
        ;
        vstd::arithmetic::div_mod::lemma_fundamental_div_mod_converse(r + t - 1, t, q + 1, m - 1);
        assert(q + 1 <= r) by (nonlinear_arith)
            requires
                r == t * q + m,
                0 < m < t,
                0 <= q,
        ;
    }
    assert(activations(r, t) * t >= r) by (nonlinear_arith)
        requires
            r == t * q + m,
            0 <= m < t,
            activations(r, t) == if m == 0 {
                q
            } else {
                q + 1
            },
    ;
}

proof fn lemma_activations_monotone(r: int, s: int, t: int)
    requires
        0 <= r <= s,
        0 < t,
    ensures
        activations(r, t) <= activations(s, t),
{
    vstd::arithmetic::div_mod::lemma_div_is_ordered(r + t - 1, s + t - 1, t);
}

proof fn lemma_demand_monotone(other: Task, p: int, r: int, s: int)
    requires
        0 <= r <= s,
        other.P > p ==> other.T > 0,
    ensures
        0 <= demand(other, p, r) <= demand(other, p, s),
{
    if other.P > p {
        let t = other.T as int;
        let c = other.C as int;
        lemma_activations(r, t);
        lemma_activations_monotone(r, s, t);
        let a = activations(r, t);
        let b = activations(s, t);
        assert(0 <= a * c <= b * c) by (nonlinear_arith)
            requires
                0 <= a <= b,
                0 <= c,
        ;
    }
}

/// More time in the window never means less interference.
pub proof fn lemma_interference_monotone(tasks: Seq<Task>, p: int, r: int, s: int)
    requires
        0 <= r <= s,
        forall|j: int| 0 <= j < tasks.len() && (#[trigger] tasks[j]).P > p ==> tasks[j].T > 0,
    ensures
        0 <= interference(tasks, p, r) <= interference(tasks, p, s),
    decreases tasks.len(),
{
    if tasks.len() > 0 {
        let rest = tasks.drop_last();
        assert forall|j: int| 0 <= j < rest.len() && (#[trigger] rest[j]).P > p implies rest[j].T
            > 0 by {
            assert(rest[j] == tasks[j]);
        }
        lemma_interference_monotone(rest, p, r, s);
        assert(tasks.last() == tasks[tasks.len() - 1]);
        lemma_demand_monotone(tasks.last(), p, r, s);
    }
}

proof fn lemma_interference_prefix(tasks: Seq<Task>, p: int, r: int, n: int)
    requires
        0 <= r,
        0 <= n <= tasks.len(),
        forall|j: int| 0 <= j < tasks.len() && (#[trigger] tasks[j]).P > p ==> tasks[j].T > 0,
    ensures
        0 <= interference(tasks.subrange(0, n), p, r) <= interference(tasks, p, r),
    decreases tasks.len() - n,
{
    let prefix = tasks.subrange(0, n);
    assert forall|j: int| 0 <= j < prefix.len() && (#[trigger] prefix[j]).P > p implies prefix[j].T
        > 0 by {
        assert(prefix[j] == tasks[j]);
    }
    lemma_interference_monotone(prefix, p, r, r);
    if n == tasks.len() {
        assert(prefix =~= tasks);
    } else {
        let longer = tasks.subrange(0, n + 1);
        assert(longer.drop_last() =~= prefix);
        assert(longer.last() == tasks[n]);
        lemma_demand_monotone(tasks[n], p, r, r);
        lemma_interference_prefix(tasks, p, r, n + 1);
    }
}

/// The iterates never decrease.
pub proof fn lemma_iterate_monotone(task: Task, tasks: Seq<Task>, a: nat, b: nat)
    requires
        analysable(task, tasks),
        a <= b,
    ensures
        task.C <= iterate(task, tasks, a) <= iterate(task, tasks, b),
    decreases b, b - a,
{
    let p = task.P as int;
    if b == 0 {
    } else if a == b {
        lemma_iterate_monotone(task, tasks, 0, (b - 1) as nat);
        lemma_interference_monotone(tasks, p, iterate(task, tasks, (b - 1) as nat), iterate(task, tasks, (b - 1) as nat));
    } else if a + 1 < b {
        lemma_iterate_monotone(task, tasks, a, (b - 1) as nat);
        lemma_iterate_monotone(task, tasks, (b - 1) as nat, b);
    } else {
        // b == a + 1
        if a == 0 {
            lemma_interference_monotone(tasks, p, task.C as int, task.C as int);
        } else {
            lemma_iterate_monotone(task, tasks, (a - 1) as nat, a);
            lemma_interference_monotone(
                tasks,
                p,
                iterate(task, tasks, (a - 1) as nat),
                iterate(task, tasks, a),
            );
        }
    }
}

/// No iterate passes a window that the recurrence does not enlarge.
pub proof fn lemma_iterate_below_fixed_point(task: Task, tasks: Seq<Task>, k: nat, s: int)
    requires
        analysable(task, tasks),
        0 <= s,
        recurrence(task, tasks, s) <= s,
    ensures
        iterate(task, tasks, k) <= s,
    decreases k,
{
    let p = task.P as int;
    if k == 0 {
        lemma_interference_monotone(tasks, p, s, s);
    } else {
        lemma_iterate_below_fixed_point(task, tasks, (k - 1) as nat, s);
        lemma_iterate_monotone(task, tasks, 0, (k - 1) as nat);
        lemma_interference_monotone(tasks, p, iterate(task, tasks, (k - 1) as nat), s);
    }
}

/// A task that can meet its deadline is given its response time: where the
/// analysis is defined and the recurrence has a solution `x` within the
/// deadline, the analysis gives the least solution, which is at most `x`.
pub proof fn lemma_solution_within_deadline(task: Task, tasks: Seq<Task>, x: int)
    requires
        analysable(task, tasks),
        0 <= x <= task.D,
        recurrence(task, tasks, x) == x,
    ensures
        response_time_spec(task, tasks) matches Ok(r) && r <= x && least_fixed_point(
            task,
            tasks,
            r as int,
        ),
{
    assert(task.D <= horizon(task)) by (nonlinear_arith)
        requires
            horizon(task) == if task.D * HORIZON_FACTOR <= u64::MAX {
                task.D * HORIZON_FACTOR
            } else {
                u64::MAX as int
            },
            HORIZON_FACTOR == 1000,
            0 <= task.D <= u64::MAX,
    ;
    lemma_solution_within_horizon(task, tasks, x);
}

/// The recurrence has at most one least solution.
pub proof fn lemma_least_fixed_point_unique(task: Task, tasks: Seq<Task>, a: int, b: int)
    requires
        0 <= a,
        0 <= b,
        least_fixed_point(task, tasks, a),
        least_fixed_point(task, tasks, b),
    ensures
        a == b,
{
}

/// A response time that the analysis reports is the least solution of the
/// recurrence, and lies between the computation time and the horizon.
pub proof fn lemma_response_time_is_least_fixed_point(task: Task, tasks: Seq<Task>)
    ensures
        response_time_spec(task, tasks) matches Ok(r) ==> least_fixed_point(task, tasks, r as int)
            && task.C <= r <= horizon(task),
{
    if response_time_spec(task, tasks) is Ok {
        let s = choose|s: int| 0 <= s <= horizon(task) && #[trigger] least_fixed_point(task, tasks, s);
        lemma_interference_monotone(tasks, task.P as int, s, s);
    }
}

/// Where the analysis is defined and `r`, within the horizon, is the least
/// solution of the recurrence, the analysis gives `r`.
pub proof fn lemma_least_fixed_point_is_response_time(task: Task, tasks: Seq<Task>, r: int)
    requires
        analysable(task, tasks),
        0 <= r <= horizon(task),
        least_fixed_point(task, tasks, r),
    ensures
        response_time_spec(task, tasks) == Ok::<u64, AnalysisError>(r as u64),
{
    let s = choose|s: int| 0 <= s <= horizon(task) && #[trigger] least_fixed_point(task, tasks, s);
    lemma_least_fixed_point_unique(task, tasks, r, s);
}

/// Success is owed wherever a solution lies within the horizon, and so
/// wherever one lies within the deadline: if the analysis is defined and the
/// recurrence does not enlarge a window `x` within the horizon, the analysis
/// gives the least solution, which is at most `x`.
pub proof fn lemma_solution_within_horizon(task: Task, tasks: Seq<Task>, x: int)
    requires
        analysable(task, tasks),
        0 <= x <= horizon(task),
        recurrence(task, tasks, x) <= x,
    ensures
        response_time_spec(task, tasks) matches Ok(r) && r <= x && least_fixed_point(
            task,
            tasks,
            r as int,
        ),
{
    lemma_bounded_settles(task, tasks, x);
    let k = choose|k: nat|
        {
            &&& k <= x - task.C
            &&& #[trigger] iterate(task, tasks, k + 1) == iterate(task, tasks, k)
            &&& least_fixed_point(task, tasks, iterate(task, tasks, k))
            &&& 0 <= iterate(task, tasks, k) <= x
        };
    lemma_least_fixed_point_is_response_time(task, tasks, iterate(task, tasks, k));
}

proof fn lemma_interference_remove(tasks: Seq<Task>, p: int, r: int, j: int)
    requires
        0 <= j < tasks.len(),
    ensures
        interference(tasks, p, r) == interference(tasks.remove(j), p, r) + demand(tasks[j], p, r),
    decreases tasks.len(),
{
    if j == tasks.len() - 1 {
        assert(tasks.remove(j) =~= tasks.drop_last());
    } else {
        let rest = tasks.drop_last();
        lemma_interference_remove(rest, p, r, j);
        assert(tasks.remove(j).drop_last() =~= rest.remove(j));
        assert(tasks.remove(j).last() == tasks.last());
        assert(rest[j] == tasks[j]);
    }
}

/// Taking a task out of the set cannot lengthen a response time: where the
/// analysis of `task` gives a response time with the task at place `j` in the
/// set, it gives one without it, and that one is no longer.
pub proof fn lemma_removal_cannot_delay(task: Task, tasks: Seq<Task>, j: int)
    requires
        0 <= j < tasks.len(),
    ensures
        response_time_spec(task, tasks) matches Ok(with) ==> (response_time_spec(
            task,
            tasks.remove(j),
        ) matches Ok(without) && without <= with),
{
    let fewer = tasks.remove(j);
    if response_time_spec(task, tasks) is Ok {
        let p = task.P as int;
        let with = response_time_spec(task, tasks)->Ok_0 as int;
        lemma_response_time_is_least_fixed_point(task, tasks);
        lemma_interference_remove(tasks, p, with, j);
        lemma_demand_monotone(tasks[j], p, with, with);
        assert(analysable(task, fewer)) by {
            assert forall|i: int| 0 <= i < fewer.len() && (#[trigger] fewer[i]).P
                > task.P implies fewer[i].T > 0 by {
                if i < j {
                    assert(fewer[i] == tasks[i]);
                } else {
                    assert(fewer[i] == tasks[i + 1]);
                }
            }
        }
        lemma_solution_within_horizon(task, fewer, with);
    }
}

#[verifier::rlimit(50)]
proof fn lemma_interference_scales(tasks: Seq<Task>, p: int, horizon: int, s: int)
    requires
        0 <= s,
        0 < horizon,
        forall|j: int|
            0 <= j < tasks.len() && (#[trigger] tasks[j]).P > p ==> tasks[j].T > 0 && horizon
                % (tasks[j].T as int) == 0,
    ensures
        horizon * interference(tasks, p, s) >= s * interference(tasks, p, horizon),
    decreases tasks.len(),
{
    if tasks.len() > 0 {
        let rest = tasks.drop_last();
        let last = tasks.last();
        assert forall|j: int| 0 <= j < rest.len() && (#[trigger] rest[j]).P > p implies rest[j].T
            > 0 && horizon % (rest[j].T as int) == 0 by {
            assert(rest[j] == tasks[j]);
        }
        lemma_interference_scales(rest, p, horizon, s);
        assert(last == tasks[tasks.len() - 1]);
        assert(horizon * demand(last, p, s) >= s * demand(last, p, horizon)) by {
            if last.P > p {
                let t = last.T as int;
                let c = last.C as int;
                lemma_activations(s, t);
                lemma_activations(horizon, t);
                vstd::arithmetic::div_mod::lemma_fundamental_div_mod(horizon, t);
                let a = activations(s, t);
                let h = horizon / t;
                assert(activations(horizon, t) == h);
                assert(horizon * (a * c) >= s * (h * c)) by (nonlinear_arith)
                    requires
                        horizon == t * h,
                        a * t >= s,
                        0 <= c,
                        0 <= h,
                ;
            }
        }
        assert(horizon * (interference(rest, p, s) + demand(last, p, s)) == horizon
            * interference(rest, p, s) + horizon * demand(last, p, s)) by (nonlinear_arith);
        assert(s * (interference(rest, p, horizon) + demand(last, p, horizon)) == s
            * interference(rest, p, horizon) + s * demand(last, p, horizon)) by (nonlinear_arith);
    }
}

/// Overload is reported as such. Where the tasks above `task` alone use the
/// whole processor, the recurrence has no solution and the analysis ends in
/// `NonConvergence`. They do so where, over a common multiple `load_window`
/// of their periods, their activations take `load_window` or more.
pub proof fn lemma_overload_never_converges(task: Task, tasks: Seq<Task>, load_window: int)
    requires
        analysable(task, tasks),
        0 < load_window,
        forall|j: int|
            0 <= j < tasks.len() && (#[trigger] tasks[j]).P > task.P ==> load_window % (
            tasks[j].T as int) == 0,
        interference(tasks, task.P as int, load_window) >= load_window,
    ensures
        forall|s: int| 0 <= s ==> #[trigger] recurrence(task, tasks, s) > s,
        response_time_spec(task, tasks) == Err::<u64, AnalysisError>(AnalysisError::NonConvergence),
{
    let p = task.P as int;
    assert forall|s: int| 0 <= s implies #[trigger] recurrence(task, tasks, s) > s by {
        lemma_interference_scales(tasks, p, load_window, s);
        let load = interference(tasks, p, load_window);
        let got = interference(tasks, p, s);
        assert(got >= s) by (nonlinear_arith)
            requires
                load_window * got >= s * load,
                load >= load_window,
                load_window > 0,
                s >= 0,
        ;
    }
    assert forall|s: int| 0 <= s <= horizon(task) implies !#[trigger] least_fixed_point(
        task,
        tasks,
        s,
    ) by {
        assert(recurrence(task, tasks, s) > s);
    }
}

#[verifier::rlimit(50)]
proof fn lemma_interference_multiple(tasks: Seq<Task>, p: int, horizon: int, k: int)
    requires
        0 <= k,
        0 < horizon,
        forall|j: int|
            0 <= j < tasks.len() && (#[trigger] tasks[j]).P > p ==> tasks[j].T > 0 && horizon
                % (tasks[j].T as int) == 0,
    ensures
        interference(tasks, p, k * horizon) == k * interference(tasks, p, horizon),
    decreases tasks.len(),
{
    if tasks.len() == 0 {
        assert(k * 0 == 0);
    } else {
        let rest = tasks.drop_last();
        let last = tasks.last();
        assert forall|j: int| 0 <= j < rest.len() && (#[trigger] rest[j]).P > p implies rest[j].T
            > 0 && horizon % (rest[j].T as int) == 0 by {
            assert(rest[j] == tasks[j]);
        }
        lemma_interference_multiple(rest, p, horizon, k);
        assert(last == tasks[tasks.len() - 1]);
        assert(demand(last, p, k * horizon) == k * demand(last, p, horizon)) by {
            if last.P > p {
                let t = last.T as int;
                let c = last.C as int;
                let h = horizon / t;
                vstd::arithmetic::div_mod::lemma_fundamental_div_mod(horizon, t);
                assert(0 <= h) by (nonlinear_arith)
                    requires
                        horizon == t * h,
                        0 < t,
                        0 < horizon,
                ;
                assert(k * horizon == t * (k * h) + 0 && 0 <= k * h && 0 <= k * horizon)
                    by (nonlinear_arith)
                    requires
                        horizon == t * h,
                        0 <= k,
                        0 <= h,
                        0 < horizon,
                ;
                vstd::arithmetic::div_mod::lemma_fundamental_div_mod_converse(
                    k * horizon,
                    t,
                    k * h,
                    0,
                );
                lemma_activations(k * horizon, t);
                lemma_activations(horizon, t);
                assert((k * h) * c == k * (h * c)) by (nonlinear_arith);
            } else {
                assert(k * 0 == 0);
            }
        }
        assert(k * (interference(rest, p, horizon) + demand(last, p, horizon)) == k
            * interference(rest, p, horizon) + k * demand(last, p, horizon)) by (nonlinear_arith);
    }
}

proof fn lemma_unsettled_grows(task: Task, tasks: Seq<Task>, k: nat)
    requires
        analysable(task, tasks),
        forall|j: nat| j < k ==> #[trigger] iterate(task, tasks, j + 1) != iterate(task, tasks, j),
    ensures
        iterate(task, tasks, k) >= task.C + k,
    decreases k,
{
    if k > 0 {
        let m = (k - 1) as nat;
        lemma_unsettled_grows(task, tasks, m);
        lemma_iterate_monotone(task, tasks, m, k);
        assert(iterate(task, tasks, m + 1) != iterate(task, tasks, m));
    }
}

/// Where the recurrence does not enlarge the window `bound`, it has a least
/// solution, no larger than `bound`, and the iteration reaches it in at most
/// `bound - C` steps.
pub proof fn lemma_bounded_settles(task: Task, tasks: Seq<Task>, bound: int)
    requires
        analysable(task, tasks),
        0 <= bound,
        recurrence(task, tasks, bound) <= bound,
    ensures
        exists|k: nat|
            {
                &&& k <= bound - task.C
                &&& #[trigger] iterate(task, tasks, k + 1) == iterate(task, tasks, k)
                &&& least_fixed_point(task, tasks, iterate(task, tasks, k))
                &&& 0 <= iterate(task, tasks, k) <= bound
            },
{
    let c = task.C as int;
    lemma_iterate_below_fixed_point(task, tasks, 0, bound);
    let steps = (bound - c + 1) as nat;
    if forall|j: nat| j < steps ==> #[trigger] iterate(task, tasks, j + 1) != iterate(task, tasks, j) {
        lemma_unsettled_grows(task, tasks, steps);
        lemma_iterate_below_fixed_point(task, tasks, steps, bound);
        assert(false);
    }
    let k = choose|j: nat| j < steps && #[trigger] iterate(task, tasks, j + 1) == iterate(task, tasks, j);
    let found = iterate(task, tasks, k);
    lemma_iterate_monotone(task, tasks, 0, k);
    lemma_iterate_below_fixed_point(task, tasks, k, bound);
    assert forall|s: int| 0 <= s && #[trigger] recurrence(task, tasks, s) == s implies found
        <= s by {
        lemma_iterate_below_fixed_point(task, tasks, k, s);
    }
}

/// Where the tasks above `task` leave part of the processor free, the
/// recurrence has a solution. They do so where, over a common multiple
/// `load_window` of their periods, their activations take less than
/// `load_window`; the least solution is then at most `C * load_window`, and
/// the analysis gives it if that lies within the horizon.
pub proof fn lemma_underload_converges(task: Task, tasks: Seq<Task>, load_window: int)
    requires
        analysable(task, tasks),
        0 < load_window,
        forall|j: int|
            0 <= j < tasks.len() && (#[trigger] tasks[j]).P > task.P ==> load_window % (
            tasks[j].T as int) == 0,
        interference(tasks, task.P as int, load_window) < load_window,
    ensures
        exists|s: int| 0 <= s <= task.C * load_window && least_fixed_point(task, tasks, s),
        task.C * load_window <= horizon(task) ==> (response_time_spec(task, tasks) matches Ok(r)
            && r <= task.C * load_window),
{
    let p = task.P as int;
    let c = task.C as int;
    let bound = c * load_window;
    let load = interference(tasks, p, load_window);
    lemma_interference_multiple(tasks, p, load_window, c);
    assert(c + c * load <= c * load_window) by (nonlinear_arith)
        requires
            load + 1 <= load_window,
            c >= 1,
    ;
    assert(bound >= c) by (nonlinear_arith)
        requires
            bound == c * load_window,
            load_window >= 1,
            c >= 1,
    ;
    lemma_bounded_settles(task, tasks, bound);
    if bound <= horizon(task) {
        lemma_solution_within_horizon(task, tasks, bound);
    }
}

/// Whether the analysis of `task` among `tasks` is defined.
fn check_analysable(task: &Task, tasks: &Vec<Task>) -> (ok: bool)
    ensures
        ok == analysable(*task, tasks@),
{
    if !task.is_well_formed() {
        return false;
    }
    let mut j: usize = 0;
    while j < tasks.len()
        invariant
            j <= tasks.len(),
            forall|k: int| 0 <= k < j && (#[trigger] tasks@[k]).P > task.P ==> tasks@[k].T > 0,
        decreases tasks.len() - j,
    {
        if tasks[j].outranks(task) && tasks[j].T == 0 {
            return false;
        }
        j += 1;
    }
    true
}

/// One evaluation of the recurrence at `r`, or `None` where its value does not
/// fit in 64 bits.
fn evaluate(task: &Task, tasks: &Vec<Task>, r: u64) -> (next: Option<u64>)
    requires
        analysable(*task, tasks@),
    ensures
        match next {
            Some(v) => v == recurrence(*task, tasks@, r as int),
            None => recurrence(*task, tasks@, r as int) > u64::MAX,
        },
{
    let ghost p = task.P as int;
    let mut total: u128 = task.C as u128;
    let mut j: usize = 0;
    proof {
        assert(tasks@.subrange(0, 0) =~= Seq::<Task>::empty());
    }
    while j < tasks.len()
        invariant
            j <= tasks.len(),
            analysable(*task, tasks@),
            p == task.P,
            total == task.C + interference(tasks@.subrange(0, j as int), p, r as int),
            total <= u64::MAX,
        decreases tasks.len() - j,
    {
        let other = &tasks[j];
        proof {
            let longer = tasks@.subrange(0, j + 1);
            assert(longer.drop_last() =~= tasks@.subrange(0, j as int));
            assert(longer.last() == tasks@[j as int]);
        }
        if other.outranks(task) {
            proof {
                lemma_activations(r as int, other.T as int);
            }
            let whole = r / other.T;
            let jobs = if r % other.T == 0 {
                whole
            } else {
                whole + 1
            };
            assert(jobs as u128 * other.C as u128 <= u64::MAX as u128 * u64::MAX as u128)
                by (nonlinear_arith)
                requires
                    jobs <= u64::MAX,
                    other.C <= u64::MAX,
            ;
            total = total + jobs as u128 * other.C as u128;
            if total > u64::MAX as u128 {
                proof {
                    lemma_interference_prefix(tasks@, p, r as int, j + 1);
                }
                return None;
            }
        }
        j += 1;
    }
    proof {
        assert(tasks@.subrange(0, j as int) =~= tasks@);
    }
    Some(total as u64)
}

/// The longest response time of `task` that the analysis follows.
fn horizon_of(task: &Task) -> (limit: u64)
    ensures
        limit == horizon(*task),
{
    match task.D.checked_mul(HORIZON_FACTOR) {
        Some(limit) => limit,
        None => u64::MAX,
    }
}

/// The worst-case response time of `task` among `tasks` under fixed-priority
/// preemptive scheduling.
///
/// Only the tasks of `tasks` whose priority is higher than that of `task`
/// count, and of those only the period and the computation time. The result
/// is
/// - `Err(DomainError)` where `task` is not well formed or one of those has
///   no period;
/// - `Ok(r)`, `r` the least solution of the recurrence, where there is one
///   within the horizon of `HORIZON_FACTOR` deadlines, and so wherever there
///   is one within the deadline;
/// - `Err(NonConvergence)` otherwise.
///
/// The result depends on the arguments alone, so a second run on the same set
/// gives the same response time.
pub fn response_time(task: &Task, tasks: &Vec<Task>) -> (res: Result<u64, AnalysisError>)
    ensures
        res == response_time_spec(*task, tasks@),
        res matches Ok(r) ==> least_fixed_point(*task, tasks@, r as int) && task.C <= r <= horizon(
            *task,
        ),
        res is Err ==> res == Err::<u64, AnalysisError>(AnalysisError::DomainError) || res == Err::<
            u64,
            AnalysisError,
        >(AnalysisError::NonConvergence),
{
    if !check_analysable(task, tasks) {
        return Err(AnalysisError::DomainError);
    }
    let limit = horizon_of(task);
    let mut r: u64 = task.C;
    let ghost mut i: nat = 0;
    loop
        invariant
            analysable(*task, tasks@),
            limit == horizon(*task),
            r == iterate(*task, tasks@, i),
            r <= limit,
        decreases limit - r,
    {
        let next = evaluate(task, tasks, r);
        let settled = match next {
            Some(value) => value == r,
            None => false,
        };
        if settled {
            proof {
                lemma_iterate_monotone(*task, tasks@, 0, i);
                assert forall|s: int| 0 <= s && #[trigger] recurrence(*task, tasks@, s)
                    == s implies r <= s by {
                    lemma_iterate_below_fixed_point(*task, tasks@, i, s);
                }
                lemma_least_fixed_point_is_response_time(*task, tasks@, r as int);
            }
            return Ok(r);
        }
        let within = match next {
            Some(value) => value <= limit,
            None => false,
        };
        if !within {
            proof {
                assert forall|s: int| 0 <= s <= horizon(*task) implies !#[trigger] least_fixed_point(
                    *task,
                    tasks@,
                    s,
                ) by {
                    if least_fixed_point(*task, tasks@, s) {
                        lemma_iterate_below_fixed_point(*task, tasks@, i + 1, s);
                    }
                }
            }
            return Err(AnalysisError::NonConvergence);
        }
        proof {
            lemma_iterate_monotone(*task, tasks@, i, i + 1);
            i = i + 1;
        }
        r = match next {
            Some(value) => value,
            None => r,
        };
    }
}

/// What the analysis says of one task.
#[derive(Debug)]
pub struct ResponseVerdict {
    /// The task's name.
    pub name: String,
    /// Its worst-case response time, or why there is none.
    pub response: Result<u64, AnalysisError>,
    /// Its deadline.
    pub deadline: u64,
    /// Whether the task meets its deadline: it has a response time, and that
    /// is no longer than the deadline.
    pub pass: bool,
}

/// No two tasks of `tasks` carry the same priority.
pub open spec fn distinct_priorities(tasks: Seq<Task>) -> bool {
    forall|i: int, j: int|
        0 <= i < j < tasks.len() ==> (#[trigger] tasks[i]).P != (#[trigger] tasks[j]).P
}

/// `verdict` is the verdict on `task` as a member of `tasks`.
pub open spec fn verdict_on(task: Task, tasks: Seq<Task>, verdict: ResponseVerdict) -> bool {
    &&& verdict.name@ == task.name@
    &&& verdict.response == response_time_spec(task, tasks)
    &&& verdict.deadline == task.D
    &&& verdict.pass == match verdict.response {
        Ok(r) => r <= task.D,
        Err(_) => false,
    }
}

/// What the analysis of the whole set `tasks` comes to: a
/// `PriorityCollision` where two tasks carry the same priority, and else the
/// verdict on each task, in the order of the set.
pub open spec fn analysed(tasks: Seq<Task>, res: Result<Vec<ResponseVerdict>, AnalysisError>) -> bool {
    match res {
        Ok(verdicts) => {
            &&& distinct_priorities(tasks)
            &&& verdicts@.len() == tasks.len()
            &&& forall|i: int|
                0 <= i < tasks.len() ==> verdict_on(tasks[i], tasks, #[trigger] verdicts@[i])
        },
        Err(e) => !distinct_priorities(tasks) && e == AnalysisError::PriorityCollision,
    }
}

/// Whether no two tasks of `tasks` carry the same priority.
pub fn check_distinct_priorities(tasks: &Vec<Task>) -> (ok: bool)
    ensures
        ok == distinct_priorities(tasks@),
{
    let n = tasks.len();
    let mut j: usize = 0;
    while j < n
        invariant
            j <= n,
            n == tasks@.len(),
            forall|a: int, b: int| 0 <= a < b < j ==> (#[trigger] tasks@[a]).P != (#[trigger] tasks@[b]).P,
        decreases n - j,
    {
        let mut i: usize = 0;
        while i < j
            invariant
                i <= j < n,
                n == tasks@.len(),
                forall|a: int| 0 <= a < i ==> (#[trigger] tasks@[a]).P != tasks@[j as int].P,
            decreases j - i,
        {
            if tasks[i].P == tasks[j].P {
                return false;
            }
            i += 1;
        }
        j += 1;
    }
    true
}

/// Response-time analysis of a whole set whose priorities have been assigned:
/// one verdict for each task, in the order of the set.
///
/// Two tasks with the same priority make the whole analysis fail with
/// `PriorityCollision`. A task that is not well formed, or whose recurrence
/// does not converge, fails alone: its verdict carries the error, and the
/// other tasks still get theirs.
pub fn test_response_time(task_set: &Vec<Task>) -> (res: Result<Vec<ResponseVerdict>, AnalysisError>)
    ensures
        analysed(task_set@, res),
{
    if !check_distinct_priorities(task_set) {
        return Err(AnalysisError::PriorityCollision);
    }
    let mut verdicts: Vec<ResponseVerdict> = Vec::new();
    let mut i: usize = 0;
    while i < task_set.len()
        invariant
            i <= task_set.len(),
            verdicts@.len() == i,
            forall|k: int| 0 <= k < i ==> verdict_on(task_set@[k], task_set@, #[trigger] verdicts@[k]),
        decreases task_set.len() - i,
    {
        let task = &task_set[i];
        let response = response_time(task, task_set);
        let pass = match response {
            Ok(r) => r <= task.D,
            Err(_) => false,
        };
        verdicts.push(ResponseVerdict { name: task.name.clone(), response, deadline: task.D, pass });
        i += 1;
    }
    Ok(verdicts)
}

/// Whether a set is schedulable by its verdicts: every task passes.
pub fn all_pass(verdicts: &Vec<ResponseVerdict>) -> (ok: bool)
    ensures
        ok == forall|i: int| 0 <= i < verdicts@.len() ==> (#[trigger] verdicts@[i]).pass,
{
    let mut i: usize = 0;
    while i < verdicts.len()
        invariant
            i <= verdicts.len(),
            forall|k: int| 0 <= k < i ==> (#[trigger] verdicts@[k]).pass,
        decreases verdicts.len() - i,
    {
        if !verdicts[i].pass {
            return false;
        }
        i += 1;
    }
    true
}

} // verus!
