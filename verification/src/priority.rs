//! Monotonic priority assignment.
//!
//! Both policies order the tasks by one of their times, shortest first, and
//! hand out the priorities `N, N - 1, .., 1` in that order. Tasks with equal
//! times keep the order in which they were given.

use vstd::prelude::*;
use crate::task::Task;

verus! {

/// The time by which a policy orders the tasks.
#[derive(Clone, Copy, Debug, PartialEq, Eq, Structural)]
pub enum Policy {
    /// Shorter deadline, higher priority.
    DeadlineMonotonic,
    /// Shorter period, higher priority.
    RateMonotonic,
}

impl Policy {
    /// The time of `task` that this policy looks at.
    pub open spec fn key(self, task: Task) -> int {
        match self {
            Policy::DeadlineMonotonic => task.D as int,
            Policy::RateMonotonic => task.T as int,
        }
    }

    fn key_of(self, task: &Task) -> (k: u64)
        ensures
            k == self.key(*task),
    {
        match self {
            Policy::DeadlineMonotonic => task.D,
            Policy::RateMonotonic => task.T,
        }
    }
}

/// `perm` lists each index below `n` exactly once.
pub open spec fn is_permutation(perm: Seq<int>, n: int) -> bool {
    &&& perm.len() == n
    &&& forall|i: int| 0 <= i < n ==> 0 <= #[trigger] perm[i] < n
    &&& forall|i: int, j: int| 0 <= i < j < n ==> perm[i] != perm[j]
}

/// Read through `perm`, the tasks of `before` come in the policy's order:
/// by ascending time, and by their place in `before` where the times are equal.
pub open spec fn in_policy_order(before: Seq<Task>, perm: Seq<int>, policy: Policy) -> bool {
    forall|i: int, j: int|
        0 <= i < j < perm.len() ==> {
            let a = #[trigger] perm[i];
            let b = #[trigger] perm[j];
            policy.key(before[a]) < policy.key(before[b]) || (policy.key(before[a]) == policy.key(
                before[b],
            ) && a < b)
        }
}

/// `task` with its priority replaced by `priority`.
pub open spec fn with_priority(task: Task, priority: int) -> Task {
    Task { P: priority as u32, ..task }
}

/// `after` is `before` rearranged by `perm`, the task at place `i` carrying
/// the priority `N - i`.
pub open spec fn assigned_through(before: Seq<Task>, after: Seq<Task>, perm: Seq<int>) -> bool {
    &&& after.len() == before.len()
    &&& forall|i: int|
        0 <= i < after.len() ==> #[trigger] after[i] == with_priority(
            before[perm[i]],
            after.len() - i,
        )
}

/// `after` is what monotonic assignment under `policy` makes of `before`.
pub open spec fn monotonic_assignment(before: Seq<Task>, after: Seq<Task>, policy: Policy) -> bool {
    exists|perm: Seq<int>|
        {
            &&& is_permutation(perm, before.len() as int)
            &&& in_policy_order(before, perm, policy)
            &&& #[trigger] assigned_through(before, after, perm)
        }
}

/// Some task of `tasks` carries the priority `p`.
pub open spec fn carried(tasks: Seq<Task>, p: int) -> bool {
    exists|i: int| 0 <= i < tasks.len() && #[trigger] tasks[i].P == p
}

/// The priorities of `tasks` are the numbers `1..=N`, each carried by exactly
/// one task.
pub open spec fn priorities_one_to_n(tasks: Seq<Task>) -> bool {
    &&& forall|p: int| 1 <= p <= tasks.len() ==> #[trigger] carried(tasks, p)
    &&& forall|i: int| 0 <= i < tasks.len() ==> 1 <= #[trigger] tasks[i].P <= tasks.len()
    &&& forall|i: int, j: int|
        0 <= i < tasks.len() && 0 <= j < tasks.len() && i != j ==> #[trigger] tasks[i].P
            != #[trigger] tasks[j].P
}

/// The tasks come in descending priority.
pub open spec fn in_priority_order(tasks: Seq<Task>) -> bool {
    forall|i: int, j: int| 0 <= i < j < tasks.len() ==> #[trigger] tasks[i].P > #[trigger] tasks[j].P
}

/// A permutation of the indices below `n` holds each of them.
proof fn lemma_permutation_covers(perm: Seq<int>, n: int, x: int)
    requires
        is_permutation(perm, n),
        0 <= x < n,
    ensures
        exists|i: int| 0 <= i < n && perm[i] == x,
{
    assert(perm.no_duplicates()) by {
        assert forall|i: int, j: int|
            0 <= i < perm.len() && 0 <= j < perm.len() && i != j implies perm[i] != perm[j] by {
            if i < j {
                assert(perm[i] != perm[j]);
            } else {
                assert(perm[j] != perm[i]);
            }
        }
    }
    perm.unique_seq_to_set();
    let range = vstd::set_lib::set_int_range(0, n);
    vstd::set_lib::lemma_int_range(0, n);
    assert(perm.to_set().subset_of(range)) by {
        assert forall|y: int| perm.to_set().contains(y) implies range.contains(y) by {
            let i = choose|i: int| 0 <= i < perm.len() && perm[i] == y;
            assert(0 <= perm[i] < n);
        }
    }
    vstd::set_lib::lemma_set_subset_finite(range, perm.to_set());
    vstd::set_lib::lemma_subset_equality(perm.to_set(), range);
    assert(range.contains(x));
    assert(perm.contains(x));
}

proof fn lemma_order_unique_upto(before: Seq<Task>, p: Seq<int>, q: Seq<int>, policy: Policy, i: int)
    requires
        is_permutation(p, before.len() as int),
        is_permutation(q, before.len() as int),
        in_policy_order(before, p, policy),
        in_policy_order(before, q, policy),
        0 <= i <= before.len(),
    ensures
        forall|k: int| 0 <= k < i ==> p[k] == q[k],
    decreases i,
{
    if i > 0 {
        let n = before.len() as int;
        let m = i - 1;
        lemma_order_unique_upto(before, p, q, policy, m);
        lemma_permutation_covers(q, n, p[m]);
        lemma_permutation_covers(p, n, q[m]);
        let j = choose|j: int| 0 <= j < n && q[j] == p[m];
        let h = choose|h: int| 0 <= h < n && p[h] == q[m];
        if j < m {
            assert(p[j] == q[j]);
            assert(p[j] != p[m]);
        }
        if h < m {
            assert(q[h] == p[h]);
            assert(q[h] != q[m]);
        }
        if j > m && h > m {
            let a = q[m];
            let b = q[j];
            let c = p[m];
            let d = p[h];
            assert(policy.key(before[a]) < policy.key(before[b]) || (policy.key(before[a])
                == policy.key(before[b]) && a < b));
            assert(policy.key(before[c]) < policy.key(before[d]) || (policy.key(before[c])
                == policy.key(before[d]) && c < d));
        }
        if j > m && h == m {
            assert(q[j] == q[m]);
        }
    }
}

/// Monotonic assignment leaves nothing open: two sets that both are what the
/// assignment under `policy` makes of `before` are the same set.
pub proof fn lemma_assignment_unique(before: Seq<Task>, one: Seq<Task>, other: Seq<Task>, policy: Policy)
    requires
        monotonic_assignment(before, one, policy),
        monotonic_assignment(before, other, policy),
    ensures
        one == other,
{
    let n = before.len() as int;
    let p = choose|perm: Seq<int>|
        {
            &&& is_permutation(perm, n)
            &&& in_policy_order(before, perm, policy)
            &&& #[trigger] assigned_through(before, one, perm)
        };
    let q = choose|perm: Seq<int>|
        {
            &&& is_permutation(perm, n)
            &&& in_policy_order(before, perm, policy)
            &&& #[trigger] assigned_through(before, other, perm)
        };
    lemma_order_unique_upto(before, p, q, policy, n);
    assert(one =~= other);
}

/// Where every deadline is the task's period, the two policies assign the
/// same priorities.
pub proof fn lemma_policies_coincide(before: Seq<Task>, after: Seq<Task>)
    requires
        forall|i: int| 0 <= i < before.len() ==> (#[trigger] before[i]).D == before[i].T,
    ensures
        monotonic_assignment(before, after, Policy::DeadlineMonotonic) <==> monotonic_assignment(
            before,
            after,
            Policy::RateMonotonic,
        ),
{
    let n = before.len() as int;
    let dm = Policy::DeadlineMonotonic;
    let rm = Policy::RateMonotonic;
    assert forall|perm: Seq<int>| is_permutation(perm, n) implies in_policy_order(before, perm, dm)
        == in_policy_order(before, perm, rm) by {
        assert forall|i: int| 0 <= i < n implies dm.key(before[#[trigger] perm[i]]) == rm.key(
            before[perm[i]],
        ) by {
            assert(before[perm[i]].D == before[perm[i]].T);
        }
    }
    if monotonic_assignment(before, after, dm) {
        let perm = choose|perm: Seq<int>|
            {
                &&& is_permutation(perm, n)
                &&& in_policy_order(before, perm, dm)
                &&& #[trigger] assigned_through(before, after, perm)
            };
        assert(in_policy_order(before, perm, rm));
    }
    if monotonic_assignment(before, after, rm) {
        let perm = choose|perm: Seq<int>|
            {
                &&& is_permutation(perm, n)
                &&& in_policy_order(before, perm, rm)
                &&& #[trigger] assigned_through(before, after, perm)
            };
        assert(in_policy_order(before, perm, dm));
    }
}

/// Rearranges `v` into the policy's order without touching any task.
fn sort_by_policy(v: &mut Vec<Task>, policy: Policy) -> (perm: Ghost<Seq<int>>)
    ensures
        final(v)@.len() == old(v)@.len(),
        is_permutation(perm@, old(v)@.len() as int),
        in_policy_order(old(v)@, perm@, policy),
        forall|k: int| 0 <= k < old(v)@.len() ==> #[trigger] final(v)@[k] == old(v)@[perm@[k]],
{
    let n = v.len();
    let ghost before = v@;
    let ghost mut perm: Seq<int> = Seq::new(n as nat, |k: int| k);
    let mut i: usize = 0;
    while i < n
        invariant
            n == before.len(),
            v@.len() == n,
            i <= n,
            perm.len() == n,
            forall|k: int| 0 <= k < n ==> #[trigger] v@[k] == before[perm[k]],
            forall|k: int| 0 <= k < i ==> 0 <= #[trigger] perm[k] < i,
            forall|k: int| i <= k < n ==> #[trigger] perm[k] == k,
            forall|a: int, b: int| 0 <= a < b < i ==> perm[a] != perm[b],
            in_policy_order(before, perm.subrange(0, i as int), policy),
        decreases n - i,
    {
        let key = policy.key_of(&v[i]);
        let mut j: usize = i;
        while j > 0 && policy.key_of(&v[j - 1]) > key
            invariant
                j <= i < n,
                v@.len() == n,
                key == policy.key(v@[i as int]),
                forall|k: int| j <= k < i ==> policy.key(#[trigger] v@[k]) > key,
            decreases j,
        {
            j -= 1;
        }
        let ghost prev = perm;
        let ghost seen = v@;
        let task = v.remove(i);
        v.insert(j, task);
        proof {
            perm = prev.remove(i as int).insert(j as int, i as int);
            assert forall|k: int| 0 <= k < n implies #[trigger] v@[k] == before[perm[k]] by {
                if k < j {
                    assert(v@[k] == seen[k]);
                    assert(perm[k] == prev[k]);
                } else if k == j {
                    assert(v@[k] == seen[i as int]);
                    assert(prev[i as int] == i);
                } else if k <= i {
                    assert(v@[k] == seen[k - 1]);
                    assert(perm[k] == prev[k - 1]);
                } else {
                    assert(v@[k] == seen[k]);
                    assert(perm[k] == prev[k]);
                }
            }
            assert forall|k: int| 0 <= k < i + 1 implies 0 <= #[trigger] perm[k] < i + 1 by {
                if k < j {
                    assert(perm[k] == prev[k]);
                } else if k > j {
                    assert(perm[k] == prev[k - 1]);
                }
            }
            assert forall|k: int| i + 1 <= k < n implies #[trigger] perm[k] == k by {
                assert(perm[k] == prev[k]);
            }
            assert forall|a: int, b: int| 0 <= a < b < i + 1 implies perm[a] != perm[b] by {
                let pa = if a < j { a } else { a - 1 };
                let pb = if b < j { b } else { b - 1 };
                if a != j {
                    assert(perm[a] == prev[pa]);
                }
                if b != j {
                    assert(perm[b] == prev[pb]);
                }
            }
            let fresh = perm.subrange(0, i + 1);
            let old_prefix = prev.subrange(0, i as int);
            assert forall|a: int, b: int| 0 <= a < b < fresh.len() implies {
                let x = #[trigger] fresh[a];
                let y = #[trigger] fresh[b];
                policy.key(before[x]) < policy.key(before[y]) || (policy.key(before[x])
                    == policy.key(before[y]) && x < y)
            } by {
                let pa = if a < j { a } else { a - 1 };
                let pb = if b < j { b } else { b - 1 };
                assert(fresh[a] == perm[a]);
                assert(fresh[b] == perm[b]);
                if a != j && b != j {
                    assert(perm[a] == prev[pa] && perm[b] == prev[pb]);
                    assert(old_prefix[pa] == prev[pa] && old_prefix[pb] == prev[pb]);
                } else if a == j {
                    assert(perm[b] == prev[pb]);
                    assert(seen[pb] == before[prev[pb]]);
                    assert(policy.key(seen[pb]) > key);
                    assert(seen[i as int] == before[prev[i as int]]);
                } else {
                    assert(perm[a] == prev[pa]);
                    assert(seen[i as int] == before[prev[i as int]]);
                    assert(seen[pa] == before[prev[pa]]);
                    if j > 0 {
                        assert(seen[j - 1] == before[prev[j - 1]]);
                        assert(policy.key(seen[j - 1]) <= key);
                        if pa < j - 1 {
                            assert(old_prefix[pa] == prev[pa] && old_prefix[j - 1] == prev[j - 1]);
                        }
                    }
                    assert(prev[pa] < i);
                }
            }
        }
        i += 1;
    }
    proof {
        assert(perm.subrange(0, n as int) =~= perm);
    }
    Ghost(perm)
}

/// Orders `task_set` by `policy` and numbers it from `N` down to `1`.
fn assign_monotonic(task_set: &mut Vec<Task>, policy: Policy)
    requires
        old(task_set).len() <= u32::MAX,
    ensures
        monotonic_assignment(old(task_set)@, final(task_set)@, policy),
        priorities_one_to_n(final(task_set)@),
        in_priority_order(final(task_set)@),
        forall|i: int, j: int|
            0 <= i < j < final(task_set)@.len() ==> policy.key(#[trigger] final(task_set)@[i])
                <= policy.key(#[trigger] final(task_set)@[j]),
{
    let ghost before = task_set@;
    let Ghost(perm) = sort_by_policy(task_set, policy);
    let ghost sorted = task_set@;
    let n = task_set.len();
    let mut x: usize = 0;
    while x < n
        invariant
            x <= n <= u32::MAX,
            n == sorted.len(),
            task_set@.len() == n,
            forall|k: int| 0 <= k < x ==> #[trigger] task_set@[k] == with_priority(sorted[k], n - k),
            forall|k: int| x <= k < n ==> #[trigger] task_set@[k] == sorted[k],
        decreases n - x,
    {
        task_set[x].P = (n - x) as u32;
        x += 1;
    }
    proof {
        let after = task_set@;
        assert(assigned_through(before, after, perm));
        assert forall|i: int, j: int| 0 <= i < j < after.len() implies policy.key(
            #[trigger] after[i],
        ) <= policy.key(#[trigger] after[j]) by {
            assert(after[i] == with_priority(before[perm[i]], n - i));
            assert(after[j] == with_priority(before[perm[j]], n - j));
        }
        assert forall|p: int| 1 <= p <= after.len() implies #[trigger] carried(after, p) by {
            assert(after[n - p].P == p);
        }
    }
}

/// Deadline-monotonic priority assignment: the shorter a task's deadline, the
/// higher its priority. Afterwards the set stands in priority order, highest
/// first; tasks with the same deadline keep the order they were given in.
pub fn deadline_monotonic_ordering(task_set: &mut Vec<Task>)
    requires
        old(task_set).len() <= u32::MAX,
    ensures
        monotonic_assignment(old(task_set)@, final(task_set)@, Policy::DeadlineMonotonic),
        priorities_one_to_n(final(task_set)@),
        in_priority_order(final(task_set)@),
        forall|i: int, j: int|
            0 <= i < j < final(task_set)@.len() ==> #[trigger] final(task_set)@[i].D
                <= #[trigger] final(task_set)@[j].D,
{
    assign_monotonic(task_set, Policy::DeadlineMonotonic);
    proof {
        let after = task_set@;
        assert forall|i: int, j: int| 0 <= i < j < after.len() implies #[trigger] after[i].D
            <= #[trigger] after[j].D by {
            assert(Policy::DeadlineMonotonic.key(after[i]) <= Policy::DeadlineMonotonic.key(
                after[j],
            ));
        }
    }
}

/// Rate-monotonic priority assignment: the shorter a task's period, the
/// higher its priority. Afterwards the set stands in priority order, highest
/// first; tasks with the same period keep the order they were given in.
///
/// For implicit deadlines this is deadline-monotonic assignment; for other
/// sets deadline-monotonic assignment is at least as good.
pub fn rate_monotonic_ordering(task_set: &mut Vec<Task>)
    requires
        old(task_set).len() <= u32::MAX,
    ensures
        monotonic_assignment(old(task_set)@, final(task_set)@, Policy::RateMonotonic),
        priorities_one_to_n(final(task_set)@),
        in_priority_order(final(task_set)@),
        forall|i: int, j: int|
            0 <= i < j < final(task_set)@.len() ==> #[trigger] final(task_set)@[i].T
                <= #[trigger] final(task_set)@[j].T,
{
    assign_monotonic(task_set, Policy::RateMonotonic);
    proof {
        let after = task_set@;
        assert forall|i: int, j: int| 0 <= i < j < after.len() implies #[trigger] after[i].T
            <= #[trigger] after[j].T by {
            assert(Policy::RateMonotonic.key(after[i]) <= Policy::RateMonotonic.key(after[j]));
        }
    }
}

} // verus!
