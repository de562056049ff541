use vstd::prelude::*;

use crate::patch::MissingPolicy;

verus! {

/// How one slot of a series is filled: kept, zeroed, copied from another slot, or blended linearly
/// between the slots `left` and `right` at `step / span` of the way.
#[derive(Clone, Copy, Debug, PartialEq, Eq, Structural)]
pub enum Fill {
    Keep,
    Zero,
    Copy(usize),
    Blend { left: usize, right: usize, step: usize, span: usize },
}

/// The nearest observed slot before `i`.
pub open spec fn prev_observed(observed: Seq<bool>, i: int) -> Option<int>
    decreases i,
{
    if i <= 0 {
        None
    } else if observed[i - 1] {
        Some(i - 1)
    } else {
        prev_observed(observed, i - 1)
    }
}

/// The nearest observed slot after `i`.
pub open spec fn next_observed(observed: Seq<bool>, i: int) -> Option<int>
    decreases observed.len() - i,
{
    if i + 1 >= observed.len() {
        None
    } else if observed[i + 1] {
        Some(i + 1)
    } else {
        next_observed(observed, i + 1)
    }
}

/// Fill from the nearest observed slots around a gap: blended between both, copied from the one
/// that exists, and `fallback` when there is none.
pub open spec fn bridge(observed: Seq<bool>, i: int, fallback: Fill) -> Fill {
    match (prev_observed(observed, i), next_observed(observed, i)) {
        (Some(l), Some(r)) => Fill::Blend {
            left: l as usize,
            right: r as usize,
            step: (i - l) as usize,
            span: (r - l) as usize,
        },
        (Some(l), None) => Fill::Copy(l as usize),
        (None, Some(r)) => Fill::Copy(r as usize),
        (None, None) => fallback,
    }
}

/// How a missing-value policy fills slot `i`. Observed slots are kept. Zero-fill zeroes the others;
/// forward-fill copies the last observed value, or for a leading gap the first one; linear
/// interpolation blends across interior gaps and copies at the ends. A series with nothing observed
/// is kept.
pub open spec fn policy_fill(policy: MissingPolicy, observed: Seq<bool>, i: int) -> Fill {
    if observed[i] {
        Fill::Keep
    } else {
        match policy {
            MissingPolicy::Preserve => Fill::Keep,
            MissingPolicy::ZeroFill => Fill::Zero,
            MissingPolicy::ForwardFill => match prev_observed(observed, i) {
                Some(l) => Fill::Copy(l as usize),
                None => match next_observed(observed, i) {
                    Some(r) => Fill::Copy(r as usize),
                    None => Fill::Keep,
                },
            },
            MissingPolicy::LinearInterpolate => bridge(observed, i, Fill::Keep),
        }
    }
}

/// How history imputation fills slot `i`: like linear interpolation, but a series with nothing
/// observed is zeroed.
pub open spec fn imputation_fill(observed: Seq<bool>, i: int) -> Fill {
    if observed[i] {
        Fill::Keep
    } else {
        bridge(observed, i, Fill::Zero)
    }
}

/// For each slot, the nearest observed slot before it.
fn previous_observed_slots(observed: &Vec<bool>) -> (prevs: Vec<Option<usize>>)
    ensures
        prevs@.len() == observed@.len(),
        forall|i: int|
            0 <= i < observed@.len() ==> match #[trigger] prevs@[i] {
                Some(j) => prev_observed(observed@, i) == Some(j as int),
                None => prev_observed(observed@, i) is None,
            },
{
    let mut prevs: Vec<Option<usize>> = Vec::new();
    let mut last: Option<usize> = None;
    let mut i: usize = 0;
    while i < observed.len()
        invariant
            i <= observed@.len(),
            prevs@.len() == i,
            match last {
                Some(j) => prev_observed(observed@, i as int) == Some(j as int),
                None => prev_observed(observed@, i as int) is None,
            },
            forall|k: int|
                0 <= k < i ==> match #[trigger] prevs@[k] {
                    Some(j) => prev_observed(observed@, k) == Some(j as int),
                    None => prev_observed(observed@, k) is None,
                },
        decreases observed@.len() - i,
    {
        prevs.push(last);
        if observed[i] {
            last = Some(i);
        }
        i = i + 1;
    }
    prevs
}

/// For each slot, the nearest observed slot after it.
fn next_observed_slots(observed: &Vec<bool>) -> (nexts: Vec<Option<usize>>)
    ensures
        nexts@.len() == observed@.len(),
        forall|i: int|
            0 <= i < observed@.len() ==> match #[trigger] nexts@[i] {
                Some(j) => next_observed(observed@, i) == Some(j as int),
                None => next_observed(observed@, i) is None,
            },
{
    let n = observed.len();
    let mut nexts: Vec<Option<usize>> = Vec::new();
    let mut k: usize = 0;
    while k < n
        invariant
            k <= n,
            nexts@.len() == k,
        decreases n - k,
    {
        nexts.push(None);
        k = k + 1;
    }
    let mut following: Option<usize> = None;
    let mut i: usize = n;
    while i > 0
        invariant
            n == observed@.len(),
            i <= n,
            nexts@.len() == n,
            i < n ==> match following {
                Some(j) => next_observed(observed@, i as int - 1) == Some(j as int),
                None => next_observed(observed@, i as int - 1) is None,
            },
            i == n ==> following is None,
            forall|q: int|
                i <= q < n ==> match #[trigger] nexts@[q] {
                    Some(j) => next_observed(observed@, q) == Some(j as int),
                    None => next_observed(observed@, q) is None,
                },
        decreases i,
    {
        let slot = i - 1;
        nexts.set(slot, following);
        if observed[slot] {
            following = Some(slot);
        }
        i = slot;
    }
    nexts
}

fn bridge_fill(prev: Option<usize>, next: Option<usize>, i: usize, fallback: Fill) -> (fill: Fill)
    requires
        prev matches Some(l) ==> l < i,
        next matches Some(r) ==> r > i,
    ensures
        fill == match (prev, next) {
            (Some(l), Some(r)) => Fill::Blend {
                left: l,
                right: r,
                step: (i - l) as usize,
                span: (r - l) as usize,
            },
            (Some(l), None) => Fill::Copy(l),
            (None, Some(r)) => Fill::Copy(r),
            (None, None) => fallback,
        },
{
    match (prev, next) {
        (Some(l), Some(r)) => Fill::Blend { left: l, right: r, step: i - l, span: r - l },
        (Some(l), None) => Fill::Copy(l),
        (None, Some(r)) => Fill::Copy(r),
        (None, None) => fallback,
    }
}

proof fn lemma_prev_observed_before(observed: Seq<bool>, i: int)
    ensures
        prev_observed(observed, i) matches Some(j) ==> 0 <= j < i && observed[j],
    decreases i,
{
    if i > 0 {
        lemma_prev_observed_before(observed, i - 1);
    }
}

proof fn lemma_next_observed_after(observed: Seq<bool>, i: int)
    requires
        0 <= i,
    ensures
        next_observed(observed, i) matches Some(j) ==> i < j < observed.len() && observed[j],
    decreases observed.len() - i,
{
    if i + 1 < observed.len() {
        lemma_next_observed_after(observed, i + 1);
    }
}

/// `j` is the nearest observed slot before `i`: observed, earlier, and nothing observed between.
pub open spec fn nearest_before(observed: Seq<bool>, i: int, j: int) -> bool {
    &&& 0 <= j < i
    &&& observed[j]
    &&& forall|m: int| j < m < i ==> !observed[m]
}

/// `j` is the nearest observed slot after `i`: observed, later, and nothing observed between.
pub open spec fn nearest_after(observed: Seq<bool>, i: int, j: int) -> bool {
    &&& i < j < observed.len()
    &&& observed[j]
    &&& forall|m: int| i < m < j ==> !observed[m]
}

/// Some slot before `i` is observed.
pub open spec fn observed_before(observed: Seq<bool>, i: int) -> bool {
    exists|j: int| 0 <= j < i && #[trigger] observed[j]
}

/// Some slot after `i` (and inside the series) is observed.
pub open spec fn observed_after(observed: Seq<bool>, i: int) -> bool {
    exists|j: int| i < j < observed.len() && #[trigger] observed[j]
}

/// `fill` fills the missing slot `i` from its neighbours: blended between the nearest observed
/// slots on either side when both exist (at `i - left` of `right - left`), copied from the nearest
/// one when only one side has any, and `fallback` when nothing is observed.
pub open spec fn fills_from_neighbours(observed: Seq<bool>, i: int, fill: Fill, fallback: Fill) -> bool {
    if observed_before(observed, i) && observed_after(observed, i) {
        fill matches Fill::Blend { left, right, step, span } && nearest_before(observed, i, left as int)
            && nearest_after(observed, i, right as int) && step == i - left && span == right - left
    } else if observed_before(observed, i) {
        fill matches Fill::Copy(j) && nearest_before(observed, i, j as int)
    } else if observed_after(observed, i) {
        fill matches Fill::Copy(j) && nearest_after(observed, i, j as int)
    } else {
        fill == fallback
    }
}

/// `fill` carries the last observed value forward into the missing slot `i`: copied from the
/// nearest observed slot before it, or, for a leading gap, from the nearest one after it; kept when
/// nothing is observed.
pub open spec fn carries_forward(observed: Seq<bool>, i: int, fill: Fill) -> bool {
    if observed_before(observed, i) {
        fill matches Fill::Copy(j) && nearest_before(observed, i, j as int)
    } else if observed_after(observed, i) {
        fill matches Fill::Copy(j) && nearest_after(observed, i, j as int)
    } else {
        fill == Fill::Keep
    }
}

proof fn lemma_prev_observed_nearest(observed: Seq<bool>, i: int)
    requires
        0 <= i <= observed.len(),
    ensures
        match prev_observed(observed, i) {
            Some(j) => nearest_before(observed, i, j),
            None => !observed_before(observed, i),
        },
    decreases i,
{
    if i > 0 {
        lemma_prev_observed_nearest(observed, i - 1);
        if !observed[i - 1] {
            match prev_observed(observed, i - 1) {
                Some(j) => {},
                None => {
                    assert forall|j: int| 0 <= j < i implies !#[trigger] observed[j] by {
                        if j < i - 1 {
                            assert(!observed_before(observed, i - 1));
                        }
                    }
                },
            }
        }
    }
}

proof fn lemma_next_observed_nearest(observed: Seq<bool>, i: int)
    requires
        0 <= i < observed.len(),
    ensures
        match next_observed(observed, i) {
            Some(j) => nearest_after(observed, i, j),
            None => !observed_after(observed, i),
        },
    decreases observed.len() - i,
{
    if i + 1 < observed.len() {
        lemma_next_observed_nearest(observed, i + 1);
        if !observed[i + 1] {
            match next_observed(observed, i + 1) {
                Some(j) => {},
                None => {
                    assert forall|j: int| i < j < observed.len() implies !#[trigger] observed[j] by {
                        if j > i + 1 {
                            assert(!observed_after(observed, i + 1));
                        }
                    }
                },
            }
        }
    }
}

proof fn lemma_bridge_fills_from_neighbours(observed: Seq<bool>, i: int, fallback: Fill)
    requires
        0 <= i < observed.len(),
        observed.len() <= usize::MAX,
    ensures
        fills_from_neighbours(observed, i, bridge(observed, i, fallback), fallback),
{
    lemma_prev_observed_nearest(observed, i);
    lemma_next_observed_nearest(observed, i);
}

/// What each policy does to slot `i`, stated by the nearest observed slots: an observed slot is
/// kept; otherwise preserving keeps it, zero-filling zeroes it, forward-filling carries the last
/// observed value forward (back-filling only a leading gap), and linear interpolation blends
/// between the nearest observed slots on either side, copying the nearest one at the ends.
pub proof fn lemma_policy_fill_meaning(policy: MissingPolicy, observed: Seq<bool>, i: int)
    requires
        0 <= i < observed.len(),
        observed.len() <= usize::MAX,
    ensures
        observed[i] ==> policy_fill(policy, observed, i) == Fill::Keep,
        !observed[i] ==> match policy {
            MissingPolicy::Preserve => policy_fill(policy, observed, i) == Fill::Keep,
            MissingPolicy::ZeroFill => policy_fill(policy, observed, i) == Fill::Zero,
            MissingPolicy::ForwardFill => carries_forward(observed, i, policy_fill(policy, observed, i)),
            MissingPolicy::LinearInterpolate => fills_from_neighbours(
                observed,
                i,
                policy_fill(policy, observed, i),
                Fill::Keep,
            ),
        },
{
    lemma_prev_observed_nearest(observed, i);
    lemma_next_observed_nearest(observed, i);
    lemma_bridge_fills_from_neighbours(observed, i, Fill::Keep);
}

/// History imputation keeps observed slots and fills each missing one from its neighbours: the
/// blend between the nearest observed slots on either side for an interior gap, a copy of the
/// nearest observed slot at the ends, and zero when nothing is observed.
pub proof fn lemma_imputation_fill_meaning(observed: Seq<bool>, i: int)
    requires
        0 <= i < observed.len(),
        observed.len() <= usize::MAX,
    ensures
        observed[i] ==> imputation_fill(observed, i) == Fill::Keep,
        !observed[i] ==> fills_from_neighbours(observed, i, imputation_fill(observed, i), Fill::Zero),
{
    lemma_bridge_fills_from_neighbours(observed, i, Fill::Zero);
}

/// How `policy` fills each slot of a series whose observed slots are marked in `observed`.
pub fn fill_plan(policy: MissingPolicy, observed: &Vec<bool>) -> (plan: Vec<Fill>)
    ensures
        plan@.len() == observed@.len(),
        forall|i: int| 0 <= i < observed@.len() ==> #[trigger] plan@[i] == policy_fill(policy, observed@, i),
        forall|i: int|
            0 <= i < observed@.len() ==> (observed@[i] ==> #[trigger] plan@[i] == Fill::Keep) && (
            !observed@[i] ==> match policy {
                MissingPolicy::Preserve => plan@[i] == Fill::Keep,
                MissingPolicy::ZeroFill => plan@[i] == Fill::Zero,
                MissingPolicy::ForwardFill => carries_forward(observed@, i, plan@[i]),
                MissingPolicy::LinearInterpolate => fills_from_neighbours(
                    observed@,
                    i,
                    plan@[i],
                    Fill::Keep,
                ),
            }),
{
    let prevs = previous_observed_slots(observed);
    let nexts = next_observed_slots(observed);
    let mut plan: Vec<Fill> = Vec::new();
    let mut i: usize = 0;
    while i < observed.len()
        invariant
            i <= observed@.len(),
            prevs@.len() == observed@.len(),
            nexts@.len() == observed@.len(),
            plan@.len() == i,
            forall|k: int|
                0 <= k < observed@.len() ==> match #[trigger] prevs@[k] {
                    Some(j) => prev_observed(observed@, k) == Some(j as int),
                    None => prev_observed(observed@, k) is None,
                },
            forall|k: int|
                0 <= k < observed@.len() ==> match #[trigger] nexts@[k] {
                    Some(j) => next_observed(observed@, k) == Some(j as int),
                    None => next_observed(observed@, k) is None,
                },
            forall|k: int| 0 <= k < i ==> #[trigger] plan@[k] == policy_fill(policy, observed@, k),
        decreases observed@.len() - i,
    {
        let prev = prevs[i];
        let next = nexts[i];
        proof {
            lemma_prev_observed_before(observed@, i as int);
            lemma_next_observed_after(observed@, i as int);
        }
        let fill = if observed[i] {
            Fill::Keep
        } else {
            match policy {
                MissingPolicy::Preserve => Fill::Keep,
                MissingPolicy::ZeroFill => Fill::Zero,
                MissingPolicy::ForwardFill => match prev {
                    Some(l) => Fill::Copy(l),
                    None => match next {
                        Some(r) => Fill::Copy(r),
                        None => Fill::Keep,
                    },
                },
                MissingPolicy::LinearInterpolate => bridge_fill(prev, next, i, Fill::Keep),
            }
        };
        plan.push(fill);
        i = i + 1;
    }
    let count = observed.len();
    proof {
        assert forall|i: int| 0 <= i < observed@.len() implies (observed@[i] ==> #[trigger] plan@[i]
            == Fill::Keep) && (!observed@[i] ==> match policy {
            MissingPolicy::Preserve => plan@[i] == Fill::Keep,
            MissingPolicy::ZeroFill => plan@[i] == Fill::Zero,
            MissingPolicy::ForwardFill => carries_forward(observed@, i, plan@[i]),
            MissingPolicy::LinearInterpolate => fills_from_neighbours(observed@, i, plan@[i], Fill::Keep),
        }) by {
            assert(observed@.len() == count);
            lemma_policy_fill_meaning(policy, observed@, i);
        }
    }
    plan
}

/// How history imputation fills each slot: interpolation, with an unobserved series zeroed.
pub fn imputation_plan(observed: &Vec<bool>) -> (plan: Vec<Fill>)
    ensures
        plan@.len() == observed@.len(),
        forall|i: int| 0 <= i < observed@.len() ==> #[trigger] plan@[i] == imputation_fill(observed@, i),
        forall|i: int|
            0 <= i < observed@.len() ==> (observed@[i] ==> #[trigger] plan@[i] == Fill::Keep) && (
            !observed@[i] ==> fills_from_neighbours(observed@, i, plan@[i], Fill::Zero)),
{
    let prevs = previous_observed_slots(observed);
    let nexts = next_observed_slots(observed);
    let mut plan: Vec<Fill> = Vec::new();
    let mut i: usize = 0;
    while i < observed.len()
        invariant
            i <= observed@.len(),
            prevs@.len() == observed@.len(),
            nexts@.len() == observed@.len(),
            plan@.len() == i,
            forall|k: int|
                0 <= k < observed@.len() ==> match #[trigger] prevs@[k] {
                    Some(j) => prev_observed(observed@, k) == Some(j as int),
                    None => prev_observed(observed@, k) is None,
                },
            forall|k: int|
                0 <= k < observed@.len() ==> match #[trigger] nexts@[k] {
                    Some(j) => next_observed(observed@, k) == Some(j as int),
                    None => next_observed(observed@, k) is None,
                },
            forall|k: int| 0 <= k < i ==> #[trigger] plan@[k] == imputation_fill(observed@, k),
        decreases observed@.len() - i,
    {
        let prev = prevs[i];
        let next = nexts[i];
        proof {
            lemma_prev_observed_before(observed@, i as int);
            lemma_next_observed_after(observed@, i as int);
        }
        let fill = if observed[i] {
            Fill::Keep
        } else {
            bridge_fill(prev, next, i, Fill::Zero)
        };
        plan.push(fill);
        i = i + 1;
    }
    let count = observed.len();
    proof {
        assert forall|i: int| 0 <= i < observed@.len() implies (observed@[i] ==> #[trigger] plan@[i]
            == Fill::Keep) && (!observed@[i] ==> fills_from_neighbours(
            observed@,
            i,
            plan@[i],
            Fill::Zero,
        )) by {
            assert(observed@.len() == count);
            lemma_imputation_fill_meaning(observed@, i);
        }
    }
    plan
}

/// Filling never reads a missing value: observed slots are kept, every copied slot is observed, and a
/// blend lies strictly between two observed slots, `0 < step < span`.
pub proof fn lemma_fills_read_observed_slots(policy: MissingPolicy, observed: Seq<bool>, i: int)
    requires
        0 <= i < observed.len(),
        observed.len() <= usize::MAX,
    ensures
        observed[i] ==> policy_fill(policy, observed, i) == Fill::Keep && imputation_fill(observed, i)
            == Fill::Keep,
        policy_fill(policy, observed, i) matches Fill::Copy(j) ==> 0 <= j < observed.len()
            && observed[j as int],
        imputation_fill(observed, i) matches Fill::Copy(j) ==> 0 <= j < observed.len()
            && observed[j as int],
        policy_fill(policy, observed, i) matches Fill::Blend { left, right, step, span } ==> {
            &&& left < i < right < observed.len()
            &&& observed[left as int] && observed[right as int]
            &&& 0 < step < span
            &&& step == i - left && span == right - left
        },
        imputation_fill(observed, i) matches Fill::Blend { left, right, step, span } ==> {
            &&& left < i < right < observed.len()
            &&& observed[left as int] && observed[right as int]
            &&& 0 < step < span
            &&& step == i - left && span == right - left
        },
{
    lemma_prev_observed_before(observed, i);
    lemma_next_observed_after(observed, i);
}

} // verus!
