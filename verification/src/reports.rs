//! Reactor reports: a report (a list of levels) is stable when its
//! levels are strictly monotone with adjacent differences of at most
//! three.  The dampener tolerates one bad level, hunting for it only
//! at the first violation and — early in the report — at the first
//! two positions, the strategy the solver settles for.

use vstd::prelude::*;

verus! {

/// Every adjacent difference lies in `[1, 3]`.
pub open spec fn stable_increasing(s: Seq<i32>) -> bool {
    forall|i: int| 1 <= i < s.len() ==> 1 <= #[trigger] s[i] - s[i - 1] <= 3
}

/// Every adjacent difference lies in `[-3, -1]`.
pub open spec fn stable_decreasing(s: Seq<i32>) -> bool {
    forall|i: int| 1 <= i < s.len() ==> -3 <= #[trigger] s[i] - s[i - 1] <= -1
}

/// A stable report: strictly monotone with small steps either way.
pub open spec fn stable(s: Seq<i32>) -> bool {
    stable_increasing(s) || stable_decreasing(s)
}

/// The step into position `i` is unacceptable: too large, zero, or
/// against the direction the first step set.
pub open spec fn bad_at(s: Seq<i32>, i: int) -> bool {
    ||| !(1 <= s[i] - s[i - 1] <= 3 || -3 <= s[i] - s[i - 1] <= -1)
    ||| (i >= 2 && ((s[i] - s[i - 1] > 0) != (s[1] - s[0] > 0)))
}

/// Position `i` carries the first unacceptable step of the report.
pub open spec fn is_first_bad(s: Seq<i32>, i: int) -> bool {
    &&& 1 <= i < s.len()
    &&& bad_at(s, i)
    &&& forall|j: int| 1 <= j < i ==> !bad_at(s, j)
}

/// What the dampener tries once the first unacceptable step is found
/// at position `i`: drop that position; early on, also the first —
/// and at position two also the second — level.
pub open spec fn damp_fix(s: Seq<i32>, i: int) -> bool {
    ||| stable(s.remove(i))
    ||| (i <= 2 && stable(s.remove(0)))
    ||| (i == 2 && stable(s.remove(1)))
}

/// A report the checker accepts, with or without the dampener.
pub open spec fn safe_report(s: Seq<i32>, allow_dampening: bool) -> bool {
    stable(s) || (allow_dampening && exists|i: int| is_first_bad(s, i) && damp_fix(s, i))
}

/// A report with an unacceptable step is not stable.
proof fn lemma_bad_not_stable(s: Seq<i32>, i: int)
    requires
        1 <= i < s.len(),
        bad_at(s, i),
    ensures
        !stable(s),
{
    if stable_increasing(s) {
        assert(1 <= s[i] - s[i - 1] <= 3);
        if i >= 2 {
            assert(1 <= s[1] - s[0] <= 3);
        }
    }
    if stable_decreasing(s) {
        assert(-3 <= s[i] - s[i - 1] <= -1);
        if i >= 2 {
            assert(-3 <= s[1] - s[0] <= -1);
        }
    }
}

/// The position of the first unacceptable step, if any.
fn first_violation(values: &Vec<i32>) -> (r: Option<usize>)
    requires
        values@.len() >= 1,
    ensures
        r is None ==> stable(values@),
        r matches Some(i) ==> is_first_bad(values@, i as int),
{
    let len = values.len();
    if len == 1 {
        return None;
    }
    let first_diff_up = values[1] > values[0];
    let mut i: usize = 1;
    #[verifier::loop_isolation(false)]
    while i < len
        invariant
            1 <= i <= len,
            first_diff_up == (values@[1] - values@[0] > 0),
            forall|j: int| 1 <= j < i ==> !bad_at(values@, j),
        decreases len - i,
    {
        let difference = values[i] as i64 - values[i - 1] as i64;
        let size_ok = (1 <= difference && difference <= 3) || (-3 <= difference && difference
            <= -1);
        let direction_conflict = i >= 2 && ((difference > 0) != first_diff_up);
        if !size_ok || direction_conflict {
            return Some(i);
        }
        i = i + 1;
    }
    proof {
        if !stable(values@) {
            assert(!stable_increasing(values@) && !stable_decreasing(values@));
            if values@[1] - values@[0] > 0 {
                let w = choose|w: int| 1 <= w < values@.len() && !(1 <= #[trigger] values@[w] - values@[w - 1] <= 3);
                assert(bad_at(values@, w));
            } else {
                let w = choose|w: int|
                    1 <= w < values@.len() && !(-3 <= #[trigger] values@[w] - values@[w - 1] <= -1);
                assert(bad_at(values@, w));
            }
        }
    }
    None
}

/// Whether a report is stable outright.
fn stable_only(values: &Vec<i32>) -> (r: bool)
    requires
        values@.len() >= 1,
    ensures
        r == stable(values@),
{
    match first_violation(values) {
        None => true,
        Some(i) => {
            proof {
                lemma_bad_not_stable(values@, i as int);
            }
            false
        },
    }
}

/// The report with the level at `remove_index` dropped.
pub fn create_dampened_vec(original_vec: &Vec<i32>, remove_index: usize) -> (r: Vec<i32>)
    requires
        remove_index < original_vec@.len(),
    ensures
        r@ == original_vec@.remove(remove_index as int),
{
    let mut result: Vec<i32> = Vec::new();
    let mut k: usize = 0;
    while k < original_vec.len()
        invariant
            k <= original_vec@.len(),
            remove_index < original_vec@.len(),
            k <= remove_index ==> result@ =~= original_vec@.take(k as int),
            k > remove_index ==> result@ =~= original_vec@.take(remove_index as int).add(
                original_vec@.subrange(remove_index as int + 1, k as int),
            ),
        decreases original_vec@.len() - k,
    {
        if k != remove_index {
            result.push(original_vec[k]);
        }
        k = k + 1;
    }
    proof {
        assert(result@ =~= original_vec@.remove(remove_index as int));
    }
    result
}

/// Whether the checker accepts the report.  Without dampening this
/// is plain stability; with dampening, the first unacceptable step is
/// found and the report is retried with that level dropped — and,
/// near the start, with the first or second level dropped.
pub fn is_stable(values: Vec<i32>, allow_dampening: bool) -> (r: bool)
    requires
        values@.len() >= 1,
    ensures
        r == safe_report(values@, allow_dampening),
{
    match first_violation(&values) {
        None => true,
        Some(error_found_at) => {
            proof {
                lemma_bad_not_stable(values@, error_found_at as int);
            }
            if !allow_dampening {
                return false;
            }
            let mut result = stable_only(&create_dampened_vec(&values, error_found_at));
            if error_found_at <= 2 {
                if stable_only(&create_dampened_vec(&values, 0)) {
                    result = true;
                }
                if error_found_at == 2 {
                    if stable_only(&create_dampened_vec(&values, 1)) {
                        result = true;
                    }
                }
            }
            proof {
                let gi = error_found_at as int;
                assert(is_first_bad(values@, gi));
                if result {
                    assert(damp_fix(values@, gi));
                }
                if safe_report(values@, allow_dampening) {
                    let i2 = choose|i2: int| is_first_bad(values@, i2) && damp_fix(values@, i2);
                    assert(i2 == gi) by {
                        if i2 < gi {
                            assert(!bad_at(values@, i2));
                        } else if i2 > gi {
                            assert(!bad_at(values@, gi));
                        }
                    }
                }
            }
            result
        },
    }
}

/// How many reports from `i` on the checker accepts.
pub open spec fn safe_count(reports: Seq<Vec<i32>>, allow_dampening: bool, i: int) -> nat
    decreases reports.len() - i when 0 <= i <= reports.len()
{
    if i >= reports.len() {
        0
    } else {
        (if safe_report(reports[i]@, allow_dampening) {
            1nat
        } else {
            0nat
        }) + safe_count(reports, allow_dampening, i + 1)
    }
}

/// Counts the reports the checker accepts.
pub fn count_safe(reports: &Vec<Vec<i32>>, allow_dampening: bool) -> (r: u64)
    requires
        forall|i: int| 0 <= i < reports@.len() ==> (#[trigger] reports@[i])@.len() >= 1,
        reports@.len() <= u64::MAX,
    ensures
        r == safe_count(reports@, allow_dampening, 0),
{
    let mut i: usize = 0;
    let mut total: u64 = 0;
    #[verifier::loop_isolation(false)]
    while i < reports.len()
        invariant
            0 <= i <= reports@.len(),
            total <= i,
            safe_count(reports@, allow_dampening, 0) == total + safe_count(
                reports@,
                allow_dampening,
                i as int,
            ),
        decreases reports@.len() - i,
    {
        let report = copy_levels(&reports[i]);
        if is_stable(report, allow_dampening) {
            total = total + 1;
        }
        i = i + 1;
    }
    total
}

/// An exact copy of a level list.
fn copy_levels(v: &Vec<i32>) -> (r: Vec<i32>)
    ensures
        r@ == v@,
{
    let mut out: Vec<i32> = Vec::new();
    let mut i: usize = 0;
    while i < v.len()
        invariant
            i <= v@.len(),
            out@ =~= v@.take(i as int),
        decreases v@.len() - i,
    {
        out.push(v[i]);
        i = i + 1;
    }
    proof {
        assert(v@.take(v@.len() as int) =~= v@);
    }
    out
}

} // verus!
