//! Page-ordering rules: a rule `(a, b)` demands that page `a` come
//! before page `b` whenever both occur in an update.  Valid updates
//! are detected, invalid ones repaired by repeated adjacent-swap
//! passes — the permissive strategy kept on purpose, since the rule
//! graph as a whole may be cyclic and only the pages of one update
//! are guaranteed orderable.

use vstd::prelude::*;

verus! {

/// The rule set demands `a` before `b`.
pub open spec fn rule_in(rules: Seq<(u64, u64)>, a: u64, b: u64) -> bool {
    exists|k: int| 0 <= k < rules.len() && #[trigger] rules[k] == (a, b)
}

/// No page of the update is demanded to precede a page that stands
/// earlier.
pub open spec fn valid_update(rules: Seq<(u64, u64)>, update: Seq<u64>) -> bool {
    forall|t: int, i: int| 0 <= t < i < update.len() ==> !rule_in(rules, update[i], update[t])
}

/// Whether the rule set holds the pair `(a, b)`.
fn rules_contain(rules: &Vec<(u64, u64)>, a: u64, b: u64) -> (r: bool)
    ensures
        r == rule_in(rules@, a, b),
{
    let mut k: usize = 0;
    while k < rules.len()
        invariant
            k <= rules@.len(),
            forall|k2: int| 0 <= k2 < k ==> #[trigger] rules@[k2] != (a, b),
        decreases rules@.len() - k,
    {
        let pair = rules[k];
        if pair.0 == a && pair.1 == b {
            return true;
        }
        k = k + 1;
    }
    false
}

/// Whether the update respects every ordering rule.
pub fn is_valid_update(ordering_rules: &Vec<(u64, u64)>, update: &Vec<u64>) -> (r: bool)
    ensures
        r == valid_update(ordering_rules@, update@),
{
    let mut i: usize = 0;
    #[verifier::loop_isolation(false)]
    while i < update.len()
        invariant
            i <= update@.len(),
            forall|t: int, i2: int|
                0 <= t < i2 < i ==> !rule_in(ordering_rules@, update@[i2], update@[t]),
        decreases update@.len() - i,
    {
        let mut t: usize = 0;
        #[verifier::loop_isolation(false)]
        while t < i
            invariant
                t <= i,
                forall|t2: int| 0 <= t2 < t ==> !rule_in(ordering_rules@, update@[i as int], update@[t2]),
            decreases i - t,
        {
            if rules_contain(ordering_rules, update[i], update[t]) {
                return false;
            }
            t = t + 1;
        }
        i = i + 1;
    }
    true
}

/// One adjacent-swap pass from position `i` on: a page demanded to
/// precede its left neighbour is swapped with it.
pub open spec fn pass_from(rules: Seq<(u64, u64)>, s: Seq<u64>, i: int) -> Seq<u64>
    decreases s.len() - i when 1 <= i
{
    if i >= s.len() {
        s
    } else {
        let s2 = if rule_in(rules, s[i], s[i - 1]) {
            s.update(i - 1, s[i]).update(i, s[i - 1])
        } else {
            s
        };
        pass_from(rules, s2, i + 1)
    }
}

/// `n` adjacent-swap passes over the whole sequence.
pub open spec fn passes(rules: Seq<(u64, u64)>, s: Seq<u64>, n: nat) -> Seq<u64>
    decreases n,
{
    if n == 0 {
        s
    } else {
        passes(rules, pass_from(rules, s, 1), (n - 1) as nat)
    }
}

/// Repairs an update by as many adjacent-swap passes as it has pages.
pub fn reorder_update(ordering_rules: &Vec<(u64, u64)>, update: &mut Vec<u64>)
    ensures
        final(update)@ == passes(ordering_rules@, old(update)@, old(update)@.len()),
        final(update)@.to_multiset() == old(update)@.to_multiset(),
{
    proof {
        lemma_passes_permute(ordering_rules@, update@, update@.len());
    }
    let len = update.len();
    let mut p: usize = 0;
    #[verifier::loop_isolation(false)]
    while p < len
        invariant
            p <= len,
            update@.len() == len,
            passes(ordering_rules@, old(update)@, old(update)@.len()) == passes(
                ordering_rules@,
                update@,
                (len - p) as nat,
            ),
        decreases len - p,
    {
        let ghost pass_start = update@;
        let mut i: usize = 1;
        #[verifier::loop_isolation(false)]
        while i < len
            invariant
                1 <= i,
                i <= len || len <= 1,
                update@.len() == len,
                pass_from(ordering_rules@, pass_start, 1) == pass_from(
                    ordering_rules@,
                    update@,
                    i as int,
                ),
            decreases len - i,
        {
            if rules_contain(ordering_rules, update[i], update[i - 1]) {
                let left = update[i - 1];
                let right = update[i];
                update[i - 1] = right;
                update[i] = left;
            }
            i = i + 1;
        }
        p = p + 1;
    }
}

/// The middle page of an update.
pub open spec fn middle(s: Seq<u64>) -> u64 {
    s[s.len() as int / 2]
}

/// Every update has an odd number of pages.
pub open spec fn all_odd(updates: Seq<Vec<u64>>) -> bool {
    forall|i: int| 0 <= i < updates.len() ==> (#[trigger] updates[i])@.len() % 2 == 1
}

/// The sum of the middle pages of the valid updates from `i` on.
pub open spec fn valid_middle_total(rules: Seq<(u64, u64)>, updates: Seq<Vec<u64>>, i: int) -> int
    decreases updates.len() - i when 0 <= i <= updates.len()
{
    if i >= updates.len() {
        0
    } else {
        (if valid_update(rules, updates[i]@) {
            middle(updates[i]@) as int
        } else {
            0
        }) + valid_middle_total(rules, updates, i + 1)
    }
}

/// The sum of the middle pages of the repaired invalid updates from
/// `i` on.
pub open spec fn corrected_middle_total(rules: Seq<(u64, u64)>, updates: Seq<Vec<u64>>, i: int) -> int
    decreases updates.len() - i when 0 <= i <= updates.len()
{
    if i >= updates.len() {
        0
    } else {
        (if valid_update(rules, updates[i]@) {
            0
        } else {
            middle(passes(rules, updates[i]@, updates[i]@.len())) as int
        }) + corrected_middle_total(rules, updates, i + 1)
    }
}

/// Middle-page totals are never negative.
proof fn lemma_totals_nonneg(rules: Seq<(u64, u64)>, updates: Seq<Vec<u64>>, i: int)
    requires
        0 <= i <= updates.len(),
    ensures
        valid_middle_total(rules, updates, i) >= 0,
        corrected_middle_total(rules, updates, i) >= 0,
    decreases updates.len() - i,
{
    if i < updates.len() {
        lemma_totals_nonneg(rules, updates, i + 1);
    }
}

/// An adjacent-swap pass permutes the pages: it keeps the multiset.
proof fn lemma_pass_multiset(rules: Seq<(u64, u64)>, s: Seq<u64>, i: int)
    requires
        1 <= i,
    ensures
        pass_from(rules, s, i).to_multiset() == s.to_multiset(),
    decreases s.len() - i,
{
    broadcast use vstd::seq_lib::to_multiset_update;

    if i < s.len() {
        let s2 = if rule_in(rules, s[i], s[i - 1]) {
            s.update(i - 1, s[i]).update(i, s[i - 1])
        } else {
            s
        };
        if rule_in(rules, s[i], s[i - 1]) {
            s.to_multiset_ensures();
            assert(s.contains(s[i - 1]));
            assert(s.contains(s[i]));
            assert(s.to_multiset().count(s[i - 1]) > 0);
            assert(s.to_multiset().count(s[i]) > 0);
            assert(s.update(i - 1, s[i]).to_multiset() == s.to_multiset().insert(s[i]).remove(
                s[i - 1],
            ));
            assert(s2.to_multiset() == s.update(i - 1, s[i]).to_multiset().insert(
                s[i - 1],
            ).remove(s.update(i - 1, s[i])[i]));
            assert(s.update(i - 1, s[i])[i] == s[i]);
            assert(s2.to_multiset() =~= s.to_multiset());
        }
        lemma_pass_multiset(rules, s2, i + 1);
    }
}

/// Repairing an update only reorders it: the repaired update holds
/// exactly the pages of the original, with their multiplicities.
pub proof fn lemma_passes_permute(rules: Seq<(u64, u64)>, s: Seq<u64>, n: nat)
    ensures
        passes(rules, s, n).to_multiset() == s.to_multiset(),
    decreases n,
{
    if n > 0 {
        lemma_pass_multiset(rules, s, 1);
        lemma_passes_permute(rules, pass_from(rules, s, 1), (n - 1) as nat);
    }
}

/// An adjacent-swap pass keeps the length.
proof fn lemma_pass_len(rules: Seq<(u64, u64)>, s: Seq<u64>, i: int)
    requires
        1 <= i,
    ensures
        pass_from(rules, s, i).len() == s.len(),
    decreases s.len() - i,
{
    if i < s.len() {
        let s2 = if rule_in(rules, s[i], s[i - 1]) {
            s.update(i - 1, s[i]).update(i, s[i - 1])
        } else {
            s
        };
        lemma_pass_len(rules, s2, i + 1);
    }
}

/// Repeated passes keep the length.
proof fn lemma_passes_len(rules: Seq<(u64, u64)>, s: Seq<u64>, n: nat)
    ensures
        passes(rules, s, n).len() == s.len(),
    decreases n,
{
    if n > 0 {
        lemma_pass_len(rules, s, 1);
        lemma_passes_len(rules, pass_from(rules, s, 1), (n - 1) as nat);
    }
}

/// An exact copy of a page list.
fn copy_pages(v: &Vec<u64>) -> (r: Vec<u64>)
    ensures
        r@ == v@,
{
    let mut out: Vec<u64> = Vec::new();
    let mut i: usize = 0;
    while i < v.len()
        invariant
            i <= v@.len(),
            out@ =~= v@.take(i as int),
        decreases v@.len() - i,
    {
        out.push(v[i]);
        i = i + 1;
    }
    proof {
        assert(v@.take(v@.len() as int) =~= v@);
    }
    out
}

/// Sums the middle pages of the valid updates.  `None` when some
/// update has an even number of pages (the middle is then undefined)
/// or the sum leaves the unsigned 64-bit range.
pub fn sum_valid_middles(ordering_rules: &Vec<(u64, u64)>, updates: &Vec<Vec<u64>>) -> (r: Option<
    u64,
>)
    ensures
        (all_odd(updates@) && valid_middle_total(ordering_rules@, updates@, 0) <= u64::MAX) ==> r
            == Some(valid_middle_total(ordering_rules@, updates@, 0) as u64),
        (!all_odd(updates@) || valid_middle_total(ordering_rules@, updates@, 0) > u64::MAX) ==> r
            is None,
{
    let mut i: usize = 0;
    let mut total: u64 = 0;
    let ghost mut done: int = 0;

    #[verifier::loop_isolation(false)]
    while i < updates.len()
        invariant
            0 <= i <= updates@.len(),
            done >= 0,
            total == done,
            forall|i2: int| 0 <= i2 < i ==> (#[trigger] updates@[i2])@.len() % 2 == 1,
            valid_middle_total(ordering_rules@, updates@, 0) == done + valid_middle_total(
                ordering_rules@,
                updates@,
                i as int,
            ),
        decreases updates@.len() - i,
    {
        let update = &updates[i];
        if update.len() % 2 != 1 {
            return None;
        }
        proof {
            lemma_totals_nonneg(ordering_rules@, updates@, i as int + 1);
        }
        if is_valid_update(ordering_rules, update) {
            let mid = update[update.len() / 2];
            total = match total.checked_add(mid) {
                Some(t) => t,
                None => {
                    return None;
                },
            };
            proof {
                done = done + mid;
            }
        }
        i = i + 1;
    }
    Some(total)
}

/// Repairs each invalid update by repeated adjacent-swap passes and
/// sums the middle pages of the repaired updates.  `None` when some
/// update has an even number of pages or the sum leaves the unsigned
/// 64-bit range.
pub fn sum_corrected_middles(ordering_rules: &Vec<(u64, u64)>, updates: &Vec<Vec<u64>>) -> (r:
    Option<u64>)
    ensures
        (all_odd(updates@) && corrected_middle_total(ordering_rules@, updates@, 0) <= u64::MAX)
            ==> r == Some(corrected_middle_total(ordering_rules@, updates@, 0) as u64),
        (!all_odd(updates@) || corrected_middle_total(ordering_rules@, updates@, 0) > u64::MAX)
            ==> r is None,
{
    let mut i: usize = 0;
    let mut total: u64 = 0;
    let ghost mut done: int = 0;

    #[verifier::loop_isolation(false)]
    while i < updates.len()
        invariant
            0 <= i <= updates@.len(),
            done >= 0,
            total == done,
            forall|i2: int| 0 <= i2 < i ==> (#[trigger] updates@[i2])@.len() % 2 == 1,
            corrected_middle_total(ordering_rules@, updates@, 0) == done + corrected_middle_total(
                ordering_rules@,
                updates@,
                i as int,
            ),
        decreases updates@.len() - i,
    {
        let update = &updates[i];
        if update.len() % 2 != 1 {
            return None;
        }
        proof {
            lemma_totals_nonneg(ordering_rules@, updates@, i as int + 1);
        }
        if !is_valid_update(ordering_rules, update) {
            let mut repaired = copy_pages(update);
            reorder_update(ordering_rules, &mut repaired);
            proof {
                lemma_passes_len(ordering_rules@, updates@[i as int]@, updates@[i as int]@.len());
            }
            let mid = repaired[repaired.len() / 2];
            total = match total.checked_add(mid) {
                Some(t) => t,
                None => {
                    return None;
                },
            };
            proof {
                done = done + mid;
            }
        }
        i = i + 1;
    }
    Some(total)
}

} // verus!
