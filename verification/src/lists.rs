//! Two columns of location identifiers: the total distance pairs the
//! columns off smallest against smallest, and the similarity score
//! weighs each left-column entry by how often it occurs on the right.

use vstd::prelude::*;
use vstd::multiset::Multiset;
use vstd::relations::{sorted_by, total_ordering};
use vstd::seq_lib::lemma_sorted_unique;

verus! {

/// The ordering the columns are sorted by.
pub open spec fn leq32() -> spec_fn(i32, i32) -> bool {
    |x: i32, y: i32| x <= y
}

/// A column sorted ascending.
pub open spec fn ascending(s: Seq<i32>) -> bool {
    sorted_by(s, leq32())
}

/// The column in ascending order.
pub open spec fn sorted_version(s: Seq<i32>) -> Seq<i32> {
    s.sort_by(leq32())
}

/// An empty column has the empty multiset.
proof fn lemma_empty_to_multiset(s: Seq<i32>)
    requires
        s.len() == 0,
    ensures
        s.to_multiset() =~= Multiset::<i32>::empty(),
{
    s.to_multiset_ensures();
    assert forall|x: i32| s.to_multiset().count(x) == Multiset::<i32>::empty().count(x) by {
        assert(!s.contains(x));
    }
}

/// Sorts a column ascending by repeatedly extracting a least element.
pub fn sort_list(list: &Vec<i32>) -> (r: Vec<i32>)
    ensures
        r@ == sorted_version(list@),
        ascending(r@),
{
    let mut source: Vec<i32> = Vec::new();
    let mut i: usize = 0;
    while i < list.len()
        invariant
            i <= list@.len(),
            source@ =~= list@.take(i as int),
        decreases list@.len() - i,
    {
        source.push(list[i]);
        i = i + 1;
    }
    proof {
        assert(source@ =~= list@);
    }

    let mut out: Vec<i32> = Vec::new();
    proof {
        lemma_empty_to_multiset(out@);
        assert(out@.to_multiset().add(source@.to_multiset()) =~= list@.to_multiset());
    }
    #[verifier::loop_isolation(false)]
    while source.len() > 0
        invariant
            out@.to_multiset().add(source@.to_multiset()) =~= list@.to_multiset(),
            forall|a: int, b: int| 0 <= a < b < out@.len() ==> out@[a] <= out@[b],
            forall|a: int, b: int|
                0 <= a < out@.len() && 0 <= b < source@.len() ==> out@[a] <= source@[b],
        decreases source@.len(),
    {
        let mut least: usize = 0;
        let mut k: usize = 1;
        while k < source.len()
            invariant
                least < k || (k == 1 && least == 0),
                least < source@.len(),
                k <= source@.len(),
                forall|j: int| 0 <= j < k ==> source@[least as int] <= source@[j],
            decreases source@.len() - k,
        {
            if source[k] < source[least] {
                least = k;
            }
            k = k + 1;
        }
        let ghost source_prev = source@;
        let ghost out_prev = out@;
        let value = source.remove(least);
        out.push(value);
        proof {
            source_prev.to_multiset_ensures();
            out_prev.to_multiset_ensures();
            assert(source@.to_multiset() =~= source_prev.to_multiset().remove(value));
            assert(out@.to_multiset() =~= out_prev.to_multiset().insert(value));
            assert(out@.to_multiset().add(source@.to_multiset()) =~= list@.to_multiset());
            assert forall|a: int, b: int|
                0 <= a < out@.len() && 0 <= b < source@.len() implies out@[a] <= source@[b] by {
                assert(source@[b] == source_prev[if b < least { b } else { b + 1 }]);
            }
        }
    }
    proof {
        lemma_empty_to_multiset(source@);
        assert(out@.to_multiset() =~= list@.to_multiset());
        list@.lemma_sort_by_ensures(leq32());
        assert(total_ordering(leq32())) by {
            assert forall|x: i32, y: i32| #[trigger] leq32()(x, y) || leq32()(y, x) by {}
        }
        assert(sorted_by(out@, leq32())) by {
            assert forall|a: int, b: int| 0 <= a < b < out@.len() implies leq32()(
                out@[a],
                out@[b],
            ) by {}
        }
        assert(out@.to_multiset() == list@.sort_by(leq32()).to_multiset());
        lemma_sorted_unique(out@, list@.sort_by(leq32()), leq32());
        assert(out@ =~= sorted_version(list@));
    }
    out
}

/// The magnitude of an integer.
pub open spec fn abs_of(x: int) -> int {
    if x < 0 {
        -x
    } else {
        x
    }
}

/// The summed distances of the pairs from `i` on, the columns paired
/// off position by position up to the shorter length.
pub open spec fn distance_total(a: Seq<i32>, b: Seq<i32>, i: int) -> int
    decreases (if a.len() < b.len() {
        a.len()
    } else {
        b.len()
    }) - i when 0 <= i
{
    let pairs = if a.len() < b.len() {
        a.len() as int
    } else {
        b.len() as int
    };
    if i >= pairs {
        0
    } else {
        abs_of(a[i] - b[i]) + distance_total(a, b, i + 1)
    }
}

/// The distance total is never negative.
proof fn lemma_distance_total_nonneg(a: Seq<i32>, b: Seq<i32>, i: int)
    requires
        0 <= i,
    ensures
        distance_total(a, b, i) >= 0,
    decreases (if a.len() < b.len() {
        a.len()
    } else {
        b.len()
    }) - i,
{
    let pairs = if a.len() < b.len() {
        a.len() as int
    } else {
        b.len() as int
    };
    if i < pairs {
        lemma_distance_total_nonneg(a, b, i + 1);
    }
}

/// Sums the pairwise distances of two columns, position by position
/// up to the shorter length.  `None` when the sum leaves the unsigned
/// 64-bit range.
pub fn distance_sum(list1: &Vec<i32>, list2: &Vec<i32>) -> (r: Option<u64>)
    ensures
        distance_total(list1@, list2@, 0) <= u64::MAX ==> r == Some(
            distance_total(list1@, list2@, 0) as u64,
        ),
        distance_total(list1@, list2@, 0) > u64::MAX ==> r is None,
{
    let pairs = if list1.len() < list2.len() {
        list1.len()
    } else {
        list2.len()
    };
    let mut i: usize = 0;
    let mut total: u64 = 0;
    let ghost mut done: int = 0;
    #[verifier::loop_isolation(false)]
    while i < pairs
        invariant
            0 <= i <= pairs,
            done >= 0,
            total == done,
            distance_total(list1@, list2@, 0) == done + distance_total(list1@, list2@, i as int),
        decreases pairs - i,
    {
        proof {
            lemma_distance_total_nonneg(list1@, list2@, i as int + 1);
        }
        let difference = list1[i] as i64 - list2[i] as i64;
        let magnitude: u64 = if difference < 0 {
            (-difference) as u64
        } else {
            difference as u64
        };
        total = match total.checked_add(magnitude) {
            Some(t) => t,
            None => {
                return None;
            },
        };
        proof {
            done = done + magnitude;
        }
        i = i + 1;
    }
    Some(total)
}

/// The total distance between two columns once each is sorted
/// ascending.  `None` when the sum leaves the unsigned 64-bit range.
pub fn total_distance(list1: &Vec<i32>, list2: &Vec<i32>) -> (r: Option<u64>)
    ensures
        distance_total(sorted_version(list1@), sorted_version(list2@), 0) <= u64::MAX ==> r
            == Some(distance_total(sorted_version(list1@), sorted_version(list2@), 0) as u64),
        distance_total(sorted_version(list1@), sorted_version(list2@), 0) > u64::MAX ==> r
            is None,
{
    let sorted1 = sort_list(list1);
    let sorted2 = sort_list(list2);
    distance_sum(&sorted1, &sorted2)
}

/// The similarity total from `i` on: each left-column entry times its
/// number of occurrences in the right column.
pub open spec fn similarity_total(a: Seq<i32>, b: Seq<i32>, i: int) -> int
    decreases a.len() - i when 0 <= i
{
    if i >= a.len() {
        0
    } else {
        a[i] * b.to_multiset().count(a[i]) + similarity_total(a, b, i + 1)
    }
}

/// The similarity total of nonnegative entries is never negative.
proof fn lemma_similarity_total_nonneg(a: Seq<i32>, b: Seq<i32>, i: int)
    requires
        0 <= i,
        forall|k: int| 0 <= k < a.len() ==> #[trigger] a[k] >= 0,
    ensures
        similarity_total(a, b, i) >= 0,
    decreases a.len() - i,
{
    if i < a.len() {
        lemma_similarity_total_nonneg(a, b, i + 1);
        assert(a[i] * b.to_multiset().count(a[i]) >= 0) by (nonlinear_arith)
            requires
                a[i] >= 0,
                b.to_multiset().count(a[i]) >= 0,
        ;
    }
}

/// How often the value occurs in the column.
fn count_occurrences(list: &Vec<i32>, value: i32) -> (r: u64)
    requires
        list@.len() <= u64::MAX,
    ensures
        r == list@.to_multiset().count(value),
{
    let mut k: usize = 0;
    let mut found: u64 = 0;
    proof {
        assert(list@.take(0) =~= Seq::<i32>::empty());
        lemma_empty_to_multiset(list@.take(0));
    }
    #[verifier::loop_isolation(false)]
    while k < list.len()
        invariant
            k <= list@.len(),
            found <= k,
            found == list@.take(k as int).to_multiset().count(value),
        decreases list@.len() - k,
    {
        proof {
            list@.take(k as int).to_multiset_ensures();
            assert(list@.take(k as int + 1) =~= list@.take(k as int).push(list@[k as int]));
        }
        if list[k] == value {
            found = found + 1;
        }
        k = k + 1;
    }
    proof {
        assert(list@.take(list@.len() as int) =~= list@);
    }
    found
}

/// The similarity score of two columns: each left-column entry times
/// its number of occurrences in the right column, summed.  `None`
/// when the sum leaves the unsigned 64-bit range.
pub fn similarity_score(list1: &Vec<i32>, list2: &Vec<i32>) -> (r: Option<u64>)
    requires
        forall|k: int| 0 <= k < list1@.len() ==> #[trigger] list1@[k] >= 0,
        list2@.len() <= u64::MAX,
    ensures
        similarity_total(list1@, list2@, 0) <= u64::MAX ==> r == Some(
            similarity_total(list1@, list2@, 0) as u64,
        ),
        similarity_total(list1@, list2@, 0) > u64::MAX ==> r is None,
{
    let mut i: usize = 0;
    let mut total: u64 = 0;
    let ghost mut done: int = 0;
    #[verifier::loop_isolation(false)]
    while i < list1.len()
        invariant
            0 <= i <= list1@.len(),
            done >= 0,
            total == done,
            similarity_total(list1@, list2@, 0) == done + similarity_total(
                list1@,
                list2@,
                i as int,
            ),
        decreases list1@.len() - i,
    {
        proof {
            lemma_similarity_total_nonneg(list1@, list2@, i as int + 1);
        }
        let occurrences = count_occurrences(list2, list1[i]);
        let value = list1[i] as u64;
        let contribution = match value.checked_mul(occurrences) {
            Some(c) => c,
            None => {
                proof {
                    assert(done + similarity_total(list1@, list2@, i as int) > u64::MAX);
                }
                return None;
            },
        };
        total = match total.checked_add(contribution) {
            Some(t) => t,
            None => {
                return None;
            },
        };
        proof {
            done = done + value * occurrences;
        }
        i = i + 1;
    }
    Some(total)
}

} // verus!
