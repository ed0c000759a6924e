//! Sorting samples, and what the order of a sorted sample is.

use vstd::prelude::*;
use vstd::relations::{sorted_by, total_ordering};
use vstd::seq_lib::group_to_multiset_ensures;

verus! {

/// Ascending order of `i64`s.
pub open spec fn le_i64() -> spec_fn(i64, i64) -> bool {
    |a: i64, b: i64| a <= b
}

/// Ascending order of `u64`s.
pub open spec fn le_u64() -> spec_fn(u64, u64) -> bool {
    |a: u64, b: u64| a <= b
}

/// `s` in ascending order.
pub open spec fn ascending_i64(s: Seq<i64>) -> Seq<i64> {
    s.sort_by(le_i64())
}

/// `s` in ascending order.
pub open spec fn ascending_u64(s: Seq<u64>) -> Seq<u64> {
    s.sort_by(le_u64())
}

/// Sorts `v` ascending with `slice::sort_unstable`, which std documents as
/// sorting the slice: trusted to leave the same elements, each as often, in
/// ascending order.
#[verifier::external_body]
pub(crate) fn sort_i64(v: &mut Vec<i64>)
    ensures
        sorted_by(final(v)@, le_i64()),
        final(v)@.to_multiset() == old(v)@.to_multiset(),
{
    v.sort_unstable();
}

/// Sorts `v` ascending with `slice::sort_unstable`, which std documents as
/// sorting the slice: trusted to leave the same elements, each as often, in
/// ascending order.
#[verifier::external_body]
pub(crate) fn sort_u64(v: &mut Vec<u64>)
    ensures
        sorted_by(final(v)@, le_u64()),
        final(v)@.to_multiset() == old(v)@.to_multiset(),
{
    v.sort_unstable();
}

/// Two sequences in the same total order with the same elements, each as
/// often, are the same sequence.
pub proof fn lemma_sorted_unique<T>(a: Seq<T>, b: Seq<T>, leq: spec_fn(T, T) -> bool)
    requires
        total_ordering(leq),
        sorted_by(a, leq),
        sorted_by(b, leq),
        a.to_multiset() == b.to_multiset(),
    ensures
        a == b,
    decreases a.len(),
{
    broadcast use group_to_multiset_ensures;

    vstd::seq_lib::to_multiset_len(a);
    vstd::seq_lib::to_multiset_len(b);
    assert(a.len() == b.len());
    if a.len() == 0 {
        assert(a =~= b);
    } else {
        assert(a.to_multiset().count(a[0]) > 0);
        assert(b.contains(a[0]));
        let j = choose|j: int| 0 <= j < b.len() && b[j] == a[0];
        assert(b.to_multiset().count(b[0]) > 0);
        assert(a.contains(b[0]));
        let k = choose|k: int| 0 <= k < a.len() && a[k] == b[0];
        assert(leq(b[0], a[0])) by {
            if j > 0 {
                assert(leq(b[0], b[j]));
            }
        }
        assert(leq(a[0], b[0])) by {
            if k > 0 {
                assert(leq(a[0], a[k]));
            }
        }
        assert(a[0] == b[0]);
        let a2 = a.remove(0);
        let b2 = b.remove(0);
        assert(a2.to_multiset() == a.to_multiset().remove(a[0]));
        assert(b2.to_multiset() == b.to_multiset().remove(b[0]));
        assert(sorted_by(a2, leq)) by {
            assert forall|i: int, m: int| 0 <= i < m < a2.len() implies #[trigger] leq(
                a2[i],
                a2[m],
            ) by {
                assert(a2[i] == a[i + 1]);
                assert(a2[m] == a[m + 1]);
            }
        }
        assert(sorted_by(b2, leq)) by {
            assert forall|i: int, m: int| 0 <= i < m < b2.len() implies #[trigger] leq(
                b2[i],
                b2[m],
            ) by {
                assert(b2[i] == b[i + 1]);
                assert(b2[m] == b[m + 1]);
            }
        }
        lemma_sorted_unique(a2, b2, leq);
        assert(a =~= b) by {
            assert forall|i: int| 0 <= i < a.len() implies a[i] == b[i] by {
                if i > 0 {
                    assert(a[i] == a2[i - 1]);
                    assert(b[i] == b2[i - 1]);
                }
            }
        }
    }
}

pub proof fn lemma_le_i64_total()
    ensures
        total_ordering(le_i64()),
{
}

pub proof fn lemma_le_u64_total()
    ensures
        total_ordering(le_u64()),
{
}

/// A sorted sequence with the elements of `s` is `s` in ascending order.
pub proof fn lemma_is_ascending_i64(v: Seq<i64>, s: Seq<i64>)
    requires
        sorted_by(v, le_i64()),
        v.to_multiset() == s.to_multiset(),
    ensures
        v == ascending_i64(s),
{
    lemma_le_i64_total();
    s.lemma_sort_by_ensures(le_i64());
    lemma_sorted_unique(v, s.sort_by(le_i64()), le_i64());
}

/// A sorted sequence with the elements of `s` is `s` in ascending order.
pub proof fn lemma_is_ascending_u64(v: Seq<u64>, s: Seq<u64>)
    requires
        sorted_by(v, le_u64()),
        v.to_multiset() == s.to_multiset(),
    ensures
        v == ascending_u64(s),
{
    lemma_le_u64_total();
    s.lemma_sort_by_ensures(le_u64());
    lemma_sorted_unique(v, s.sort_by(le_u64()), le_u64());
}

} // verus!
