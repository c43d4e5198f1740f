//! The suffix array of a text: its offsets, ordered by the suffixes that start
//! at them.

use vstd::prelude::*;
use vstd::set_lib::{lemma_int_range, lemma_subset_equality, set_int_range};
use crate::lex::{lemma_lt_asymmetric, lemma_lt_total, lemma_lt_transitive, suffix};
use crate::ordering::{sort_by_suffix, suffix_below, suffix_precedes};

verus! {

/// `order` lists offsets into `text`, one for each symbol, so that the suffixes
/// at them strictly ascend.
pub open spec fn is_suffix_array(text: Seq<u8>, order: Seq<usize>) -> bool {
    &&& order.len() == text.len()
    &&& forall|i: int| 0 <= i < order.len() ==> #[trigger] order[i] < text.len()
    &&& forall|i: int, j: int|
        0 <= i < j < order.len() ==> suffix_below(text, #[trigger] order[i], #[trigger] order[j])
}

/// The offsets `0, 1, .., n - 1` in this order.
pub open spec fn identity_order(n: nat) -> Seq<usize> {
    Seq::new(n, |i: int| i as usize)
}

/// Suffixes of one text that start at different offsets differ, so one of them
/// is below the other.
pub proof fn lemma_suffixes_differ(text: Seq<u8>, a: usize, b: usize)
    requires
        a <= text.len(),
        b <= text.len(),
        a != b,
    ensures
        suffix_below(text, a, b) || suffix_below(text, b, a),
{
    let x = suffix(text, a as int);
    let y = suffix(text, b as int);
    assert(x.len() != y.len());
    lemma_lt_total(x, y);
}

/// Every offset of the text stands in its suffix array, and none twice: the
/// array is a permutation of the offsets.
pub proof fn lemma_suffix_array_permutation(text: Seq<u8>, order: Seq<usize>)
    requires
        is_suffix_array(text, order),
    ensures
        order.no_duplicates(),
        forall|p: usize| p < text.len() ==> #[trigger] order.contains(p),
{
    let n = text.len() as int;
    assert forall|i: int, j: int|
        0 <= i < order.len() && 0 <= j < order.len() && i != j implies order[i] != order[j] by {
        if i < j {
            lemma_lt_asymmetric(suffix(text, order[i] as int), suffix(text, order[j] as int));
        } else {
            lemma_lt_asymmetric(suffix(text, order[j] as int), suffix(text, order[i] as int));
        }
    }
    let offsets = Seq::new(order.len(), |i: int| order[i] as int);
    assert(offsets.no_duplicates());
    offsets.unique_seq_to_set();
    lemma_int_range(0, n);
    assert(offsets.to_set().subset_of(set_int_range(0, n))) by {
        assert forall|p: int| offsets.to_set().contains(p) implies set_int_range(0, n).contains(
            p,
        ) by {
            let i = choose|i: int| 0 <= i < offsets.len() && offsets[i] == p;
            assert(order[i] < text.len());
        }
    }
    vstd::seq_lib::seq_to_set_is_finite(offsets);
    lemma_subset_equality(offsets.to_set(), set_int_range(0, n));
    assert forall|p: usize| p < text.len() implies #[trigger] order.contains(p) by {
        assert(set_int_range(0, n).contains(p as int));
        assert(offsets.to_set().contains(p as int));
        let i = choose|i: int| 0 <= i < offsets.len() && offsets[i] == p as int;
        assert(order[i] == p);
    }
}

/// Two suffix arrays of one text agree on their first `upto` positions.
proof fn lemma_same_upto(text: Seq<u8>, a: Seq<usize>, b: Seq<usize>, upto: int)
    requires
        is_suffix_array(text, a),
        is_suffix_array(text, b),
        0 <= upto <= text.len(),
    ensures
        forall|j: int| 0 <= j < upto ==> a[j] == b[j],
    decreases upto,
{
    if upto > 0 {
        let i = upto - 1;
        lemma_same_upto(text, a, b, i);
        lemma_suffix_array_permutation(text, a);
        lemma_suffix_array_permutation(text, b);
        let x = a[i];
        let y = b[i];
        assert(b.contains(x));
        let p = choose|p: int| 0 <= p < b.len() && b[p] == x;
        assert(a.contains(y));
        let q = choose|q: int| 0 <= q < a.len() && a[q] == y;
        if p < i {
            assert(a[p] == b[p]);
        }
        if q < i {
            assert(a[q] == b[q]);
        }
        if p > i {
            assert(suffix_below(text, b[i], b[p]));
            if q > i {
                assert(suffix_below(text, a[i], a[q]));
                lemma_lt_asymmetric(suffix(text, x as int), suffix(text, y as int));
            }
        }
    }
}

/// A text has one suffix array.
pub proof fn lemma_suffix_array_unique(text: Seq<u8>, a: Seq<usize>, b: Seq<usize>)
    requires
        is_suffix_array(text, a),
        is_suffix_array(text, b),
    ensures
        a == b,
{
    lemma_same_upto(text, a, b, text.len() as int);
    assert(a =~= b);
}

/// Where each suffix is below the next one in `order`, each is below all that
/// follow it.
pub proof fn lemma_ascending_steps(text: Seq<u8>, order: Seq<usize>, i: int, j: int)
    requires
        forall|k: int| 0 <= k < order.len() ==> #[trigger] order[k] <= text.len(),
        forall|k: int|
            0 <= k && k + 1 < order.len() ==> suffix_below(text, #[trigger] order[k], order[k + 1]),
        0 <= i < j < order.len(),
    ensures
        suffix_below(text, order[i], order[j]),
    decreases j - i,
{
    if i + 1 < j {
        lemma_ascending_steps(text, order, i, j - 1);
        lemma_lt_transitive(
            suffix(text, order[i] as int),
            suffix(text, order[j - 1] as int),
            suffix(text, order[j] as int),
        );
    }
}

/// Builds the suffix array of `text`: the offsets `0 .. text.len()`, sorted by
/// the suffix that starts at each, every suffix compared to the end of the
/// text.
pub fn build_suffix_array(text: &[u8]) -> (order: Vec<usize>)
    ensures
        is_suffix_array(text@, order@),
        order@.no_duplicates(),
        forall|p: usize| p < text@.len() ==> #[trigger] order@.contains(p),
{
    let n: usize = text.len();
    let mut order: Vec<usize> = Vec::new();
    let mut i: usize = 0;
    while i < n
        invariant
            n == text@.len(),
            i <= n,
            order@ == identity_order(i as nat),
        decreases n - i,
    {
        order.push(i);
        i += 1;
        assert(order@ =~= identity_order(i as nat));
    }
    let ghost start = order@;
    sort_by_suffix(&mut order, text);
    proof {
        order@.to_multiset_ensures();
        start.to_multiset_ensures();
        assert(order@.len() == start.len());
        assert forall|k: int| 0 <= k < order@.len() implies #[trigger] order@[k] < n by {
            assert(order@.contains(order@[k]));
            assert(order@.to_multiset().count(order@[k]) > 0);
            assert(start.to_multiset().count(order@[k]) > 0);
            assert(start.contains(order@[k]));
        }
        assert(start.no_duplicates());
        start.lemma_multiset_has_no_duplicates();
        order@.lemma_multiset_has_no_duplicates_conv();
        assert forall|k: int, l: int| 0 <= k < l < order@.len() implies suffix_below(
            text@,
            #[trigger] order@[k],
            #[trigger] order@[l],
        ) by {
            lemma_suffixes_differ(text@, order@[k], order@[l]);
        }
        lemma_suffix_array_permutation(text@, order@);
    }
    order
}

/// Whether `order` is the suffix array of `text`.
pub fn check_suffix_array(text: &[u8], order: &[usize]) -> (ok: bool)
    ensures
        ok == is_suffix_array(text@, order@),
{
    let n: usize = text.len();
    if order.len() != n {
        return false;
    }
    let mut i: usize = 0;
    while i < n
        invariant
            n == text@.len(),
            n == order@.len(),
            i <= n,
            forall|k: int| 0 <= k < i ==> #[trigger] order@[k] < n,
        decreases n - i,
    {
        if order[i] >= n {
            return false;
        }
        i += 1;
    }
    let mut j: usize = 1;
    while j < n
        invariant
            n == text@.len(),
            n == order@.len(),
            1 <= j,
            forall|k: int| 0 <= k < n ==> #[trigger] order@[k] < n,
            forall|k: int|
                0 <= k && k + 1 < j ==> suffix_below(text@, #[trigger] order@[k], order@[k + 1]),
        decreases n - j,
    {
        if !suffix_precedes(text, order[j - 1], order[j]) {
            return false;
        }
        j += 1;
    }
    proof {
        assert forall|k: int, l: int| 0 <= k < l < order@.len() implies suffix_below(
            text@,
            #[trigger] order@[k],
            #[trigger] order@[l],
        ) by {
            lemma_ascending_steps(text@, order@, k, l);
        }
    }
    true
}

} // verus!
