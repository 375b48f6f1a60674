//! Library-wide laws: facts that relate the builders' contracts to one
//! another, stated and proved over the same specifications the contracts
//! use.

use vstd::prelude::*;

use crate::lcp::is_lcp_array;
use crate::order::{lcp_of, lemma_lcp_bounds, lemma_suffix_le_antisym, suffix_le};
use crate::sa::{
    in_bounds, is_suffix_array, lemma_permutation_facts, lemma_sorted_pairwise, sorted_by_suffix,
};

verus! {

/// Two sequences with the same contents, each in ascending suffix order,
/// are the same sequence.
proof fn lemma_sorted_mset_unique(text: Seq<u8>, a: Seq<usize>, b: Seq<usize>)
    requires
        a.to_multiset() == b.to_multiset(),
        sorted_by_suffix(text, a),
        sorted_by_suffix(text, b),
        in_bounds(a, text.len()),
        in_bounds(b, text.len()),
    ensures
        a == b,
    decreases a.len(),
{
    broadcast use vstd::seq_lib::group_to_multiset_ensures;
    broadcast use vstd::multiset::group_multiset_axioms;

    vstd::seq_lib::to_multiset_len::<usize>(a);
    vstd::seq_lib::to_multiset_len::<usize>(b);
    if a.len() == 0 {
        assert(a =~= b);
    } else {
        assert(a.contains(a[0]));
        assert(b.to_multiset().count(a[0]) > 0);
        assert(b.contains(a[0]));
        let kb = choose|kb: int| 0 <= kb < b.len() && b[kb] == a[0];
        lemma_sorted_pairwise(text, b, 0, kb);
        assert(b.contains(b[0]));
        assert(a.to_multiset().count(b[0]) > 0);
        assert(a.contains(b[0]));
        let ka = choose|ka: int| 0 <= ka < a.len() && a[ka] == b[0];
        lemma_sorted_pairwise(text, a, 0, ka);
        lemma_suffix_le_antisym(text, a[0] as int, b[0] as int);
        assert(a[0] == b[0]);
        assert(a.remove(0) =~= a.drop_first());
        assert(b.remove(0) =~= b.drop_first());
        assert(a.drop_first().to_multiset() == a.to_multiset().remove(a[0]));
        assert(b.drop_first().to_multiset() == b.to_multiset().remove(b[0]));
        assert forall|k: int| 0 <= k < a.drop_first().len() - 1 implies suffix_le(
            text,
            #[trigger] a.drop_first()[k] as int,
            a.drop_first()[k + 1] as int,
        ) by {
            assert(a.drop_first()[k] == a[k + 1]);
            assert(a.drop_first()[k + 1] == a[k + 2]);
        }
        assert forall|k: int| 0 <= k < b.drop_first().len() - 1 implies suffix_le(
            text,
            #[trigger] b.drop_first()[k] as int,
            b.drop_first()[k + 1] as int,
        ) by {
            assert(b.drop_first()[k] == b[k + 1]);
            assert(b.drop_first()[k + 1] == b[k + 2]);
        }
        assert forall|k: int| 0 <= k < a.drop_first().len() implies ((#[trigger] a.drop_first()[k])
            as nat) < text.len() by {
            assert(a.drop_first()[k] == a[k + 1]);
        }
        assert forall|k: int| 0 <= k < b.drop_first().len() implies ((#[trigger] b.drop_first()[k])
            as nat) < text.len() by {
            assert(b.drop_first()[k] == b[k + 1]);
        }
        lemma_sorted_mset_unique(text, a.drop_first(), b.drop_first());
        assert forall|k: int| 0 <= k < a.len() implies a[k] == b[k] by {
            if k > 0 {
                assert(a.drop_first()[k - 1] == b.drop_first()[k - 1]);
            }
        }
        assert(a =~= b);
    }
}

/// Determinism of the suffix array: its contract pins the result down, so
/// any two sequences that satisfy it for the same text — such as the
/// results of repeated builder invocations — are identical.
pub proof fn lemma_suffix_array_unique(text: Seq<u8>, a: Seq<usize>, b: Seq<usize>)
    requires
        text.len() <= usize::MAX,
        is_suffix_array(text, a),
        is_suffix_array(text, b),
    ensures
        a == b,
{
    lemma_permutation_facts(a, text.len());
    lemma_permutation_facts(b, text.len());
    lemma_sorted_mset_unique(text, a, b);
}

/// Determinism of the LCP array: any two LCP arrays for the same suffix
/// array and text — among them the parallel and the serial builders'
/// results, or repeated invocations of either — are identical.
pub proof fn lemma_lcp_array_unique(text: Seq<u8>, sa: Seq<usize>, lcp1: Seq<usize>, lcp2: Seq<
    usize,
>)
    requires
        is_lcp_array(text, sa, lcp1),
        is_lcp_array(text, sa, lcp2),
    ensures
        lcp1 == lcp2,
{
    assert forall|k: int| 0 <= k < lcp1.len() implies lcp1[k] == lcp2[k] by {
        assert(lcp1[k] as nat == lcp_of(text, sa[k] as int, sa[k + 1] as int));
        assert(lcp2[k] as nat == lcp_of(text, sa[k] as int, sa[k + 1] as int));
    }
    assert(lcp1 =~= lcp2);
}

/// Bounds of the LCP array: each entry fits inside both of its suffixes,
/// the prefixes of that length agree byte for byte, and where the entry
/// stops short of both suffix ends the next byte pair differs.
pub proof fn lemma_lcp_array_bounds(text: Seq<u8>, sa: Seq<usize>, lcp: Seq<usize>, k: int)
    requires
        text.len() <= usize::MAX,
        is_suffix_array(text, sa),
        is_lcp_array(text, sa, lcp),
        0 <= k < lcp.len(),
    ensures
        sa[k] as int + lcp[k] as int <= text.len(),
        sa[k + 1] as int + lcp[k] as int <= text.len(),
        forall|t: int|
            0 <= t < lcp[k] as int ==> #[trigger] text[sa[k] as int + t] == text[sa[k + 1] as int
                + t],
        (sa[k] as int + (lcp[k] as int) < text.len() && sa[k + 1] as int + (lcp[k] as int)
            < text.len()) ==> text[sa[k] as int + lcp[k] as int] != text[sa[k + 1] as int + lcp[k]
            as int],
{
    lemma_permutation_facts(sa, text.len());
    lemma_lcp_bounds(text, sa[k] as int, sa[k + 1] as int);
}

} // verus!
