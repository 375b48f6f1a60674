//! Lexicographic ordering of suffixes of a shared byte sequence, and the
//! longest-common-prefix length of two suffixes.
//!
//! A suffix is identified by its start position alone; its value is the
//! subsequence from that position to the end of the text. All specifications
//! here work directly on positions, so no subsequence is ever materialized.

use vstd::prelude::*;

verus! {

/// `text[i..] <= text[j..]` under byte-wise lexicographic order, with a
/// strictly shorter suffix that is a prefix of a longer one ordered first.
pub open spec fn suffix_le(text: Seq<u8>, i: int, j: int) -> bool
    recommends
        0 <= i <= text.len(),
        0 <= j <= text.len(),
    decreases text.len() - i,
{
    if i >= text.len() {
        true
    } else if j >= text.len() {
        false
    } else if text[i] < text[j] {
        true
    } else if text[i] > text[j] {
        false
    } else {
        suffix_le(text, i + 1, j + 1)
    }
}

/// Length of the longest common prefix of `text[i..]` and `text[j..]`.
pub open spec fn lcp_of(text: Seq<u8>, i: int, j: int) -> nat
    recommends
        0 <= i <= text.len(),
        0 <= j <= text.len(),
    decreases text.len() - i,
{
    if i < text.len() && j < text.len() && text[i] == text[j] {
        1 + lcp_of(text, i + 1, j + 1)
    } else {
        0
    }
}

/// Any two suffixes are comparable.
pub proof fn lemma_suffix_le_total(text: Seq<u8>, i: int, j: int)
    requires
        0 <= i <= text.len(),
        0 <= j <= text.len(),
    ensures
        suffix_le(text, i, j) || suffix_le(text, j, i),
    decreases text.len() - i,
{
    if i < text.len() && j < text.len() && text[i] == text[j] {
        lemma_suffix_le_total(text, i + 1, j + 1);
    }
}

/// Two suffixes each at most the other start at the same position.
pub proof fn lemma_suffix_le_antisym(text: Seq<u8>, i: int, j: int)
    requires
        0 <= i <= text.len(),
        0 <= j <= text.len(),
        suffix_le(text, i, j),
        suffix_le(text, j, i),
    ensures
        i == j,
    decreases text.len() - i,
{
    if i < text.len() && j < text.len() && text[i] == text[j] {
        lemma_suffix_le_antisym(text, i + 1, j + 1);
    }
}

/// The suffix order is transitive.
pub proof fn lemma_suffix_le_trans(text: Seq<u8>, i: int, j: int, k: int)
    requires
        0 <= i <= text.len(),
        0 <= j <= text.len(),
        0 <= k <= text.len(),
        suffix_le(text, i, j),
        suffix_le(text, j, k),
    ensures
        suffix_le(text, i, k),
    decreases text.len() - i,
{
    if i < text.len() && j < text.len() && k < text.len() && text[i] == text[j] && text[j]
        == text[k] {
        lemma_suffix_le_trans(text, i + 1, j + 1, k + 1);
    }
}

/// The common-prefix length is symmetric in its two suffixes.
pub proof fn lemma_lcp_sym(text: Seq<u8>, i: int, j: int)
    requires
        0 <= i <= text.len(),
        0 <= j <= text.len(),
    ensures
        lcp_of(text, i, j) == lcp_of(text, j, i),
    decreases text.len() - i,
{
    if i < text.len() && j < text.len() && text[i] == text[j] {
        lemma_lcp_sym(text, i + 1, j + 1);
    }
}

/// The common prefix of two suffixes fits inside both of them, its bytes
/// agree pairwise, and where it stops short of either end the next bytes
/// differ.
pub proof fn lemma_lcp_bounds(text: Seq<u8>, i: int, j: int)
    requires
        0 <= i <= text.len(),
        0 <= j <= text.len(),
    ensures
        i + lcp_of(text, i, j) <= text.len(),
        j + lcp_of(text, i, j) <= text.len(),
        forall|t: int|
            0 <= t < lcp_of(text, i, j) ==> #[trigger] text[i + t] == text[j + t],
        i + lcp_of(text, i, j) < text.len() && j + lcp_of(text, i, j) < text.len() ==> text[i
            + lcp_of(text, i, j)] != text[j + lcp_of(text, i, j)],
    decreases text.len() - i,
{
    if i < text.len() && j < text.len() && text[i] == text[j] {
        lemma_lcp_bounds(text, i + 1, j + 1);
        assert forall|t: int| 0 <= t < lcp_of(text, i, j) implies #[trigger] text[i + t] == text[j
            + t] by {
            if t > 0 {
                assert(text[(i + 1) + (t - 1)] == text[(j + 1) + (t - 1)]);
            }
        }
    }
}

/// Suffixes that agree on their first byte compare, and share a prefix,
/// exactly as the suffixes one position later do.
pub proof fn lemma_suffix_shift(text: Seq<u8>, i: int, j: int)
    requires
        0 <= i < text.len(),
        0 <= j < text.len(),
        text[i] == text[j],
    ensures
        suffix_le(text, i, j) == suffix_le(text, i + 1, j + 1),
        lcp_of(text, i, j) == 1 + lcp_of(text, i + 1, j + 1),
{
}

/// Of three suffixes in ascending order, the outer pair shares no more than
/// the upper pair: the nearer neighbour in sorted order has the longer
/// common prefix.
pub proof fn lemma_order_lcp(text: Seq<u8>, a: int, b: int, c: int)
    requires
        0 <= a <= text.len(),
        0 <= b <= text.len(),
        0 <= c <= text.len(),
        suffix_le(text, a, b),
        suffix_le(text, b, c),
    ensures
        lcp_of(text, a, c) <= lcp_of(text, b, c),
    decreases text.len() - a,
{
    if lcp_of(text, a, c) > 0 {
        // a and c start with the same byte; b, sandwiched between them,
        // must start with that byte as well.
        assert(a < text.len() && c < text.len() && text[a] == text[c]);
        assert(b < text.len());
        assert(text[a] == text[b] && text[b] == text[c]);
        lemma_suffix_shift(text, a, b);
        lemma_suffix_shift(text, b, c);
        lemma_order_lcp(text, a + 1, b + 1, c + 1);
    }
}

/// Three-way comparison of the suffixes starting at `i` and at `j`.
///
/// Returns `Equal` exactly when the two start positions coincide; otherwise
/// `Less` or `Greater` according to the lexicographic order of the suffixes.
pub fn suffix_order(text: &[u8], i: usize, j: usize) -> (o: core::cmp::Ordering)
    requires
        i <= text@.len(),
        j <= text@.len(),
    ensures
        o == core::cmp::Ordering::Equal <==> i == j,
        o == core::cmp::Ordering::Less <==> (i != j && suffix_le(text@, i as int, j as int)),
        o == core::cmp::Ordering::Greater <==> (i != j && !suffix_le(text@, i as int, j as int)),
{
    let n = text.len();
    let mut k: usize = 0;
    while i + k < n && j + k < n && text[i + k] == text[j + k]
        invariant
            i <= n,
            j <= n,
            i + k <= n,
            j + k <= n,
            n == text@.len(),
            suffix_le(text@, i as int, j as int) == suffix_le(text@, i + k, j + k),
            suffix_le(text@, j as int, i as int) == suffix_le(text@, j + k, i + k),
            forall|t: int| 0 <= t < k ==> #[trigger] text@[i + t] == text@[j + t],
        decreases n - k,
    {
        k = k + 1;
    }
    if i + k >= n && j + k >= n {
        proof {
            lemma_suffix_le_total(text@, i as int, j as int);
            lemma_suffix_le_antisym(text@, i as int, j as int);
        }
        core::cmp::Ordering::Equal
    } else if i + k >= n {
        proof {
            lemma_suffix_le_antisym_helper(text@, i as int, j as int, i + k, j + k);
        }
        core::cmp::Ordering::Less
    } else if j + k >= n {
        proof {
            lemma_suffix_le_total(text@, i as int, i as int);
        }
        core::cmp::Ordering::Greater
    } else if text[i + k] < text[j + k] {
        proof {
            lemma_suffix_le_antisym_helper(text@, i as int, j as int, i + k, j + k);
        }
        core::cmp::Ordering::Less
    } else {
        proof {
            lemma_suffix_le_total(text@, i as int, i as int);
        }
        core::cmp::Ordering::Greater
    }
}

/// When the suffixes at `i` and `j` first differ at offset `ik - i`, the two
/// start positions differ as well.
proof fn lemma_suffix_le_antisym_helper(text: Seq<u8>, i: int, j: int, ik: int, jk: int)
    requires
        0 <= i <= text.len(),
        0 <= j <= text.len(),
        i <= ik <= text.len(),
        j <= jk <= text.len(),
        jk - j == ik - i,
        suffix_le(text, i, j) == suffix_le(text, ik, jk),
        suffix_le(text, j, i) == suffix_le(text, jk, ik),
        suffix_le(text, ik, jk),
        !(ik >= text.len() && jk >= text.len()),
        ik < text.len() && jk < text.len() ==> text[ik] != text[jk],
    ensures
        i != j,
        suffix_le(text, i, j),
{
    if i == j {
        assert(ik == jk);
    }
}

} // verus!
