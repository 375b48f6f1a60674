//! The LCP array builder: for each adjacent pair of suffixes in sorted
//! order, the length of their longest common prefix.
//!
//! Two variants build the same array. The parallel one computes every
//! position independently, from scratch, so the positions can be handed to
//! workers with no shared state; the serial reference one walks the text in
//! position order and resumes each scan one byte short of the previous
//! match length, for cross-checking the parallel results.

use rayon::iter::{IndexedParallelIterator, IntoParallelIterator, ParallelIterator};
use vstd::prelude::*;

use crate::order::{
    lcp_of, lemma_lcp_bounds, lemma_lcp_sym, lemma_order_lcp, lemma_suffix_le_antisym,
    lemma_suffix_shift, suffix_le,
};
use crate::sa::{
    in_bounds, is_permutation, is_suffix_array, lemma_permutation_facts, lemma_sorted_pairwise,
};

verus! {

/// `lcp` is the LCP array of `text` for the suffix order listed by `sa`:
/// entry `k` holds the length of the longest common prefix of the suffixes
/// starting at `sa[k]` and `sa[k+1]`. It is one entry shorter than `sa`,
/// and empty when `sa` is.
pub open spec fn is_lcp_array(text: Seq<u8>, sa: Seq<usize>, lcp: Seq<usize>) -> bool {
    &&& lcp.len() == if sa.len() == 0 {
        0int
    } else {
        sa.len() - 1
    }
    &&& forall|k: int|
        0 <= k < lcp.len() ==> (#[trigger] lcp[k]) as nat == lcp_of(
            text,
            sa[k] as int,
            sa[k + 1] as int,
        )
}

/// Build the rank array: the inverse permutation of `sa`, mapping a suffix
/// start position to its sorted position. A single sequential pass.
fn build_rank_array(sa: &[usize]) -> (rank: Vec<usize>)
    requires
        is_permutation(sa@, sa@.len() as nat),
    ensures
        rank@.len() == sa@.len(),
        forall|t: int| 0 <= t < sa@.len() ==> (#[trigger] rank@[sa@[t] as int]) as int == t,
        forall|x: int|
            0 <= x < rank@.len() ==> (#[trigger] rank@[x]) < rank@.len() && sa@[rank@[x] as int]
                as int == x,
{
    let n = sa.len();
    proof {
        lemma_permutation_facts(sa@, sa@.len() as nat);
    }
    let mut rank: Vec<usize> = Vec::new();
    while rank.len() < n
        invariant
            rank@.len() <= n,
            forall|x: int| 0 <= x < rank@.len() ==> (#[trigger] rank@[x]) == 0,
        decreases n - rank.len(),
    {
        rank.push(0);
    }
    let mut t: usize = 0;
    while t < n
        invariant
            t <= n,
            n == sa@.len(),
            rank@.len() == n,
            in_bounds(sa@, n as nat),
            sa@.no_duplicates(),
            forall|q: int| 0 <= q < t ==> (#[trigger] rank@[sa@[q] as int]) as int == q,
        decreases n - t,
    {
        let pos = sa[t];
        rank[pos] = t;
        t = t + 1;
    }
    proof {
        assert forall|x: int|
            0 <= x < rank@.len() implies (#[trigger] rank@[x]) < rank@.len() && sa@[rank@[x] as int]
            as int == x by {
            assert(sa@.contains(x as usize));
            let q = choose|q: int| 0 <= q < sa@.len() && sa@[q] == x as usize;
            assert(rank@[sa@[q] as int] as int == q);
        }
    }
    rank
}

/// Count the matching leading bytes of the suffixes at `i` and `j`,
/// resuming from an offset already known to lie within the common prefix.
fn lcp_scan_from(text: &[u8], i: usize, j: usize, h0: usize) -> (h: usize)
    requires
        i <= text@.len(),
        j <= text@.len(),
        h0 as nat <= lcp_of(text@, i as int, j as int),
    ensures
        h as nat == lcp_of(text@, i as int, j as int),
{
    let n = text.len();
    let mut h = h0;
    proof {
        lemma_lcp_bounds(text@, i as int, j as int);
    }
    while i + h < n && j + h < n && text[i + h] == text[j + h]
        invariant
            n == text@.len(),
            i <= n,
            j <= n,
            h as nat <= lcp_of(text@, i as int, j as int),
            i + h <= n,
            j + h <= n,
        decreases n - h,
    {
        proof {
            lemma_lcp_bounds(text@, i as int, j as int);
            assert((h as nat) < lcp_of(text@, i as int, j as int)) by {
                if h as nat == lcp_of(text@, i as int, j as int) {
                    assert(text@[i + h] != text@[j + h]);
                }
            }
        }
        h = h + 1;
    }
    proof {
        lemma_lcp_bounds(text@, i as int, j as int);
        assert(h as nat == lcp_of(text@, i as int, j as int)) by {
            if (h as nat) < lcp_of(text@, i as int, j as int) {
                assert(text@[i + h] == text@[j + h]);
            }
        }
    }
    h
}

/// The independent work of one sorted position `k`: look up the position's
/// own rank through the rank array, take the suffix one rank earlier, and
/// scan their common prefix from the start.
fn lcp_at_position(text: &[u8], sa: &[usize], rank: &Vec<usize>, k: usize) -> (h: usize)
    requires
        sa@.len() == text@.len(),
        rank@.len() == sa@.len(),
        1 <= k < sa@.len(),
        in_bounds(sa@, sa@.len() as nat),
        forall|t: int| 0 <= t < sa@.len() ==> (#[trigger] rank@[sa@[t] as int]) as int == t,
    ensures
        h as nat == lcp_of(text@, sa@[k as int] as int, sa@[k as int - 1] as int),
{
    let suf = sa[k];
    let r = rank[suf];
    proof {
        assert(r == k);
    }
    let prev = sa[r - 1];
    lcp_scan_from(text, suf, prev, 0)
}

/// Relies on rayon's into_par_iter, map and collect over an index range:
/// the closure — the verified `lcp_at_position` — runs once per sorted
/// position, in parallel, and the results are collected into a vector in
/// index order (rayon documents that collecting an indexed parallel
/// iterator preserves that order). Each position writes only its own slot.
#[verifier::external_body]
fn par_lcp_values(text: &[u8], sa: &[usize], rank: &Vec<usize>) -> (r: Vec<usize>)
    requires
        sa@.len() == text@.len(),
        rank@.len() == sa@.len(),
        sa@.len() >= 1,
        in_bounds(sa@, sa@.len() as nat),
        forall|t: int| 0 <= t < sa@.len() ==> (#[trigger] rank@[sa@[t] as int]) as int == t,
    ensures
        r@.len() == sa@.len() - 1,
        forall|k: int|
            0 <= k < r@.len() ==> (#[trigger] r@[k]) as nat == lcp_of(
                text@,
                sa@[k + 1] as int,
                sa@[k] as int,
            ),
{
    (1..sa.len()).into_par_iter().map(|k| lcp_at_position(text, sa, rank, k)).collect()
}

/// Build the LCP array of `text` for the suffix order listed by `sa`, with
/// every position computed independently and in parallel. `sa` must hold
/// each suffix start position exactly once, as the suffix array builder
/// leaves it.
pub fn lcp_array_parallel(sa: &[usize], a: &[u8]) -> (lcp: Vec<usize>)
    requires
        sa@.len() == a@.len(),
        is_permutation(sa@, a@.len()),
    ensures
        is_lcp_array(a@, sa@, lcp@),
{
    let n = sa.len();
    if n == 0 {
        let lcp: Vec<usize> = Vec::new();
        return lcp;
    }
    proof {
        lemma_permutation_facts(sa@, a@.len());
    }
    let rank = build_rank_array(sa);
    let lcp = par_lcp_values(a, sa, &rank);
    proof {
        assert forall|k: int|
            0 <= k < lcp@.len() implies (#[trigger] lcp@[k]) as nat == lcp_of(
            a@,
            sa@[k] as int,
            sa@[k + 1] as int,
        ) by {
            lemma_lcp_sym(a@, sa@[k + 1] as int, sa@[k] as int);
        }
    }
    lcp
}

/// One position-order step of the serial scan keeps its resumption offset
/// sound for the next position: of the suffixes one byte later, the sorted
/// predecessor of the later one shares all but the first byte of what the
/// pair here shared — and when the next suffix is the sorted minimum, the
/// pair here shared at most one byte.
proof fn lemma_serial_step(s: Seq<u8>, sa: Seq<usize>, rank: Seq<usize>, i: int, h2: nat)
    requires
        sa.len() == s.len(),
        is_suffix_array(s, sa),
        in_bounds(sa, s.len()),
        rank.len() == sa.len(),
        forall|t: int| 0 <= t < sa.len() ==> (#[trigger] rank[sa[t] as int]) as int == t,
        forall|x: int|
            0 <= x < rank.len() ==> (#[trigger] rank[x]) < rank.len() && sa[rank[x] as int] as int
                == x,
        0 <= i < sa.len(),
        rank[i] > 0,
        h2 == lcp_of(s, i, sa[rank[i] - 1] as int),
        i + 1 < sa.len(),
    ensures
        rank[i + 1] > 0 ==> h2 - 1 <= lcp_of(s, i + 1, sa[rank[i + 1] - 1] as int),
        rank[i + 1] == 0 ==> h2 <= 1,
{
    if h2 >= 2 {
        let k = sa[rank[i] - 1] as int;
        // Two or more shared bytes: the first bytes agree and the suffixes
        // one position later still share at least one byte.
        assert(i < s.len() && k < s.len() && s[i] == s[k]);
        assert(lcp_of(s, i + 1, k + 1) == h2 - 1);
        assert(i + 1 < s.len() && k + 1 < s.len() && s[i + 1] == s[k + 1]);
        // The predecessor comes earlier in sorted order, and stays earlier
        // after dropping the shared first byte.
        assert(suffix_le(s, k, i)) by {
            assert(suffix_le(s, sa[rank[i] - 1] as int, sa[rank[i] as int] as int));
        }
        lemma_suffix_shift(s, k, i);
        assert(suffix_le(s, k + 1, i + 1));
        let tk = rank[k + 1] as int;
        let ti = rank[i + 1] as int;
        assert(sa[tk] as int == k + 1);
        assert(sa[ti] as int == i + 1);
        assert(k + 1 != i + 1) by {
            assert(rank[k] as int == rank[i] - 1);
        }
        assert(tk < ti) by {
            if ti <= tk {
                lemma_sorted_pairwise(s, sa, ti, tk);
                lemma_suffix_le_antisym(s, i + 1, k + 1);
            }
        }
        assert(rank[i + 1] > 0);
        let k2 = sa[ti - 1] as int;
        lemma_sorted_pairwise(s, sa, tk, ti - 1);
        assert(suffix_le(s, k + 1, k2));
        assert(suffix_le(s, k2, i + 1)) by {
            assert(suffix_le(s, sa[ti - 1] as int, sa[ti] as int));
        }
        lemma_order_lcp(s, k + 1, k2, i + 1);
        lemma_lcp_sym(s, i + 1, k + 1);
        lemma_lcp_sym(s, i + 1, k2);
        assert(h2 - 1 <= lcp_of(s, i + 1, k2));
    }
}

/// Build the LCP array of `text` for the suffix order listed by `sa` in one
/// sequential pass over the positions in text order, resuming each scan one
/// byte short of the previous match length. A reference implementation for
/// cross-checking the parallel builder; `sa` must be the suffix array of
/// the text.
pub fn lcp_array_serial(sa: &[usize], s: &[u8]) -> (lcp: Vec<usize>)
    requires
        sa@.len() == s@.len(),
        is_suffix_array(s@, sa@),
    ensures
        is_lcp_array(s@, sa@, lcp@),
{
    let n = sa.len();
    if n == 0 {
        let lcp: Vec<usize> = Vec::new();
        return lcp;
    }
    proof {
        lemma_permutation_facts(sa@, s@.len());
    }
    let rank = build_rank_array(sa);
    let mut lcp: Vec<usize> = Vec::new();
    while lcp.len() < n - 1
        invariant
            n >= 1,
            lcp@.len() <= n - 1,
        decreases n - 1 - lcp.len(),
    {
        lcp.push(0);
    }
    let mut h: usize = 0;
    let mut i: usize = 0;
    while i < n
        invariant
            n == sa@.len(),
            n == s@.len(),
            n >= 1,
            i <= n,
            rank@.len() == n,
            lcp@.len() == n - 1,
            is_suffix_array(s@, sa@),
            in_bounds(sa@, n as nat),
            forall|t: int| 0 <= t < sa@.len() ==> (#[trigger] rank@[sa@[t] as int]) as int == t,
            forall|x: int|
                0 <= x < rank@.len() ==> (#[trigger] rank@[x]) < rank@.len() && sa@[rank@[x] as int]
                    as int == x,
            forall|t: int|
                0 <= t < i && (#[trigger] rank@[t]) > 0 ==> lcp@[rank@[t] - 1] as nat == lcp_of(
                    s@,
                    t,
                    sa@[rank@[t] - 1] as int,
                ),
            i < n ==> i + h <= n,
            i < n && rank@[i as int] > 0 ==> h as nat <= lcp_of(
                s@,
                i as int,
                sa@[rank@[i as int] - 1] as int,
            ),
            i < n && rank@[i as int] == 0 ==> h == 0,
        decreases n - i,
    {
        let r = rank[i];
        if r > 0 {
            let k = sa[r - 1];
            let h2 = lcp_scan_from(s, i, k, h);
            let ghost old_lcp = lcp@;
            lcp[r - 1] = h2;
            proof {
                assert forall|t: int|
                    0 <= t < i + 1 && (#[trigger] rank@[t]) > 0 implies lcp@[rank@[t] - 1] as nat
                    == lcp_of(s@, t, sa@[rank@[t] - 1] as int) by {
                    if t < i {
                        assert(sa@[rank@[t] as int] as int == t);
                        assert(sa@[rank@[i as int] as int] as int == i as int);
                        assert(rank@[t] != rank@[i as int]);
                        assert(lcp@[rank@[t] - 1] == old_lcp[rank@[t] - 1]);
                    }
                }
            }
            h = h2;
            if h > 0 {
                h = h - 1;
            }
            proof {
                if i + 1 < n {
                    lemma_serial_step(s@, sa@, rank@, i as int, h2 as nat);
                    if rank@[i as int + 1] > 0 {
                        lemma_lcp_bounds(s@, i as int + 1, sa@[rank@[i as int + 1] - 1] as int);
                    }
                }
            }
        }
        i = i + 1;
    }
    proof {
        assert forall|t: int|
            0 <= t < lcp@.len() implies (#[trigger] lcp@[t]) as nat == lcp_of(
            s@,
            sa@[t] as int,
            sa@[t + 1] as int,
        ) by {
            let pos = sa@[t + 1] as int;
            assert(rank@[sa@[t + 1] as int] as int == t + 1);
            assert(lcp@[t] as nat == lcp_of(s@, pos, sa@[t] as int));
            lemma_lcp_sym(s@, pos, sa@[t] as int);
        }
    }
    lcp
}

} // verus!
