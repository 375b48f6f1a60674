//! The suffix array builder: a parallel multi-way merge sort over suffix
//! start positions.
//!
//! The positions `0..n` are split into contiguous chunks, one per available
//! worker (never more chunks than positions); each chunk is sorted by the
//! suffix order, in parallel; and the sorted chunks are then merged by a
//! sequential k-way merge that repeatedly takes the smallest remaining head.

use vstd::multiset::Multiset;
use vstd::prelude::*;
use rayon::slice::ParallelSliceMut;

use crate::order::{lemma_suffix_le_total, lemma_suffix_le_trans, suffix_le, suffix_order};

verus! {

use core::cmp::Ordering;

/// `s` lists suffix start positions in ascending suffix order.
pub open spec fn sorted_by_suffix(text: Seq<u8>, s: Seq<usize>) -> bool {
    forall|k: int|
        0 <= k < s.len() - 1 ==> suffix_le(text, #[trigger] s[k] as int, s[k + 1] as int)
}

/// Every entry of `s` is a position strictly below `n`.
pub open spec fn in_bounds(s: Seq<usize>, n: nat) -> bool {
    forall|k: int| 0 <= k < s.len() ==> (#[trigger] s[k] as nat) < n
}

/// The positions `0, 1, ..., n - 1` in their natural order.
pub open spec fn ids(n: nat) -> Seq<usize>
    recommends
        n <= usize::MAX,
{
    Seq::new(n, |k: int| k as usize)
}

/// `s` holds each of the positions `0..n` exactly once.
pub open spec fn is_permutation(s: Seq<usize>, n: nat) -> bool {
    s.to_multiset() == ids(n).to_multiset()
}

/// `s` is the suffix array of `text`: a permutation of all suffix start
/// positions, in ascending suffix order.
pub open spec fn is_suffix_array(text: Seq<u8>, s: Seq<usize>) -> bool {
    &&& is_permutation(s, text.len())
    &&& sorted_by_suffix(text, s)
}

/// Each position below `n` occurs exactly once in `ids(n)`, and nothing
/// else occurs at all.
pub proof fn lemma_ids_count(n: nat, v: usize)
    requires
        n <= usize::MAX,
    ensures
        ids(n).to_multiset().count(v) == if (v as nat) < n {
            1nat
        } else {
            0nat
        },
    decreases n,
{
    broadcast use vstd::seq_lib::group_to_multiset_ensures;
    broadcast use vstd::multiset::group_multiset_axioms;

    if n == 0 {
        assert(ids(0) =~= Seq::<usize>::empty());
        assert(!ids(0).contains(v));
    } else {
        lemma_ids_count((n - 1) as nat, v);
        assert(ids(n) =~= ids((n - 1) as nat).push((n - 1) as usize));
    }
}

/// What holding each of `0..n` exactly once means for the sequence itself:
/// it has length `n`, stays below `n`, repeats nothing, and reaches every
/// position below `n`.
pub proof fn lemma_permutation_facts(s: Seq<usize>, n: nat)
    requires
        n <= usize::MAX,
        is_permutation(s, n),
    ensures
        s.len() == n,
        in_bounds(s, n),
        s.no_duplicates(),
        forall|v: usize| (v as nat) < n ==> s.contains(v),
{
    broadcast use vstd::seq_lib::group_to_multiset_ensures;
    broadcast use vstd::multiset::group_multiset_axioms;

    assert(ids(n).len() == n);
    vstd::seq_lib::to_multiset_len::<usize>(s);
    vstd::seq_lib::to_multiset_len::<usize>(ids(n));
    assert(s.len() == n);
    assert forall|k: int| 0 <= k < s.len() implies ((#[trigger] s[k]) as nat) < n by {
        lemma_ids_count(n, s[k]);
        assert(s.contains(s[k]));
    }
    assert forall|x: usize| s.to_multiset().contains(x) implies s.to_multiset().count(x) == 1 by {
        lemma_ids_count(n, x);
    }
    s.lemma_multiset_has_no_duplicates_conv();
    assert forall|v: usize| (v as nat) < n implies s.contains(v) by {
        lemma_ids_count(n, v);
        assert(s.to_multiset().count(v) > 0);
    }
}

/// Adjacent order extends to any pair of positions of a sorted sequence.
pub proof fn lemma_sorted_pairwise(text: Seq<u8>, s: Seq<usize>, k1: int, k2: int)
    requires
        sorted_by_suffix(text, s),
        in_bounds(s, text.len()),
        0 <= k1 <= k2 < s.len(),
    ensures
        suffix_le(text, s[k1] as int, s[k2] as int),
    decreases k2 - k1,
{
    if k1 == k2 {
        lemma_suffix_le_total(text, s[k1] as int, s[k1] as int);
    } else {
        lemma_sorted_pairwise(text, s, k1, k2 - 1);
        lemma_suffix_le_trans(text, s[k1] as int, s[k2 - 1] as int, s[k2] as int);
    }
}

/// Two sequences with the same contents stay below the same bound.
proof fn lemma_mset_in_bounds(a: Seq<usize>, b: Seq<usize>, n: nat)
    requires
        a.to_multiset() == b.to_multiset(),
        in_bounds(a, n),
    ensures
        in_bounds(b, n),
{
    broadcast use vstd::seq_lib::group_to_multiset_ensures;

    assert forall|k: int| 0 <= k < b.len() implies ((#[trigger] b[k]) as nat) < n by {
        assert(b.contains(b[k]));
        assert(a.to_multiset().count(b[k]) > 0);
        assert(a.contains(b[k]));
        let q = choose|q: int| 0 <= q < a.len() && a[q] == b[k];
        assert((a[q] as nat) < n);
    }
}

/// Everything the chunks hold, as one multiset.
pub open spec fn total_mset(cs: Seq<Vec<usize>>) -> Multiset<usize>
    decreases cs.len(),
{
    if cs.len() == 0 {
        Multiset::empty()
    } else {
        cs[0]@.to_multiset().add(total_mset(cs.drop_first()))
    }
}

/// Everything the chunks still hold past their read cursors, as one
/// multiset.
pub open spec fn rem_mset(cs: Seq<Vec<usize>>, cur: Seq<usize>) -> Multiset<usize>
    recommends
        cur.len() == cs.len(),
    decreases cs.len(),
{
    if cs.len() == 0 {
        Multiset::empty()
    } else {
        cs[0]@.skip(cur[0] as int).to_multiset().add(rem_mset(cs.drop_first(), cur.drop_first()))
    }
}

proof fn lemma_total_mset_push(cs: Seq<Vec<usize>>, v: Vec<usize>)
    ensures
        total_mset(cs.push(v)) == total_mset(cs).add(v@.to_multiset()),
    decreases cs.len(),
{
    broadcast use vstd::multiset::group_multiset_axioms;

    if cs.len() == 0 {
        assert(cs.push(v).drop_first() =~= Seq::<Vec<usize>>::empty());
        assert(cs.push(v)[0] == v);
        assert(total_mset(Seq::<Vec<usize>>::empty()) == Multiset::<usize>::empty());
        assert(total_mset(cs.push(v)) == v@.to_multiset().add(Multiset::<usize>::empty()));
        assert(v@.to_multiset().add(Multiset::<usize>::empty()) =~= Multiset::<
            usize,
        >::empty().add(v@.to_multiset()));
    } else {
        assert(cs.push(v).drop_first() =~= cs.drop_first().push(v));
        lemma_total_mset_push(cs.drop_first(), v);
        let a = cs[0]@.to_multiset();
        assert(cs.push(v)[0] == cs[0]);
        assert(total_mset(cs.push(v)) == a.add(total_mset(cs.drop_first().push(v))));
        assert(total_mset(cs.drop_first().push(v)) == total_mset(cs.drop_first()).add(
            v@.to_multiset(),
        ));
        assert(a.add(total_mset(cs.drop_first()).add(v@.to_multiset())) =~= (a.add(
            total_mset(cs.drop_first()),
        )).add(v@.to_multiset()));
    }
}

proof fn lemma_rem_mset_zero(cs: Seq<Vec<usize>>, cur: Seq<usize>)
    requires
        cur.len() == cs.len(),
        forall|c: int| 0 <= c < cur.len() ==> cur[c] == 0,
    ensures
        rem_mset(cs, cur) == total_mset(cs),
    decreases cs.len(),
{
    if cs.len() > 0 {
        assert(cs[0]@.skip(0) =~= cs[0]@);
        assert forall|c: int| 0 <= c < cur.drop_first().len() implies cur.drop_first()[c] == 0 by {
            assert(cur.drop_first()[c] == cur[c + 1]);
        }
        lemma_rem_mset_zero(cs.drop_first(), cur.drop_first());
    }
}

proof fn lemma_rem_mset_full(cs: Seq<Vec<usize>>, cur: Seq<usize>)
    requires
        cur.len() == cs.len(),
        forall|c: int| 0 <= c < cs.len() ==> cur[c] == (#[trigger] cs[c])@.len(),
    ensures
        rem_mset(cs, cur) == Multiset::<usize>::empty(),
    decreases cs.len(),
{
    broadcast use vstd::seq_lib::group_to_multiset_ensures;
    broadcast use vstd::multiset::group_multiset_axioms;

    if cs.len() > 0 {
        assert(cs[0]@.skip(cur[0] as int) =~= Seq::<usize>::empty());
        assert(cs[0]@.skip(cur[0] as int).to_multiset().len() == 0);
        assert(cs[0]@.skip(cur[0] as int).to_multiset() =~= Multiset::<usize>::empty());
        assert forall|c: int|
            0 <= c < cs.drop_first().len() implies cur.drop_first()[c] == (#[trigger] cs.drop_first()[c])@.len() by {
            assert(cur.drop_first()[c] == cur[c + 1]);
            assert(cs.drop_first()[c] == cs[c + 1]);
        }
        lemma_rem_mset_full(cs.drop_first(), cur.drop_first());
        assert(rem_mset(cs, cur) =~= Multiset::<usize>::empty());
    }
}

/// Advancing the read cursor of chunk `c` takes exactly its head out of the
/// remaining contents.
proof fn lemma_rem_mset_advance(cs: Seq<Vec<usize>>, cur: Seq<usize>, c: int)
    requires
        cur.len() == cs.len(),
        0 <= c < cs.len(),
        forall|d: int| 0 <= d < cs.len() ==> cur[d] <= (#[trigger] cs[d])@.len(),
        cur[c] < cs[c]@.len(),
        cur[c] < usize::MAX,
    ensures
        rem_mset(cs, cur) == rem_mset(cs, cur.update(c, (cur[c] + 1) as usize)).insert(
            cs[c]@[cur[c] as int],
        ),
    decreases cs.len(),
{
    broadcast use vstd::seq_lib::group_to_multiset_ensures;
    broadcast use vstd::multiset::group_multiset_axioms;

    let cur2 = cur.update(c, (cur[c] + 1) as usize);
    if c == 0 {
        let s0 = cs[0]@;
        let c0 = cur[0] as int;
        assert(s0.skip(c0) =~= seq![s0[c0]] + s0.skip(c0 + 1));
        vstd::seq_lib::lemma_multiset_commutative(seq![s0[c0]], s0.skip(c0 + 1));
        assert(seq![s0[c0]] =~= Seq::<usize>::empty().push(s0[c0]));
        assert(Seq::<usize>::empty().to_multiset() =~= Multiset::<usize>::empty());
        assert(seq![s0[c0]].to_multiset() =~= Multiset::<usize>::empty().insert(s0[c0]));
        assert(cur2.drop_first() =~= cur.drop_first());
        assert(s0.skip(c0).to_multiset() =~= s0.skip(c0 + 1).to_multiset().insert(s0[c0]));
        let rest = rem_mset(cs.drop_first(), cur.drop_first());
        assert(rem_mset(cs, cur) == s0.skip(c0).to_multiset().add(rest));
        assert(rem_mset(cs, cur2) == s0.skip(c0 + 1).to_multiset().add(rest));
        assert(s0.skip(c0).to_multiset().add(rest) =~= (s0.skip(c0 + 1).to_multiset().add(
            rest,
        )).insert(s0[c0]));
    } else {
        assert(cur2.drop_first() =~= cur.drop_first().update(c - 1, (cur[c] + 1) as usize));
        assert forall|d: int|
            0 <= d < cs.drop_first().len() implies cur.drop_first()[d] <= (#[trigger] cs.drop_first()[d])@.len() by {
            assert(cur.drop_first()[d] == cur[d + 1]);
            assert(cs.drop_first()[d] == cs[d + 1]);
        }
        assert(cs.drop_first()[c - 1] == cs[c]);
        assert(cur.drop_first()[c - 1] == cur[c]);
        lemma_rem_mset_advance(cs.drop_first(), cur.drop_first(), c - 1);
        assert(cur2[0] == cur[0]);
        let h = cs[c]@[cur[c] as int];
        let a = cs[0]@.skip(cur[0] as int).to_multiset();
        let rest2 = rem_mset(cs.drop_first(), cur2.drop_first());
        assert(rem_mset(cs, cur) == a.add(rest2.insert(h)));
        assert(rem_mset(cs, cur2) == a.add(rest2));
        assert(a.add(rest2.insert(h)) =~= (a.add(rest2)).insert(h));
    }
}

/// Relies on num_cpus::get: the number of logical CPUs of the running
/// machine, which is always at least 1.
#[verifier::external_body]
fn available_parallelism() -> (r: usize)
    ensures
        1 <= r,
{
    num_cpus::get()
}

/// Relies on rayon's par_sort_unstable_by: a parallel, in-place, unstable
/// comparison sort. The comparator handed to it is the verified
/// `suffix_order`, whose contract makes it the total suffix order on start
/// positions, so the call leaves the same elements in the vector, arranged
/// in ascending suffix order.
#[verifier::external_body]
fn par_sort_by_suffix(text: &[u8], v: &mut Vec<usize>)
    requires
        forall|k: int| 0 <= k < old(v)@.len() ==> (#[trigger] old(v)@[k] as nat) < text@.len(),
    ensures
        final(v)@.len() == old(v)@.len(),
        final(v)@.to_multiset() == old(v)@.to_multiset(),
        sorted_by_suffix(text@, final(v)@),
{
    v.par_sort_unstable_by(|a: &usize, b: &usize| suffix_order(text, *a, *b));
}

/// Among the chunks that still hold unconsumed elements, pick one whose head
/// is smallest in the suffix order; report that none is left otherwise.
fn find_min_chunk(text: &[u8], chunks: &Vec<Vec<usize>>, cursors: &Vec<usize>) -> (r: Option<
    usize,
>)
    requires
        cursors@.len() == chunks@.len(),
        forall|d: int| 0 <= d < chunks@.len() ==> cursors@[d] <= (#[trigger] chunks@[d])@.len(),
        forall|d: int| 0 <= d < chunks@.len() ==> in_bounds((#[trigger] chunks@[d])@, text@.len()),
    ensures
        match r {
            Option::None => forall|d: int|
                0 <= d < chunks@.len() ==> cursors@[d] == (#[trigger] chunks@[d])@.len(),
            Option::Some(b) => {
                &&& (b as int) < chunks@.len()
                &&& cursors@[b as int] < chunks@[b as int]@.len()
                &&& forall|d: int|
                    0 <= d < chunks@.len() && cursors@[d] < (#[trigger] chunks@[d])@.len()
                        ==> suffix_le(
                        text@,
                        chunks@[b as int]@[cursors@[b as int] as int] as int,
                        chunks@[d]@[cursors@[d] as int] as int,
                    )
            },
        },
{
    let p = chunks.len();
    let mut best: Option<usize> = None;
    let mut c: usize = 0;
    while c < p
        invariant
            c <= p,
            p == chunks@.len(),
            cursors@.len() == chunks@.len(),
            forall|d: int| 0 <= d < chunks@.len() ==> cursors@[d] <= (#[trigger] chunks@[d])@.len(),
            forall|d: int|
                0 <= d < chunks@.len() ==> in_bounds((#[trigger] chunks@[d])@, text@.len()),
            match best {
                Option::None => forall|d: int|
                    0 <= d < c ==> cursors@[d] == (#[trigger] chunks@[d])@.len(),
                Option::Some(b) => {
                    &&& (b as int) < c
                    &&& cursors@[b as int] < chunks@[b as int]@.len()
                    &&& forall|d: int|
                        0 <= d < c && cursors@[d] < (#[trigger] chunks@[d])@.len() ==> suffix_le(
                            text@,
                            chunks@[b as int]@[cursors@[b as int] as int] as int,
                            chunks@[d]@[cursors@[d] as int] as int,
                        )
                },
            },
        decreases p - c,
    {
        if cursors[c] < chunks[c].len() {
            let head_c = chunks[c][cursors[c]];
            match best {
                Option::None => {
                    proof {
                        lemma_suffix_le_total(text@, head_c as int, head_c as int);
                    }
                    best = Some(c);
                },
                Option::Some(b) => {
                    let head_b = chunks[b][cursors[b]];
                    let ghost hb = head_b as int;
                    let ghost hc = head_c as int;
                    match suffix_order(text, head_c, head_b) {
                        Ordering::Less => {
                            proof {
                                assert(suffix_le(text@, hc, hb));
                                assert forall|d: int|
                                    0 <= d < c + 1 && cursors@[d] < (
                                    #[trigger] chunks@[d])@.len() implies suffix_le(
                                    text@,
                                    hc,
                                    chunks@[d]@[cursors@[d] as int] as int,
                                ) by {
                                    if d < c {
                                        lemma_suffix_le_trans(
                                            text@,
                                            hc,
                                            hb,
                                            chunks@[d]@[cursors@[d] as int] as int,
                                        );
                                    } else {
                                        lemma_suffix_le_total(text@, hc, hc);
                                    }
                                }
                            }
                            best = Some(c);
                        },
                        _ => {
                            proof {
                                lemma_suffix_le_total(text@, hc, hb);
                                assert(suffix_le(text@, hb, hc));
                            }
                        },
                    }
                },
            }
        } else {
            proof {
                assert(cursors@[c as int] == chunks@[c as int]@.len());
            }
        }
        c = c + 1;
    }
    best
}

/// Sequential k-way merge of sorted chunks: repeatedly take the smallest
/// remaining head, in the suffix order, and append its position.
fn merge_sorted_chunks(text: &[u8], chunks: &Vec<Vec<usize>>) -> (out: Vec<usize>)
    requires
        forall|d: int| 0 <= d < chunks@.len() ==> sorted_by_suffix(text@, (#[trigger] chunks@[d])@),
        forall|d: int| 0 <= d < chunks@.len() ==> in_bounds((#[trigger] chunks@[d])@, text@.len()),
    ensures
        out@.to_multiset() == total_mset(chunks@),
        sorted_by_suffix(text@, out@),
        in_bounds(out@, text@.len()),
{
    let p = chunks.len();
    let mut cursors: Vec<usize> = Vec::new();
    let mut d: usize = 0;
    while d < p
        invariant
            d <= p,
            cursors@.len() == d,
            forall|q: int| 0 <= q < d ==> cursors@[q] == 0,
        decreases p - d,
    {
        cursors.push(0);
        d = d + 1;
    }
    let mut out: Vec<usize> = Vec::new();
    proof {
        broadcast use vstd::seq_lib::group_to_multiset_ensures;
        broadcast use vstd::multiset::group_multiset_axioms;

        lemma_rem_mset_zero(chunks@, cursors@);
        assert(out@ =~= Seq::<usize>::empty());
        assert(out@.to_multiset().len() == 0);
        assert(out@.to_multiset() =~= Multiset::<usize>::empty());
        assert(out@.to_multiset().add(rem_mset(chunks@, cursors@)) =~= rem_mset(
            chunks@,
            cursors@,
        ));
    }
    loop
        invariant
            p == chunks@.len(),
            cursors@.len() == p,
            forall|q: int| 0 <= q < chunks@.len() ==> cursors@[q] <= (#[trigger] chunks@[q])@.len(),
            forall|q: int|
                0 <= q < chunks@.len() ==> sorted_by_suffix(text@, (#[trigger] chunks@[q])@),
            forall|q: int|
                0 <= q < chunks@.len() ==> in_bounds((#[trigger] chunks@[q])@, text@.len()),
            sorted_by_suffix(text@, out@),
            in_bounds(out@, text@.len()),
            out@.to_multiset().add(rem_mset(chunks@, cursors@)) == total_mset(chunks@),
            forall|q: int, t: int|
                #![trigger chunks@[q]@[t]]
                0 <= q < chunks@.len() && cursors@[q] <= t < chunks@[q]@.len() && out@.len() > 0
                    ==> suffix_le(text@, out@[out@.len() - 1] as int, chunks@[q]@[t] as int),
        ensures
            forall|q: int| 0 <= q < chunks@.len() ==> cursors@[q] == (#[trigger] chunks@[q])@.len(),
            sorted_by_suffix(text@, out@),
            in_bounds(out@, text@.len()),
            out@.to_multiset().add(rem_mset(chunks@, cursors@)) == total_mset(chunks@),
        decreases rem_mset(chunks@, cursors@).len(),
    {
        match find_min_chunk(text, chunks, &cursors) {
            Option::None => {
                break ;
            },
            Option::Some(b) => {
                let cb = cursors[b];
                let blen = chunks[b].len();
                let h = chunks[b][cb];
                let ghost old_out = out@;
                let ghost old_cur = cursors@;
                proof {
                    broadcast use vstd::multiset::group_multiset_axioms;

                    assert(cb < blen);
                    lemma_rem_mset_advance(chunks@, cursors@, b as int);
                }
                out.push(h);
                let next = cb + 1;
                cursors[b] = next;
                proof {
                    broadcast use vstd::seq_lib::group_to_multiset_ensures;
                    broadcast use vstd::multiset::group_multiset_axioms;

                    assert(cursors@ =~= old_cur.update(b as int, next));
                    assert(out@ =~= old_out.push(h));
                    // The same elements remain, one head having moved from
                    // the chunks to the output.
                    assert(out@.to_multiset() =~= old_out.to_multiset().insert(h));
                    assert(rem_mset(chunks@, old_cur) == rem_mset(chunks@, cursors@).insert(h));
                    assert(out@.to_multiset().add(rem_mset(chunks@, cursors@))
                        =~= old_out.to_multiset().add(rem_mset(chunks@, old_cur)));
                    // The appended head follows everything already emitted.
                    assert forall|k: int| 0 <= k < out@.len() - 1 implies suffix_le(
                        text@,
                        #[trigger] out@[k] as int,
                        out@[k + 1] as int,
                    ) by {
                        if k == out@.len() - 2 && old_out.len() > 0 {
                            assert(suffix_le(text@, old_out[old_out.len() - 1] as int, h as int));
                        }
                    }
                    // And it precedes everything still unconsumed.
                    assert forall|q: int, t: int|
                        #![trigger chunks@[q]@[t]]
                        0 <= q < chunks@.len() && cursors@[q] <= t < chunks@[q]@.len() implies
                        suffix_le(text@, h as int, chunks@[q]@[t] as int) by {
                        lemma_sorted_pairwise(
                            text@,
                            chunks@[q]@,
                            old_cur[q] as int,
                            t,
                        );
                        lemma_suffix_le_trans(
                            text@,
                            h as int,
                            chunks@[q]@[old_cur[q] as int] as int,
                            chunks@[q]@[t] as int,
                        );
                    }
                }
            },
        }
    }
    proof {
        broadcast use vstd::multiset::group_multiset_axioms;

        lemma_rem_mset_full(chunks@, cursors@);
        assert(out@.to_multiset() =~= total_mset(chunks@));
    }
    out
}

/// Build the suffix array of `text`: the permutation of all suffix start
/// positions, ordered lexicographically by the suffix beginning there.
/// Construction is total: any finite byte sequence is accepted.
pub fn construct_suffix_array_parallel(text: &[u8]) -> (sa: Vec<usize>)
    ensures
        is_suffix_array(text@, sa@),
{
    broadcast use vstd::seq_lib::group_to_multiset_ensures;
    broadcast use vstd::multiset::group_multiset_axioms;

    let n = text.len();
    if n == 0 {
        let sa: Vec<usize> = Vec::new();
        proof {
            assert(ids(0) =~= Seq::<usize>::empty());
            assert(sa@.to_multiset() =~= ids(0).to_multiset());
        }
        return sa;
    }
    let workers = available_parallelism();
    let p = if workers < n {
        workers
    } else {
        n
    };
    let mut chunks: Vec<Vec<usize>> = Vec::new();
    let mut start: usize = 0;
    let mut c: usize = 0;
    while c < p
        invariant
            1 <= p <= n,
            n == text@.len(),
            c <= p,
            start <= n,
            chunks@.len() == c,
            c < p ==> p - c <= n - start,
            c == p ==> start == n,
            total_mset(chunks@) == ids(start as nat).to_multiset(),
            forall|d: int| 0 <= d < chunks@.len() ==> sorted_by_suffix(text@, (#[trigger] chunks@[d])@),
            forall|d: int| 0 <= d < chunks@.len() ==> in_bounds((#[trigger] chunks@[d])@, text@.len()),
        decreases p - c,
    {
        let r = p - c;
        let m = n - start;
        let size = m / r;
        proof {
            let mi = m as int;
            let ri = r as int;
            let q = mi / ri;
            let s = mi % ri;
            vstd::arithmetic::div_mod::lemma_fundamental_div_mod(mi, ri);
            vstd::arithmetic::div_mod::lemma_mod_bound(mi, ri);
            assert(mi == ri * q + s);
            assert(size == q);
            assert(q >= 1) by {
                if q <= 0 {
                    assert(ri * q <= 0) by (nonlinear_arith)
                        requires
                            ri >= 1,
                            q <= 0,
                    ;
                    assert(mi <= s);
                }
            }
            assert(size <= m) by {
                assert(ri * q >= q) by (nonlinear_arith)
                    requires
                        ri >= 1,
                        q >= 0,
                ;
            }
            if r > 1 {
                assert(m - size >= r - 1) by {
                    assert(ri * q - q == (ri - 1) * q) by (nonlinear_arith);
                    assert((ri - 1) * q >= ri - 1) by (nonlinear_arith)
                        requires
                            q >= 1,
                            ri >= 2,
                    ;
                }
            } else {
                assert(s == 0);
                assert(ri * q == q) by (nonlinear_arith)
                    requires
                        ri == 1,
                ;
                assert(size == m);
            }
        }
        let mut ch: Vec<usize> = Vec::new();
        let mut t: usize = 0;
        while t < size
            invariant
                t <= size,
                start + size <= n,
                n <= usize::MAX,
                ch@.len() == t,
                forall|q: int| 0 <= q < t ==> (#[trigger] ch@[q]) as int == start + q,
            decreases size - t,
        {
            ch.push(start + t);
            t = t + 1;
        }
        let ghost seg = ch@;
        proof {
            assert forall|k: int| 0 <= k < ch@.len() implies ((#[trigger] ch@[k]) as nat)
                < text@.len() by {}
        }
        par_sort_by_suffix(text, &mut ch);
        proof {
            lemma_total_mset_push(chunks@, ch);
            assert(ids((start + size) as nat) =~= ids(start as nat) + seg);
            vstd::seq_lib::lemma_multiset_commutative(ids(start as nat), seg);
            lemma_mset_in_bounds(seg, ch@, text@.len());
        }
        chunks.push(ch);
        start = start + size;
        c = c + 1;
    }
    let sa = merge_sorted_chunks(text, &chunks);
    sa
}

} // verus!
