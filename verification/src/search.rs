//! Similarity search: exact top-k selection and single nearest neighbour.
//!
//! Both functions take one similarity score per store entry, already
//! computed by the caller, and make every ranking decision here: ordering by
//! [`crate::score::score_key`], ties broken by store position (earlier entries
//! first), which makes rankings deterministic for identical inputs.

use vstd::prelude::*;
use crate::model::Model;
use crate::score::score_key;
use crate::score::score_lt;
use crate::score::ZERO_BITS;

verus! {

/// The mathematical view of a vector of store positions.
pub open spec fn idx_view(v: Seq<usize>) -> Seq<int> {
    v.map_values(|u: usize| u as int)
}

/// The strict ranking order: entry `i` comes before entry `j` when its
/// score is strictly higher, or on equal scores when it stands earlier in
/// the store.
pub open spec fn ranks_before(scores: Seq<u64>, i: int, j: int) -> bool {
    ||| score_key(scores[i]) > score_key(scores[j])
    ||| (score_key(scores[i]) == score_key(scores[j]) && i < j)
}

/// The ranking order is total on distinct indices ...
pub proof fn lemma_ranks_before_total(scores: Seq<u64>, i: int, j: int)
    requires
        i != j,
    ensures
        ranks_before(scores, i, j) <==> !ranks_before(scores, j, i),
{
}

/// ... and transitive.
pub proof fn lemma_ranks_before_trans(scores: Seq<u64>, a: int, b: int, c: int)
    requires
        ranks_before(scores, a, b),
        ranks_before(scores, b, c),
    ensures
        ranks_before(scores, a, c),
{
}

fn ranks_before_exec(scores: &Vec<u64>, i: usize, j: usize) -> (r: bool)
    requires
        i < scores@.len(),
        j < scores@.len(),
    ensures
        r == ranks_before(scores@, i as int, j as int),
{
    let a = scores[i];
    let b = scores[j];
    if score_lt(b, a) {
        true
    } else if score_lt(a, b) {
        false
    } else {
        i < j
    }
}

/// `idxs` is the ranking's first `min(k, n)` entries: within bounds, sorted
/// by the ranking order, and every left-out entry ranks after every chosen
/// one.  These clauses pin `idxs` down uniquely.
pub open spec fn is_top_selection(scores: Seq<u64>, k: int, idxs: Seq<int>) -> bool {
    &&& idxs.len() == vstd::math::min(k, scores.len() as int)
    &&& forall|m: int| 0 <= m < idxs.len() ==> 0 <= #[trigger] idxs[m] < scores.len()
    &&& forall|m1: int, m2: int|
        0 <= m1 < m2 < idxs.len() ==> ranks_before(scores, idxs[m1], idxs[m2])
    &&& forall|j: int, m: int|
        0 <= j < scores.len() && !(#[trigger] idxs.contains(j)) && 0 <= m < idxs.len()
            ==> ranks_before(scores, #[trigger] idxs[m], j)
}

/// Whether the ranked list holds an entry with this score and word.
pub open spec fn has_entry(r: Seq<(u64, String)>, score: u64, word: Seq<char>) -> bool {
    exists|m: int| 0 <= m < r.len() && (#[trigger] r[m]).0 == score && r[m].1@ == word
}

/// The store positions of the `min(k, n)` highest-scoring entries, highest
/// first, ties broken by store position.
pub fn top_k_indices(scores: &Vec<u64>, k: usize) -> (r: Vec<usize>)
    ensures
        is_top_selection(scores@, k as int, idx_view(r@)),
{
    let n = scores.len();
    let mut out: Vec<usize> = Vec::new();
    let mut i: usize = 0;
    while i < n
        invariant
            i <= n,
            n == scores@.len(),
            out@.len() == vstd::math::min(k as int, i as int),
            forall|m: int| 0 <= m < out@.len() ==> (#[trigger] out@[m]) < i,
            forall|m1: int, m2: int|
                0 <= m1 < m2 < out@.len() ==> ranks_before(
                    scores@,
                    out@[m1] as int,
                    out@[m2] as int,
                ),
            forall|j: int, m: int|
                0 <= j < i && !(#[trigger] idx_view(out@).contains(j)) && 0
                    <= m < out@.len() ==> ranks_before(scores@, #[trigger] out@[m] as int, j),
            out@.len() < k ==> forall|j: int|
                0 <= j < i ==> idx_view(out@).contains(j),
        decreases n - i,
    {
        let ghost prev = out@;
        let olen = out.len();
        let mut pos: usize = 0;
        while pos < olen && ranks_before_exec(scores, out[pos], i)
            invariant
                pos <= olen,
                olen == out@.len(),
                i < n,
                n == scores@.len(),
                out@ == prev,
                forall|m: int| 0 <= m < out@.len() ==> (#[trigger] out@[m]) < i,
                forall|m: int|
                    0 <= m < pos ==> ranks_before(scores@, #[trigger] out@[m] as int, i as int),
            decreases olen - pos,
        {
            pos = pos + 1;
        }
        out.insert(pos, i);
        proof {
            let s = scores@;
            let cur = out@;
            assert(cur == prev.insert(pos as int, i));
            assert forall|m1: int, m2: int| 0 <= m1 < m2 < cur.len() implies ranks_before(
                s,
                cur[m1] as int,
                cur[m2] as int,
            ) by {
                if pos < prev.len() {
                    assert(!ranks_before(s, prev[pos as int] as int, i as int));
                    lemma_ranks_before_total(s, prev[pos as int] as int, i as int);
                }
                if m1 < pos && m2 == pos {
                    assert(cur[m1] == prev[m1] && cur[m2] == i);
                } else if m1 == pos && m2 > pos {
                    assert(cur[m2] == prev[m2 - 1]);
                    if m2 - 1 > pos {
                        lemma_ranks_before_trans(
                            s,
                            i as int,
                            prev[pos as int] as int,
                            prev[m2 - 1] as int,
                        );
                    }
                } else if m1 < pos && m2 > pos {
                    assert(cur[m1] == prev[m1] && cur[m2] == prev[m2 - 1]);
                } else if m1 > pos && m2 > pos {
                    assert(cur[m1] == prev[m1 - 1] && cur[m2] == prev[m2 - 1]);
                }
            }
        }
        if out.len() > k {
            let ghost mid = out@;
            let dropped = out.pop().unwrap();
            proof {
                let s = scores@;
                let cur = out@;
                assert(mid.len() == k + 1 && prev.len() == k && pos <= k);
                assert(cur =~= mid.drop_last());
                assert(dropped == mid[mid.len() - 1]);
                let curv = idx_view(cur);
                let prevv = idx_view(prev);
                let dlast = dropped as int;
                assert(forall|p: int| 0 <= p < pos ==> mid[p] == prev[p]);
                assert(mid[pos as int] == i);
                assert(forall|p: int| pos < p < mid.len() ==> mid[p] == prev[p - 1]);
                assert forall|j: int, m: int|
                    0 <= j < i + 1 && !(#[trigger] curv.contains(j)) && 0 <= m
                        < cur.len() implies ranks_before(s, #[trigger] cur[m] as int, j) by {
                    assert(cur[m] == mid[m]);
                    if j == i {
                        // the new entry itself must have been the dropped one,
                        // so everything kept ranks before it
                        if (pos as int) < mid.len() - 1 {
                            assert(cur[pos as int] == i);
                            assert(curv[pos as int] == i as int);
                            assert(false);
                        }
                        assert(dlast == i as int);
                        assert(ranks_before(s, mid[m] as int, mid[mid.len() - 1] as int));
                    } else {
                        if j == dlast {
                            // the entry dropped just now: the kept entries
                            // rank before the last entry of the full list
                            assert(ranks_before(s, mid[m] as int, mid[mid.len() - 1] as int));
                        } else {
                            // an entry left out in an earlier round
                            assert(!prevv.contains(j)) by {
                                if prevv.contains(j) {
                                    let p = choose|p: int|
                                        0 <= p < prevv.len() && prevv[p] == j;
                                    if p < pos as int {
                                        assert(mid[p] == prev[p]);
                                        if p < mid.len() - 1 {
                                            assert(curv[p] == j);
                                        } else {
                                            assert(dlast == j);
                                        }
                                    } else {
                                        assert(mid[p + 1] == prev[p]);
                                        if p + 1 < mid.len() - 1 {
                                            assert(curv[p + 1] == j);
                                        } else {
                                            assert(dlast == j);
                                        }
                                    }
                                    assert(false);
                                }
                            }
                            if m == pos as int {
                                // the new entry ranks before the dropped one,
                                // which was an earlier entry ranking before j
                                assert(mid[m] == i);
                                assert((pos as int) < mid.len() - 1);
                                assert(ranks_before(s, i as int, mid[mid.len() - 1] as int));
                                assert(mid[mid.len() - 1] == prev[mid.len() - 2]);
                                assert(ranks_before(s, prev[mid.len() - 2] as int, j));
                                lemma_ranks_before_trans(s, i as int, dlast, j);
                            } else if m < pos as int {
                                assert(mid[m] == prev[m]);
                                assert(ranks_before(s, prev[m] as int, j));
                            } else {
                                assert(mid[m] == prev[m - 1]);
                                assert(ranks_before(s, prev[m - 1] as int, j));
                            }
                        }
                    }
                }
            }
        } else {
            proof {
                let s = scores@;
                let cur = out@;
                let curv = idx_view(cur);
                let prevv = idx_view(prev);
                assert(prev.len() < k);
                assert forall|j: int| 0 <= j < i + 1 implies curv.contains(j) by {
                    if j == i {
                        assert(cur[pos as int] == i);
                        assert(curv[pos as int] == i as int);
                    } else {
                        assert(prevv.contains(j));
                        let p = choose|p: int| 0 <= p < prevv.len() && prevv[p] == j;
                        if p < pos {
                            assert(curv[p] == j);
                        } else {
                            assert(curv[p + 1] == j);
                        }
                    }
                }
                assert forall|j: int, m: int|
                    0 <= j < i + 1 && !(#[trigger] curv.contains(j)) && 0 <= m
                        < cur.len() implies ranks_before(s, #[trigger] cur[m] as int, j) by {
                }
            }
        }
        i = i + 1;
    }
    proof {
        assert(idx_view(out@).len() == out@.len());
    }
    out
}

/// What a ranked selection guarantees: the chosen entries are sorted by
/// non-increasing score, no entry is repeated, and when `k` covers the
/// whole store the selection holds every entry exactly once.
pub proof fn lemma_top_selection_sorted(scores: Seq<u64>, k: int, idxs: Seq<int>)
    requires
        is_top_selection(scores, k, idxs),
    ensures
        forall|m1: int, m2: int|
            0 <= m1 < m2 < idxs.len() ==> score_key(scores[#[trigger] idxs[m1]]) >= score_key(
                scores[#[trigger] idxs[m2]],
            ),
        idxs.no_duplicates(),
        k >= scores.len() ==> idxs.len() == scores.len() && (forall|j: int|
            0 <= j < scores.len() ==> idxs.contains(j)),
{
    broadcast use vstd::set::group_set_axioms;

    assert forall|m1: int, m2: int| 0 <= m1 < m2 < idxs.len() implies score_key(
        scores[#[trigger] idxs[m1]],
    ) >= score_key(scores[#[trigger] idxs[m2]]) by {
        assert(ranks_before(scores, idxs[m1], idxs[m2]));
    }
    assert forall|m1: int, m2: int|
        0 <= m1 < idxs.len() && 0 <= m2 < idxs.len() && m1 != m2 implies #[trigger] idxs[m1]
        != #[trigger] idxs[m2] by {
        if m1 < m2 {
            assert(ranks_before(scores, idxs[m1], idxs[m2]));
        } else {
            assert(ranks_before(scores, idxs[m2], idxs[m1]));
        }
    }
    assert(idxs.no_duplicates());
    if k >= scores.len() {
        let n = scores.len() as int;
        assert(idxs.len() == n);
        idxs.unique_seq_to_set();
        vstd::set_lib::lemma_int_range(0, n);
        assert(idxs.to_set().subset_of(vstd::set_lib::set_int_range(0, n)));
        assert forall|j: int| 0 <= j < n implies idxs.contains(j) by {
            if !idxs.contains(j) {
                let small = vstd::set_lib::set_int_range(0, n).remove(j);
                assert(idxs.to_set().subset_of(small));
                vstd::set_lib::lemma_len_subset(idxs.to_set(), small);
                assert(small.len() == n - 1);
                assert(false);
            }
        }
    }
}

/// The `min(k, n)` highest-scoring entries as `(score, word)` pairs,
/// highest first, ties broken by store position.
pub fn top_k(model: &Model, scores: &Vec<u64>, k: usize) -> (r: Vec<(u64, String)>)
    requires
        model.wf(),
        scores@.len() == model.words@.len(),
    ensures
        exists|idxs: Seq<int>|
            #[trigger] is_top_selection(scores@, k as int, idxs) && r@.len() == idxs.len() && (
            forall|m: int|
                0 <= m < idxs.len() ==> (#[trigger] r@[m]).0 == scores@[idxs[m]] && r@[m].1@
                    == model.words@[idxs[m]]@),
        r@.len() == vstd::math::min(k as int, scores@.len() as int),
        forall|m1: int, m2: int|
            0 <= m1 < m2 < r@.len() ==> score_key((#[trigger] r@[m1]).0) >= score_key(
                (#[trigger] r@[m2]).0,
            ),
        k >= scores@.len() ==> forall|j: int|
            0 <= j < scores@.len() ==> has_entry(r@, #[trigger] scores@[j], model.words@[j]@),
{
    let idxs = top_k_indices(scores, k);
    let ghost iv = idx_view(idxs@);
    let mut r: Vec<(u64, String)> = Vec::new();
    let mut m: usize = 0;
    while m < idxs.len()
        invariant
            m <= idxs@.len(),
            scores@.len() == model.words@.len(),
            iv == idx_view(idxs@),
            is_top_selection(scores@, k as int, iv),
            r@.len() == m,
            forall|p: int|
                0 <= p < m ==> (#[trigger] r@[p]).0 == scores@[iv[p]] && r@[p].1@
                    == model.words@[iv[p]]@,
        decreases idxs@.len() - m,
    {
        proof {
            assert(iv[m as int] == idxs@[m as int] as int);
        }
        let j = idxs[m];
        r.push((scores[j], model.words[j].clone()));
        m = m + 1;
    }
    proof {
        lemma_top_selection_sorted(scores@, k as int, iv);
        assert forall|m1: int, m2: int| 0 <= m1 < m2 < r@.len() implies score_key(
            (#[trigger] r@[m1]).0,
        ) >= score_key((#[trigger] r@[m2]).0) by {
            assert(r@[m1].0 == scores@[iv[m1]] && r@[m2].0 == scores@[iv[m2]]);
        }
        if k >= scores@.len() {
            assert forall|j: int| 0 <= j < scores@.len() implies has_entry(
                r@,
                #[trigger] scores@[j],
                model.words@[j]@,
            ) by {
                assert(iv.contains(j));
                let m = choose|m: int| 0 <= m < iv.len() && iv[m] == j;
                assert(0 <= m < r@.len() && (r@[m]).0 == scores@[j] && r@[m].1@
                    == model.words@[j]@);
            }
        }
    }
    r
}

/// No entry other than `si` has a strictly positive score.
pub open spec fn no_candidate(s: Seq<u64>, si: int) -> bool {
    forall|j: int| 0 <= j < s.len() && j != si ==> score_key(#[trigger] s[j]) <= 0
}

/// Entry `m` is the winning neighbour for self-index `si`: not `si` itself,
/// strictly positive score, no other candidate scores higher, and `m` is the
/// earliest entry reaching that score.
pub open spec fn is_best_candidate(s: Seq<u64>, si: int, m: int) -> bool {
    &&& 0 <= m < s.len() && m != si
    &&& score_key(s[m]) > 0
    &&& forall|j: int| 0 <= j < s.len() && j != si ==> score_key(#[trigger] s[j]) <= score_key(s[m])
    &&& forall|j: int| 0 <= j < m && j != si ==> score_key(#[trigger] s[j]) < score_key(s[m])
}

/// The single nearest neighbour of `word`.
///
/// When `word` is not in the store it is handed back unchanged, and the
/// scores are not consulted.  Otherwise `scores` holds one score per entry
/// and the result is the earliest entry, other than `word` itself, with the
/// highest strictly positive score — or `word` again when no other entry
/// scores above zero.
pub fn nearest(model: &Model, word: &String, scores: &Option<Vec<u64>>) -> (r: String)
    requires
        model.wf(),
        model.has_word(word@) ==> (scores matches Some(sc) && sc@.len() == model.words@.len()),
    ensures
        !model.has_word(word@) ==> r@ == word@,
        model.has_word(word@) ==> (scores matches Some(sc) && exists|si: int|
            {
                &&& 0 <= si < model.words@.len()
                &&& model.words@[si]@ == word@
                &&& (no_candidate(sc@, si) && r@ == word@) || (exists|m: int|
                    #[trigger] is_best_candidate(sc@, si, m) && r@ == model.words@[m]@)
            }),
{
    match model.index_of(word) {
        None => word.clone(),
        Some(si) => {
            proof {
                assert(model.words@[si as int]@ == word@);
                assert(model.has_word(word@));
                crate::score::lemma_zero_key();
            }
            let sc: &Vec<u64> = match scores {
                Some(sc) => sc,
                None => {
                    proof {
                        assert(false);
                    }
                    vstd::pervasive::unreached()
                },
            };
            let n = sc.len();
            let mut best: Option<usize> = None;
            let mut j: usize = 0;
            while j < n
                invariant
                    j <= n,
                    n == sc@.len(),
                    n == model.words@.len(),
                    (si as int) < n,
                    best is None ==> forall|p: int|
                        0 <= p < j && p != si as int ==> score_key(#[trigger] sc@[p]) <= 0,
                    best matches Some(b) ==> {
                        &&& b < n && (b as int) != si as int && (b as int) < j
                        &&& score_key(sc@[b as int]) > 0
                        &&& forall|p: int|
                            0 <= p < j && p != si as int ==> score_key(#[trigger] sc@[p])
                                <= score_key(sc@[b as int])
                        &&& forall|p: int|
                            0 <= p < b as int && p != si as int ==> score_key(#[trigger] sc@[p])
                                < score_key(sc@[b as int])
                    },
                decreases n - j,
            {
                proof {
                    crate::score::lemma_zero_key();
                }
                if j != si {
                    let better = match best {
                        None => score_lt(ZERO_BITS, sc[j]),
                        Some(b) => score_lt(sc[b], sc[j]),
                    };
                    if better {
                        proof {
                            assert(score_key(sc@[j as int]) > 0);
                        }
                        best = Some(j);
                    }
                }
                proof {
                    match best {
                        None => {
                            assert(forall|p: int|
                                0 <= p < j + 1 && p != si as int ==> score_key(
                                    #[trigger] sc@[p],
                                ) <= 0);
                        },
                        Some(b) => {
                            assert(b < n && (b as int) != si as int && (b as int) < j + 1);
                            assert(score_key(sc@[b as int]) > 0);
                            assert(forall|p: int|
                                0 <= p < j + 1 && p != si as int ==> score_key(#[trigger] sc@[p])
                                    <= score_key(sc@[b as int]));
                            assert(forall|p: int|
                                0 <= p < b as int && p != si as int ==> score_key(
                                    #[trigger] sc@[p],
                                ) < score_key(sc@[b as int]));
                        },
                    }
                }
                j = j + 1;
            }
            let res: String = match best {
                None => word.clone(),
                Some(b) => model.words[b].clone(),
            };
            proof {
                let gsi = si as int;
                assert(0 <= gsi < model.words@.len() && model.words@[gsi]@ == word@);
                match best {
                    None => {
                        assert(no_candidate(sc@, gsi) && res@ == word@);
                    },
                    Some(b) => {
                        assert(is_best_candidate(sc@, gsi, b as int) && res@ == model.words@[
                            b as int
                        ]@);
                        assert(exists|m: int|
                            #[trigger] is_best_candidate(sc@, gsi, m) && res@ == model.words@[m]@);
                    },
                }
            }
            res
        },
    }
}

} // verus!
