//! Analogy substitution: the per-token decision of keeping a token,
//! replacing it through the substitution map, or replacing it with an
//! analogy-derived neighbour.
//!
//! The caller computes, for each eligible map pair `(a, b)`, the ranked
//! neighbours of the analogy vector `token - a + b`; every decision over
//! those rankings — map lookup first, then the pairs in map order, within a
//! ranking the first acceptable word at or above the similarity threshold —
//! is made and verified here.

use vstd::prelude::*;
use crate::model::Model;
use crate::calc::spec_index_of;
use crate::score::score_key;
use crate::score::score_le;
use crate::score::SIM_THRESHOLD_BITS;
use crate::text::string_eq;
use crate::text::is_space_char;
use crate::text::chars_to_string;
use crate::text::str_to_chars;
use crate::text::suffix;

verus! {

/// The substitution map: `(source, target)` pairs with pairwise distinct
/// sources, iterated in insertion order.
pub struct Substitutions {
    pub pairs: Vec<(String, String)>,
}

impl Substitutions {
    /// No source word occurs twice.
    pub open spec fn wf(self) -> bool {
        forall|i: int, j: int|
            0 <= i < j < self.pairs@.len() ==> (#[trigger] self.pairs@[i]).0@ != (
            #[trigger] self.pairs@[j]).0@
    }

    /// Whether `w` is a source word of the map.
    pub open spec fn has_key(self, w: Seq<char>) -> bool {
        exists|i: int| 0 <= i < self.pairs@.len() && (#[trigger] self.pairs@[i]).0@ == w
    }

    pub fn new() -> (r: Substitutions)
        ensures
            r.wf(),
            r.pairs@.len() == 0,
    {
        Substitutions { pairs: Vec::new() }
    }

    /// Adds a pair; a repeated source keeps its position and takes the new
    /// target.
    pub fn insert(&mut self, k: String, v: String)
        requires
            old(self).wf(),
        ensures
            final(self).wf(),
            final(self).has_key(k@),
            !old(self).has_key(k@) ==> final(self).pairs@ == old(self).pairs@.push((k, v)),
            old(self).has_key(k@) ==> (exists|i: int|
                0 <= i < old(self).pairs@.len() && (#[trigger] old(self).pairs@[i]).0@ == k@
                    && final(self).pairs@ == old(self).pairs@.update(i, (k, v))),
    {
        let n = self.pairs.len();
        let mut i: usize = 0;
        while i < n
            invariant
                i <= n,
                n == self.pairs@.len(),
                self == old(self),
                old(self).wf(),
                forall|j: int| 0 <= j < i ==> (#[trigger] self.pairs@[j]).0@ != k@,
            decreases n - i,
        {
            if string_eq(&self.pairs[i].0, &k) {
                proof {
                    assert(old(self).pairs@[i as int].0@ == k@);
                }
                self.pairs[i] = (k, v);
                proof {
                    assert(self.pairs@ =~= old(self).pairs@.update(i as int, (k, v)));
                    assert forall|a: int, b: int|
                        0 <= a < b < self.pairs@.len() implies (#[trigger] self.pairs@[a]).0@ != (
                    #[trigger] self.pairs@[b]).0@ by {
                        if a != i as int && b != i as int {
                            assert(self.pairs@[a] == old(self).pairs@[a]);
                            assert(self.pairs@[b] == old(self).pairs@[b]);
                        } else if a == i as int {
                            assert(self.pairs@[a].0@ == old(self).pairs@[a].0@);
                        } else {
                            assert(self.pairs@[b].0@ == old(self).pairs@[b].0@);
                        }
                    }
                    assert(self.pairs@[i as int].0@ == k@);
                }
                return ;
            }
            i = i + 1;
        }
        self.pairs.push((k, v));
        proof {
            assert(final(self).pairs@[n as int].0@ == k@);
        }
    }

    /// The target for `w`, when `w` is a source word of the map.
    pub fn lookup(&self, w: &String) -> (r: Option<String>)
        ensures
            match r {
                Some(v) => exists|i: int|
                    0 <= i < self.pairs@.len() && (#[trigger] self.pairs@[i]).0@ == w@
                        && self.pairs@[i].1@ == v@,
                None => !self.has_key(w@),
            },
    {
        let n = self.pairs.len();
        let mut i: usize = 0;
        while i < n
            invariant
                i <= n,
                n == self.pairs@.len(),
                forall|j: int| 0 <= j < i ==> (#[trigger] self.pairs@[j]).0@ != w@,
            decreases n - i,
        {
            if string_eq(&self.pairs[i].0, w) {
                return Some(self.pairs[i].1.clone());
            }
            i = i + 1;
        }
        None
    }
}

/// The store positions of the map pairs whose two words are both in the
/// store, in map order.
pub open spec fn spec_eligible(pairs: Seq<(String, String)>, m: Model) -> Seq<(int, int)>
    decreases pairs.len(),
{
    if pairs.len() == 0 {
        Seq::empty()
    } else {
        let rest = spec_eligible(pairs.drop_first(), m);
        if m.has_word(pairs[0].0@) && m.has_word(pairs[0].1@) {
            seq![(spec_index_of(m, pairs[0].0@), spec_index_of(m, pairs[0].1@))] + rest
        } else {
            rest
        }
    }
}

/// The mathematical view of a vector of store position pairs.
pub open spec fn pair_view(v: Seq<(usize, usize)>) -> Seq<(int, int)> {
    v.map_values(|p: (usize, usize)| (p.0 as int, p.1 as int))
}

/// The map pairs whose two words the store has, as store positions, in map
/// order — the analogy pairs tried for every token.
pub fn eligible_pairs(subs: &Substitutions, model: &Model) -> (r: Vec<(usize, usize)>)
    requires
        model.wf(),
    ensures
        pair_view(r@) == spec_eligible(subs.pairs@, *model),
        forall|p: int|
            0 <= p < r@.len() ==> (#[trigger] r@[p]).0 < model.words@.len() && r@[p].1
                < model.words@.len(),
{
    let n = subs.pairs.len();
    let mut out: Vec<(usize, usize)> = Vec::new();
    let mut p: usize = 0;
    proof {
        assert(subs.pairs@.skip(0) =~= subs.pairs@);
        assert(pair_view(out@) + spec_eligible(subs.pairs@.skip(0), *model) =~= spec_eligible(
            subs.pairs@,
            *model,
        ));
    }
    while p < n
        invariant
            p <= n,
            n == subs.pairs@.len(),
            model.wf(),
            spec_eligible(subs.pairs@, *model) == pair_view(out@) + spec_eligible(
                subs.pairs@.skip(p as int),
                *model,
            ),
            forall|q: int|
                0 <= q < out@.len() ==> (#[trigger] out@[q]).0 < model.words@.len() && out@[q].1
                    < model.words@.len(),
        decreases n - p,
    {
        let ghost pre = out@;
        proof {
            assert(subs.pairs@.skip(p as int)[0] == subs.pairs@[p as int]);
            assert(subs.pairs@.skip(p as int).drop_first() =~= subs.pairs@.skip(p + 1));
        }
        let a = &subs.pairs[p].0;
        let b = &subs.pairs[p].1;
        match (model.index_of(a), model.index_of(b)) {
            (Some(ia), Some(ib)) => {
                out.push((ia, ib));
                proof {
                    let m = *model;
                    let ca = spec_index_of(m, subs.pairs@[p as int].0@);
                    let cb = spec_index_of(m, subs.pairs@[p as int].1@);
                    assert(0 <= ca < m.words@.len() && m.words@[ca]@ == subs.pairs@[p as int].0@);
                    assert(0 <= cb < m.words@.len() && m.words@[cb]@ == subs.pairs@[p as int].1@);
                    assert(ca == ia as int && cb == ib as int);
                    assert(pair_view(out@) =~= pair_view(pre).push((ia as int, ib as int)));
                    assert(pair_view(pre) + (seq![(ca, cb)] + spec_eligible(
                        subs.pairs@.skip(p + 1),
                        m,
                    )) =~= pair_view(out@) + spec_eligible(subs.pairs@.skip(p + 1), m));
                }
            },
            (Some(_), None) => {},
            (None, Some(_)) => {},
            (None, None) => {},
        }
        p = p + 1;
    }
    proof {
        assert(subs.pairs@.skip(n as int).len() == 0);
        assert(pair_view(out@) + spec_eligible(subs.pairs@.skip(n as int), *model) =~= pair_view(
            out@,
        ));
    }
    out
}

/// The mathematical view of one ranked neighbour list.
pub open spec fn entries_view(v: Seq<(u64, String)>) -> Seq<(u64, Seq<char>)> {
    v.map_values(|e: (u64, String)| (e.0, e.1@))
}

/// The mathematical view of the ranked neighbour lists, one per pair.
pub open spec fn ranked_view(v: Seq<Vec<(u64, String)>>) -> Seq<Seq<(u64, Seq<char>)>> {
    v.map_values(|l: Vec<(u64, String)>| entries_view(l@))
}

/// The first ranked word that differs from the token and from both pair
/// words and whose score reaches the acceptance threshold.
pub open spec fn spec_pick(
    entries: Seq<(u64, Seq<char>)>,
    token: Seq<char>,
    aw: Seq<char>,
    bw: Seq<char>,
) -> Option<Seq<char>>
    decreases entries.len(),
{
    if entries.len() == 0 {
        None
    } else if entries[0].1 != token && entries[0].1 != aw && entries[0].1 != bw && score_key(
        entries[0].0,
    ) >= score_key(SIM_THRESHOLD_BITS) {
        Some(entries[0].1)
    } else {
        spec_pick(entries.drop_first(), token, aw, bw)
    }
}

/// The word the analogy scan emits: the first pair whose ranking accepts a
/// word wins; when none does, the token stays.
pub open spec fn spec_scan(
    m: Model,
    pairs: Seq<(int, int)>,
    ranked: Seq<Seq<(u64, Seq<char>)>>,
    token: Seq<char>,
    p: int,
) -> Seq<char>
    decreases pairs.len() - p,
{
    if p < 0 || p >= pairs.len() || pairs.len() != ranked.len() {
        token
    } else {
        match spec_pick(ranked[p], token, m.words@[pairs[p].0]@, m.words@[pairs[p].1]@) {
            Some(w) => w,
            None => spec_scan(m, pairs, ranked, token, p + 1),
        }
    }
}

/// One token of the input line, rewritten.
///
/// The decision is exactly this: a token that is a source word of the map
/// becomes its target; otherwise a token the store lacks stays unchanged;
/// otherwise the eligible pairs are tried in map order and the first
/// ranking that accepts a word (see [`spec_pick`]) decides — if none does,
/// the token stays unchanged.  `pairs` must be the eligible pairs of
/// `subs`, and `ranked` holds one ranked neighbour list per pair, computed
/// by the caller from the analogy vector of this token and that pair.
#[verifier::loop_isolation(false)]
pub fn substitute_token(
    token: &String,
    subs: &Substitutions,
    model: &Model,
    pairs: &Vec<(usize, usize)>,
    ranked: &Vec<Vec<(u64, String)>>,
) -> (r: String)
    requires
        model.wf(),
        subs.wf(),
        pair_view(pairs@) == spec_eligible(subs.pairs@, *model),
        forall|p: int|
            0 <= p < pairs@.len() ==> (#[trigger] pairs@[p]).0 < model.words@.len() && pairs@[p].1
                < model.words@.len(),
        ranked@.len() == pairs@.len(),
    ensures
        subs.has_key(token@) ==> (exists|i: int|
            0 <= i < subs.pairs@.len() && (#[trigger] subs.pairs@[i]).0@ == token@ && r@
                == subs.pairs@[i].1@),
        !subs.has_key(token@) && model.has_word(token@) ==> r@ == spec_scan(
            *model,
            pair_view(pairs@),
            ranked_view(ranked@),
            token@,
            0,
        ),
        !subs.has_key(token@) && !model.has_word(token@) ==> r@ == token@,
{
    match subs.lookup(token) {
        Some(v) => v,
        None => {
            if model.contains(token) {
                let ghost m = *model;
                let ghost pv = pair_view(pairs@);
                let ghost rv = ranked_view(ranked@);
                let np = pairs.len();
                let mut p: usize = 0;
                while p < np
                    invariant
                        p <= np,
                        np == pairs@.len(),
                        ranked@.len() == pairs@.len(),
                        model.wf(),
                        m == *model,
                        pv == pair_view(pairs@),
                        rv == ranked_view(ranked@),
                        forall|q: int|
                            0 <= q < pairs@.len() ==> (#[trigger] pairs@[q]).0
                                < model.words@.len() && pairs@[q].1 < model.words@.len(),
                        spec_scan(m, pv, rv, token@, 0) == spec_scan(m, pv, rv, token@, p as int),
                    decreases np - p,
                {
                    let ia = pairs[p].0;
                    let ib = pairs[p].1;
                    let aw = &model.words[ia];
                    let bw = &model.words[ib];
                    let entries = &ranked[p];
                    let ne = entries.len();
                    let mut q: usize = 0;
                    proof {
                        assert(pv[p as int] == (ia as int, ib as int));
                        assert(rv[p as int] == entries_view(entries@));
                        assert(entries_view(entries@).skip(0) =~= entries_view(entries@));
                    }
                    while q < ne
                        invariant
                            q <= ne,
                            ne == entries@.len(),
                            entries == ranked@[p as int],
                            spec_pick(entries_view(entries@), token@, aw@, bw@) == spec_pick(
                                entries_view(entries@).skip(q as int),
                                token@,
                                aw@,
                                bw@,
                            ),
                        decreases ne - q,
                    {
                        proof {
                            assert(entries_view(entries@)[q as int] == (
                                entries@[q as int].0,
                                entries@[q as int].1@,
                            ));
                            assert(entries_view(entries@).skip(q as int)[0] == entries_view(
                                entries@,
                            )[q as int]);
                            assert(entries_view(entries@).skip(q as int).drop_first()
                                =~= entries_view(entries@).skip(q + 1));
                        }
                        let cand = &entries[q].1;
                        let sc = entries[q].0;
                        if !string_eq(cand, token) && !string_eq(cand, aw) && !string_eq(cand, bw)
                            && score_le(SIM_THRESHOLD_BITS, sc) {
                            proof {
                                assert(spec_pick(
                                    entries_view(entries@).skip(q as int),
                                    token@,
                                    aw@,
                                    bw@,
                                ) == Some(cand@));
                                assert(spec_scan(m, pv, rv, token@, p as int) == cand@);
                            }
                            return cand.clone();
                        }
                        q = q + 1;
                    }
                    proof {
                        assert(entries_view(entries@).skip(ne as int).len() == 0);
                        assert(spec_pick(entries_view(entries@), token@, aw@, bw@) is None);
                        assert(spec_scan(m, pv, rv, token@, p as int) == spec_scan(
                            m,
                            pv,
                            rv,
                            token@,
                            p + 1,
                        ));
                    }
                    p = p + 1;
                }
                proof {
                    assert(spec_scan(m, pv, rv, token@, np as int) == token@);
                }
                token.clone()
            } else {
                token.clone()
            }
        },
    }
}


// ---------------------------------------------------------------------------
// Whole lines: splitting on whitespace and joining with single spaces.
// ---------------------------------------------------------------------------

/// Splits off the longest prefix without whitespace.
pub open spec fn take_tok(s: Seq<char>) -> (Seq<char>, Seq<char>)
    decreases s.len(),
{
    if s.len() > 0 && !is_space_char(s[0]) {
        let (t, r) = take_tok(s.drop_first());
        (seq![s[0]] + t, r)
    } else {
        (Seq::empty(), s)
    }
}

proof fn lemma_take_tok_len(s: Seq<char>)
    ensures
        take_tok(s).0.len() + take_tok(s).1.len() == s.len(),
    decreases s.len(),
{
    if s.len() > 0 && !is_space_char(s[0]) {
        lemma_take_tok_len(s.drop_first());
    }
}

/// The tokens of a line, split at each whitespace character; consecutive
/// separators yield empty tokens, so that joining with single spaces
/// restores the shape of the line.
pub open spec fn spec_split(s: Seq<char>) -> Seq<Seq<char>>
    decreases s.len(),
    via spec_split_decreases
{
    let (t, r) = take_tok(s);
    if r.len() == 0 {
        seq![t]
    } else {
        seq![t] + spec_split(r.drop_first())
    }
}

#[via_fn]
proof fn spec_split_decreases(s: Seq<char>) {
    lemma_take_tok_len(s);
}

/// The tokens joined with one space between each two.
pub open spec fn spec_join(ws: Seq<Seq<char>>) -> Seq<char>
    decreases ws.len(),
{
    if ws.len() == 0 {
        Seq::empty()
    } else if ws.len() == 1 {
        ws[0]
    } else {
        ws[0] + seq![' '] + spec_join(ws.drop_first())
    }
}

proof fn lemma_join_push(ws: Seq<Seq<char>>, x: Seq<char>)
    ensures
        spec_join(ws.push(x)) == (if ws.len() == 0 {
            x
        } else {
            spec_join(ws) + seq![' '] + x
        }),
    decreases ws.len(),
{
    if ws.len() == 0 {
        assert(ws.push(x)[0] == x);
    } else if ws.len() == 1 {
        assert(ws.push(x)[0] == ws[0]);
        assert(ws.push(x).drop_first() =~= seq![x]);
        assert(spec_join(seq![x]) == x);
    } else {
        assert(ws.push(x)[0] == ws[0]);
        assert(ws.push(x).drop_first() =~= ws.drop_first().push(x));
        lemma_join_push(ws.drop_first(), x);
    }
}

fn scan_tok(s: &Vec<char>, i: usize) -> (j: usize)
    requires
        i <= s@.len(),
    ensures
        i <= j <= s@.len(),
        take_tok(suffix(s@, i as int)).0 == s@.subrange(i as int, j as int),
        take_tok(suffix(s@, i as int)).1 == suffix(s@, j as int),
{
    let n = s.len();
    let mut j = i;
    while j < n && !crate::text::is_space(s[j])
        invariant
            i <= j <= n,
            n == s@.len(),
            take_tok(suffix(s@, i as int)).0 =~= s@.subrange(i as int, j as int) + take_tok(
                suffix(s@, j as int),
            ).0,
            take_tok(suffix(s@, i as int)).1 == take_tok(suffix(s@, j as int)).1,
        decreases n - j,
    {
        proof {
            assert(suffix(s@, j as int).drop_first() =~= suffix(s@, j + 1));
            assert(s@.subrange(i as int, j as int) + seq![s@[j as int]] =~= s@.subrange(
                i as int,
                j + 1,
            ));
            assert(seq![s@[j as int]] + take_tok(suffix(s@, j + 1)).0 =~= seq![suffix(
                s@,
                j as int,
            )[0]] + take_tok(suffix(s@, j as int).drop_first()).0);
        }
        j = j + 1;
        proof {
            assert(take_tok(suffix(s@, i as int)).0 =~= s@.subrange(i as int, j as int)
                + take_tok(suffix(s@, j as int)).0);
        }
    }
    proof {
        assert(take_tok(suffix(s@, j as int)).0 =~= Seq::<char>::empty());
        assert(take_tok(suffix(s@, i as int)).0 =~= s@.subrange(i as int, j as int));
    }
    j
}

fn collect_tok(s: &Vec<char>, a: usize, b: usize) -> (r: String)
    requires
        a <= b <= s@.len(),
    ensures
        r@ == s@.subrange(a as int, b as int),
{
    let mut cs: Vec<char> = Vec::new();
    proof {
        assert(cs@ =~= s@.subrange(a as int, a as int));
    }
    let mut k = a;
    while k < b
        invariant
            a <= k <= b <= s@.len(),
            cs@ == s@.subrange(a as int, k as int),
        decreases b - k,
    {
        cs.push(s[k]);
        k = k + 1;
        proof {
            assert(cs@ =~= s@.subrange(a as int, k as int));
        }
    }
    chars_to_string(&cs)
}

/// The line's whitespace-separated tokens, in order, empty tokens kept.
#[verifier::loop_isolation(false)]
pub fn split_words(line: &String) -> (r: Vec<String>)
    ensures
        r.deep_view() == spec_split(line@),
{
    let cs = str_to_chars(line.as_str());
    let n = cs.len();
    let mut out: Vec<String> = Vec::new();
    let mut i: usize = 0;
    let mut done = false;
    proof {
        assert(suffix(cs@, 0) =~= cs@);
        assert(out.deep_view() + spec_split(suffix(cs@, 0)) =~= spec_split(cs@));
    }
    while !done
        invariant
            i <= n,
            n == cs@.len(),
            !done ==> spec_split(cs@) == out.deep_view() + spec_split(suffix(cs@, i as int)),
            done ==> spec_split(cs@) == out.deep_view(),
        decreases (n - i) + (if done {
            0int
        } else {
            1int
        }),
    {
        let ghost pre = out.deep_view();
        let j = scan_tok(&cs, i);
        let t = collect_tok(&cs, i, j);
        out.push(t);
        proof {
            assert(out.deep_view() =~= pre.push(s_subrange_view(cs@, i as int, j as int)));
        }
        if j < n {
            proof {
                assert(suffix(cs@, j as int).drop_first() =~= suffix(cs@, j + 1));
                assert(spec_split(suffix(cs@, i as int)) == seq![
                    s_subrange_view(cs@, i as int, j as int),
                ] + spec_split(suffix(cs@, j + 1)));
                assert(out.deep_view() + spec_split(suffix(cs@, j + 1)) =~= spec_split(cs@));
            }
            i = j + 1;
        } else {
            proof {
                assert(suffix(cs@, j as int).len() == 0);
                assert(spec_split(suffix(cs@, i as int)) == seq![
                    s_subrange_view(cs@, i as int, j as int),
                ]);
                assert(out.deep_view() =~= spec_split(cs@));
            }
            i = j;
            done = true;
        }
    }
    out
}

/// A subrange, under a name the triggers can hold on to.
pub open spec fn s_subrange_view(s: Seq<char>, a: int, b: int) -> Seq<char> {
    s.subrange(a, b)
}

/// Joins tokens with single spaces.
#[verifier::loop_isolation(false)]
pub fn join_words(words: &Vec<String>) -> (r: String)
    ensures
        r@ == spec_join(words.deep_view()),
{
    let n = words.len();
    let mut acc: Vec<char> = Vec::new();
    let mut p: usize = 0;
    proof {
        assert(words.deep_view().take(0) =~= Seq::<Seq<char>>::empty());
        assert(acc@ =~= spec_join(words.deep_view().take(0)));
    }
    while p < n
        invariant
            p <= n,
            n == words@.len(),
            acc@ == spec_join(words.deep_view().take(p as int)),
        decreases n - p,
    {
        let ghost pre = words.deep_view().take(p as int);
        if p > 0 {
            acc.push(' ');
        }
        let mut wc = str_to_chars(words[p].as_str());
        acc.append(&mut wc);
        proof {
            assert(words.deep_view()[p as int] == words@[p as int]@);
            lemma_join_push(pre, words.deep_view()[p as int]);
            assert(words.deep_view().take(p + 1) =~= pre.push(words.deep_view()[p as int]));
            assert(acc@ =~= spec_join(words.deep_view().take(p + 1)));
        }
        p = p + 1;
    }
    proof {
        assert(words.deep_view().take(n as int) =~= words.deep_view());
    }
    chars_to_string(&acc)
}


/// The position of a source word in the map.
pub open spec fn key_index(subs: Substitutions, w: Seq<char>) -> int {
    choose|i: int| 0 <= i < subs.pairs@.len() && (#[trigger] subs.pairs@[i]).0@ == w
}

/// The rewritten form of one token (the mathematical counterpart of
/// [`substitute_token`]).
pub open spec fn spec_subst_token(
    token: Seq<char>,
    subs: Substitutions,
    m: Model,
    pairs: Seq<(int, int)>,
    ranked: Seq<Seq<(u64, Seq<char>)>>,
) -> Seq<char> {
    if subs.has_key(token) {
        subs.pairs@[key_index(subs, token)].1@
    } else if m.has_word(token) {
        spec_scan(m, pairs, ranked, token, 0)
    } else {
        token
    }
}

/// A whole line rewritten token by token and joined with single spaces.
///
/// `pairs` must be the eligible pairs of `subs`, and `ranked` holds, for
/// each whitespace-separated token of the line in order, one ranked
/// neighbour list per pair, computed by the caller from that token's
/// analogy vectors.
#[verifier::loop_isolation(false)]
pub fn substitute_line(
    line: &String,
    subs: &Substitutions,
    model: &Model,
    pairs: &Vec<(usize, usize)>,
    ranked: &Vec<Vec<Vec<(u64, String)>>>,
) -> (r: String)
    requires
        model.wf(),
        subs.wf(),
        pair_view(pairs@) == spec_eligible(subs.pairs@, *model),
        forall|p: int|
            0 <= p < pairs@.len() ==> (#[trigger] pairs@[p]).0 < model.words@.len() && pairs@[p].1
                < model.words@.len(),
        ranked@.len() == spec_split(line@).len(),
        forall|t: int| 0 <= t < ranked@.len() ==> (#[trigger] ranked@[t])@.len() == pairs@.len(),
    ensures
        ({
            let toks = spec_split(line@);
            r@ == spec_join(
                Seq::new(
                    toks.len(),
                    |t: int|
                        spec_subst_token(
                            toks[t],
                            *subs,
                            *model,
                            pair_view(pairs@),
                            ranked_view(ranked@[t]@),
                        ),
                ),
            )
        }),
{
    let toks = split_words(line);
    let ghost tv = toks.deep_view();
    let n = toks.len();
    let mut out: Vec<String> = Vec::new();
    let mut t: usize = 0;
    while t < n
        invariant
            t <= n,
            n == toks@.len(),
            tv == toks.deep_view(),
            out@.len() == t,
            forall|q: int|
                0 <= q < t ==> (#[trigger] out@[q])@ == spec_subst_token(
                    tv[q],
                    *subs,
                    *model,
                    pair_view(pairs@),
                    ranked_view(ranked@[q]@),
                ),
        decreases n - t,
    {
        let w = substitute_token(&toks[t], subs, model, pairs, &ranked[t]);
        proof {
            let token = tv[t as int];
            assert(token == toks@[t as int]@);
            if subs.has_key(token) {
                let i = choose|i: int|
                    0 <= i < subs.pairs@.len() && (#[trigger] subs.pairs@[i]).0@ == token && w@
                        == subs.pairs@[i].1@;
                let ci = key_index(*subs, token);
                assert(0 <= ci < subs.pairs@.len() && subs.pairs@[ci].0@ == token);
                assert(i == ci);
            }
        }
        out.push(w);
        t = t + 1;
    }
    let joined = join_words(&out);
    proof {
        assert(out.deep_view() =~= Seq::new(
            tv.len(),
            |q: int|
                spec_subst_token(
                    tv[q],
                    *subs,
                    *model,
                    pair_view(pairs@),
                    ranked_view(ranked@[q]@),
                ),
        ));
    }
    joined
}

} // verus!
