//! Query execution: from an input line to a validated query plan, and the
//! annotation of ranked neighbours.
//!
//! A line is parsed with the sentinel appended; every word the query
//! mentions must be in the store, else the whole query is rejected with the
//! leftmost unknown word and nothing is produced.  The plan holds the signed
//! store indices of each side; the caller sums the entry vectors, computes
//! one similarity score per store entry, and hands the scores back for
//! ranking.

use vstd::prelude::*;
use crate::model::Model;
use crate::calc::Expression;
use crate::calc::FlatVec;
use crate::calc::eval;
use crate::calc::flat_terms;
use crate::calc::flat_words;
use crate::calc::lemma_first_missing_concat;
use crate::calc::lemma_flat_terms;
use crate::calc::parse_expr;
use crate::calc::render_query;
use crate::calc::valid_flat;
use crate::calc::parse_expr_exec;
use crate::calc::spec_first_missing;
use crate::text::suffix;
use crate::calc::terms_view;
use crate::search::is_top_selection;
use crate::search::lemma_top_selection_sorted;
use crate::search::top_k_indices;
use crate::search::idx_view;
use crate::score::score_key;
use crate::text::str_to_chars;
use crate::text::string_eq;

verus! {

/// How many neighbours a nearest-neighbour query reports.
pub const NN_COUNT: usize = 10;

/// How many neighbours an analogy ranking considers.
pub const ANALOGY_COUNT: usize = 4;

/// Rejection of a query line.
#[derive(Debug, PartialEq, Eq)]
pub enum QueryError {
    /// The line does not match the grammar.
    SyntaxError,
    /// The query mentions a word the store lacks; the leftmost one is
    /// carried.
    UnknownWord(String),
}

/// A validated query, as signed store indices.
#[derive(Debug, PartialEq, Eq)]
pub enum QueryPlan {
    /// Rank all entries against the expression's vector; `words` are the
    /// query's own words, marked in the output when they appear.
    Neighbors { terms: Vec<(bool, usize)>, words: Vec<String> },
    /// Compare the two expressions' vectors.
    Distance { left: Vec<(bool, usize)>, right: Vec<(bool, usize)> },
}

/// The line with the sentinel appended, as handed to the grammar.
pub open spec fn sentinel_input(line: Seq<char>) -> Seq<char> {
    line + seq!['.']
}

/// Whether the line is a well-formed query: the grammar consumes it whole
/// but for the sentinel.
pub open spec fn parses(line: Seq<char>) -> bool {
    parse_expr(sentinel_input(line)) matches Some(p) && p.1 == seq!['.']
}

/// The flattened parse of a well-formed line.
pub open spec fn parsed_flat(line: Seq<char>) -> (FlatVec, Option<FlatVec>) {
    parse_expr(sentinel_input(line)).unwrap().0
}

/// Every word a parsed query mentions, left to right.
pub open spec fn spec_query_words(fs: (FlatVec, Option<FlatVec>)) -> Seq<Seq<char>> {
    match fs.1 {
        None => flat_words(fs.0),
        Some(f2) => flat_words(fs.0) + flat_words(f2),
    }
}

/// Whether a plan is the faithful translation of a flattened parse.
pub open spec fn plan_matches(plan: QueryPlan, fs: (FlatVec, Option<FlatVec>), m: Model) -> bool {
    match plan {
        QueryPlan::Neighbors { terms, words } => {
            &&& fs.1 is None
            &&& terms_view(terms@) == flat_terms(fs.0, m)
            &&& words.deep_view() == flat_words(fs.0)
            &&& forall|q: int| 0 <= q < terms@.len() ==> (#[trigger] terms@[q]).1 < m.words@.len()
        },
        QueryPlan::Distance { left, right } => {
            &&& fs.1 is Some
            &&& terms_view(left@) == flat_terms(fs.0, m)
            &&& terms_view(right@) == flat_terms(fs.1.unwrap(), m)
            &&& forall|q: int| 0 <= q < left@.len() ==> (#[trigger] left@[q]).1 < m.words@.len()
            &&& forall|q: int| 0 <= q < right@.len() ==> (#[trigger] right@[q]).1 < m.words@.len()
        },
    }
}

/// Parses and validates one query line.
///
/// A line that does not match the grammar is rejected as a syntax error —
/// exactly those lines.  A well-formed line whose words are not all in the
/// store is rejected with the leftmost missing word.  Otherwise the plan
/// carries the query's signed store indices (and, for a neighbour query,
/// its words, for marking).
pub fn prepare_query(line: &str, model: &Model) -> (r: Result<QueryPlan, QueryError>)
    requires
        model.wf(),
    ensures
        (r matches Err(e) && e is SyntaxError) <==> !parses(line@),
        parses(line@) ==> (match spec_first_missing(spec_query_words(parsed_flat(line@)), *model) {
            Some(w) => r matches Err(e) && (e matches QueryError::UnknownWord(u) && u@ == w),
            None => r matches Ok(plan) && plan_matches(plan, parsed_flat(line@), *model),
        }),
{
    let mut cs = str_to_chars(line);
    cs.push('.');
    proof {
        assert(cs@ =~= sentinel_input(line@));
        assert(suffix(cs@, 0) =~= cs@);
    }
    let n = cs.len();
    proof {
        assert(n >= 1);
    }
    match parse_expr_exec(&cs, 0) {
        None => Err(QueryError::SyntaxError),
        Some((q, j)) => {
            if j != n - 1 {
                proof {
                    if parses(line@) {
                        assert(suffix(cs@, j as int).len() == 1);
                        assert(false);
                    }
                }
                Err(QueryError::SyntaxError)
            } else {
                proof {
                    assert(suffix(cs@, j as int) =~= seq!['.']);
                    assert(parses(line@));
                }
                match q {
                    Expression::NN(e) => {
                        proof {
                            lemma_flat_terms(e, *model);
                        }
                        match eval(&e, model) {
                            Err(w) => Err(QueryError::UnknownWord(w)),
                            Ok(terms) => {
                                let words = e.words();
                                Ok(QueryPlan::Neighbors { terms, words })
                            },
                        }
                    },
                    Expression::Distance(a, b) => {
                        proof {
                            lemma_flat_terms(a, *model);
                            lemma_flat_terms(b, *model);
                            lemma_first_missing_concat(
                                crate::calc::vec_expr_words(a),
                                crate::calc::vec_expr_words(b),
                                *model,
                            );
                        }
                        match eval(&a, model) {
                            Err(w) => Err(QueryError::UnknownWord(w)),
                            Ok(left) => {
                                match eval(&b, model) {
                                    Err(w) => Err(QueryError::UnknownWord(w)),
                                    Ok(right) => Ok(QueryPlan::Distance { left, right }),
                                }
                            },
                        }
                    },
                }
            }
        },
    }
}

fn contains_word(words: &Vec<String>, w: &String) -> (r: bool)
    ensures
        r == words.deep_view().contains(w@),
{
    let n = words.len();
    let mut i: usize = 0;
    while i < n
        invariant
            i <= n,
            n == words@.len(),
            forall|j: int| 0 <= j < i ==> words.deep_view()[j] != w@,
        decreases n - i,
    {
        proof {
            assert(words.deep_view()[i as int] == words@[i as int]@);
        }
        if string_eq(&words[i], w) {
            proof {
                assert(words.deep_view().contains(w@));
            }
            return true;
        }
        i = i + 1;
    }
    proof {
        assert(forall|j: int| 0 <= j < words.deep_view().len() ==> words.deep_view()[j] != w@);
    }
    false
}

/// The ranked neighbour list of a nearest-neighbour query: the top
/// [`NN_COUNT`] entries in ranking order, each carrying its score, its
/// word, and whether that word is one of the query's own words (such
/// entries are marked, not dropped).
pub fn rank_neighbors(model: &Model, scores: &Vec<u64>, query_words: &Vec<String>) -> (r: Vec<
    (u64, String, bool),
>)
    requires
        model.wf(),
        scores@.len() == model.words@.len(),
    ensures
        exists|idxs: Seq<int>|
            #[trigger] is_top_selection(scores@, NN_COUNT as int, idxs) && r@.len() == idxs.len()
                && (forall|m: int|
                0 <= m < idxs.len() ==> (#[trigger] r@[m]).0 == scores@[idxs[m]] && r@[m].1@
                    == model.words@[idxs[m]]@ && r@[m].2 == query_words.deep_view().contains(
                    model.words@[idxs[m]]@,
                )),
        r@.len() == vstd::math::min(NN_COUNT as int, scores@.len() as int),
        forall|m1: int, m2: int|
            0 <= m1 < m2 < r@.len() ==> score_key((#[trigger] r@[m1]).0) >= score_key(
                (#[trigger] r@[m2]).0,
            ),
{
    let idxs = top_k_indices(scores, NN_COUNT);
    let ghost iv = idx_view(idxs@);
    let mut r: Vec<(u64, String, bool)> = Vec::new();
    let mut m: usize = 0;
    while m < idxs.len()
        invariant
            m <= idxs@.len(),
            scores@.len() == model.words@.len(),
            iv == idx_view(idxs@),
            is_top_selection(scores@, NN_COUNT as int, iv),
            r@.len() == m,
            forall|p: int|
                0 <= p < m ==> (#[trigger] r@[p]).0 == scores@[iv[p]] && r@[p].1@
                    == model.words@[iv[p]]@ && r@[p].2 == query_words.deep_view().contains(
                    model.words@[iv[p]]@,
                ),
        decreases idxs@.len() - m,
    {
        proof {
            assert(iv[m as int] == idxs@[m as int] as int);
        }
        let j = idxs[m];
        let word = model.words[j].clone();
        let marked = contains_word(query_words, &word);
        r.push((scores[j], word, marked));
        m = m + 1;
    }
    proof {
        lemma_top_selection_sorted(scores@, NN_COUNT as int, iv);
        assert forall|m1: int, m2: int| 0 <= m1 < m2 < r@.len() implies score_key(
            (#[trigger] r@[m1]).0,
        ) >= score_key((#[trigger] r@[m2]).0) by {
            assert(r@[m1].0 == scores@[iv[m1]] && r@[m2].0 == scores@[iv[m2]]);
        }
    }
    r
}


/// Parsing is total on its grammar: the canonical text of any well-formed
/// query is a well-formed line, and it parses back to exactly that query.
pub proof fn lemma_query_round_trip(f1: FlatVec, f2: Option<FlatVec>)
    requires
        valid_flat(f1),
        f2 matches Some(f) ==> valid_flat(f),
    ensures
        parses(render_query(f1, f2)),
        parsed_flat(render_query(f1, f2)) == (f1, f2),
{
    crate::calc::lemma_parse_round_trip(f1, f2);
    assert(sentinel_input(render_query(f1, f2)) =~= render_query(f1, f2) + seq!['.']);
}

} // verus!
