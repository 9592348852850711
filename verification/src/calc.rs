//! The query expression language: parsing and evaluation.
//!
//! Grammar, with optional whitespace around operators:
//!
//! ```text
//! word       := one or more word letters
//! vec_expr   := word ( ('+' | '-') word )*      left-associative
//! query_expr := vec_expr ( '<>' vec_expr )?
//! ```
//!
//! A parsed tree is consumed by [`eval`], which resolves each leaf against
//! the store and flattens the tree into a signed list of store indices; the
//! caller turns that list into the linear combination of the entry vectors.

use vstd::prelude::*;
use crate::model::Model;
use crate::text::is_space_char;
use crate::text::is_space;
use crate::text::skip_spaces;
use crate::text::suffix;
use crate::text::chars_to_string;
use crate::text::str_to_chars;

verus! {

/// A vector-valued expression: a word, or a sum or difference of two
/// sub-expressions.
#[derive(Debug, PartialEq)]
pub enum VecExpression {
    Word(String),
    Add(Box<VecExpression>, Box<VecExpression>),
    Sub(Box<VecExpression>, Box<VecExpression>),
}

/// A whole query: a nearest-neighbour query over one vector expression, or a
/// distance query over two.
#[derive(Debug, PartialEq)]
pub enum Expression {
    NN(VecExpression),
    Distance(VecExpression, VecExpression),
}

/// Rejection of input that does not match the grammar.
#[derive(Debug, Clone, Copy, PartialEq, Eq)]
pub struct ParseError;

/// The letters words are made of: the model's lowercase alphabet.
pub open spec fn is_word_char(c: char) -> bool {
    ('a' <= c && c <= 'z') || c == '\u{e4}' || c == '\u{f6}' || c == '\u{e5}'
}

pub fn is_word_letter(c: char) -> (r: bool)
    ensures
        r == is_word_char(c),
{
    ('a' <= c && c <= 'z') || c == '\u{e4}' || c == '\u{f6}' || c == '\u{e5}'
}

/// The words at the leaves of an expression, left to right.
pub open spec fn vec_expr_words(e: VecExpression) -> Seq<Seq<char>>
    decreases e,
{
    match e {
        VecExpression::Word(w) => seq![w@],
        VecExpression::Add(a, b) => vec_expr_words(*a) + vec_expr_words(*b),
        VecExpression::Sub(a, b) => vec_expr_words(*a) + vec_expr_words(*b),
    }
}

/// The words of a query, left to right.
pub open spec fn expr_words(q: Expression) -> Seq<Seq<char>> {
    match q {
        Expression::NN(e) => vec_expr_words(e),
        Expression::Distance(a, b) => vec_expr_words(a) + vec_expr_words(b),
    }
}

impl VecExpression {
    pub fn words(&self) -> (r: Vec<String>)
        ensures
            r.deep_view() == vec_expr_words(*self),
        decreases *self,
    {
        match self {
            VecExpression::Word(w) => {
                let mut v: Vec<String> = Vec::new();
                v.push(w.clone());
                proof {
                    assert(v.deep_view() =~= vec_expr_words(*self));
                }
                v
            },
            VecExpression::Add(a, b) => {
                let mut x = a.words();
                let mut y = b.words();
                x.append(&mut y);
                proof {
                    assert(x.deep_view() =~= vec_expr_words(*self));
                }
                x
            },
            VecExpression::Sub(a, b) => {
                let mut x = a.words();
                let mut y = b.words();
                x.append(&mut y);
                proof {
                    assert(x.deep_view() =~= vec_expr_words(*self));
                }
                x
            },
        }
    }
}

impl Expression {
    pub fn words(&self) -> (r: Vec<String>)
        ensures
            r.deep_view() == expr_words(*self),
    {
        match self {
            Expression::NN(e) => e.words(),
            Expression::Distance(a, b) => {
                let mut x = a.words();
                let mut y = b.words();
                x.append(&mut y);
                proof {
                    assert(x.deep_view() =~= expr_words(*self));
                }
                x
            },
        }
    }
}

/// A sum of two expressions.
pub fn add_expr(a: VecExpression, b: VecExpression) -> (r: VecExpression)
    ensures
        r matches VecExpression::Add(x, y) && *x == a && *y == b,
{
    VecExpression::Add(Box::new(a), Box::new(b))
}

/// A difference of two expressions.
pub fn sub_expr(a: VecExpression, b: VecExpression) -> (r: VecExpression)
    ensures
        r matches VecExpression::Sub(x, y) && *x == a && *y == b,
{
    VecExpression::Sub(Box::new(a), Box::new(b))
}

// ---------------------------------------------------------------------------
// The grammar, as functions over character sequences.  Each consumes a prefix
// of its input and hands back the rest.
// ---------------------------------------------------------------------------

/// Splits off the longest prefix of word letters.
pub open spec fn take_word(s: Seq<char>) -> (Seq<char>, Seq<char>)
    decreases s.len(),
{
    if s.len() > 0 && is_word_char(s[0]) {
        let (w, r) = take_word(s.drop_first());
        (seq![s[0]] + w, r)
    } else {
        (Seq::empty(), s)
    }
}

/// A word surrounded by optional whitespace; fails when no word letter is
/// found.
pub open spec fn parse_word(s: Seq<char>) -> Option<(Seq<char>, Seq<char>)> {
    let s1 = skip_spaces(s);
    let (w, r) = take_word(s1);
    if w.len() > 0 {
        Some((w, skip_spaces(r)))
    } else {
        None
    }
}

pub proof fn lemma_skip_spaces_len(s: Seq<char>)
    ensures
        skip_spaces(s).len() <= s.len(),
    decreases s.len(),
{
    if s.len() > 0 && is_space_char(s[0]) {
        lemma_skip_spaces_len(s.drop_first());
    }
}

pub proof fn lemma_take_word_len(s: Seq<char>)
    ensures
        take_word(s).0.len() + take_word(s).1.len() == s.len(),
    decreases s.len(),
{
    if s.len() > 0 && is_word_char(s[0]) {
        lemma_take_word_len(s.drop_first());
    }
}

/// A successful word parse consumes at least one character.
pub proof fn lemma_parse_word_len(s: Seq<char>)
    ensures
        parse_word(s) matches Some(p) ==> p.0.len() >= 1 && p.1.len() < s.len(),
{
    lemma_skip_spaces_len(s);
    lemma_take_word_len(skip_spaces(s));
    lemma_skip_spaces_len(take_word(skip_spaces(s)).1);
}

/// The `( ('+' | '-') word )*` tail of a vector expression: the parsed
/// `(operator, word)` pairs (`true` is `+`) and the rest of the input.  A
/// dangling operator with no word after it is left unconsumed.
pub open spec fn parse_ops(s: Seq<char>) -> (Seq<(bool, Seq<char>)>, Seq<char>)
    decreases s.len(),
    via parse_ops_decreases
{
    if s.len() > 0 && (s[0] == '+' || s[0] == '-') {
        match parse_word(s.drop_first()) {
            Some((w, r)) => {
                let (ts, rr) = parse_ops(r);
                (seq![(s[0] == '+', w)] + ts, rr)
            },
            None => (Seq::empty(), s),
        }
    } else {
        (Seq::empty(), s)
    }
}

#[via_fn]
proof fn parse_ops_decreases(s: Seq<char>) {
    if s.len() > 0 && (s[0] == '+' || s[0] == '-') {
        lemma_parse_word_len(s.drop_first());
    }
}

/// The flattened form of a vector expression: its first word, then one
/// `(operator, word)` pair per further term.
pub struct FlatVec {
    pub first: Seq<char>,
    pub terms: Seq<(bool, Seq<char>)>,
}

/// `vec_expr`: a word followed by operator-word pairs.
pub open spec fn parse_vec(s: Seq<char>) -> Option<(FlatVec, Seq<char>)> {
    match parse_word(s) {
        Some((w, r)) => {
            let (ts, rr) = parse_ops(r);
            Some((FlatVec { first: w, terms: ts }, rr))
        },
        None => None,
    }
}

/// `query_expr`: a vector expression, optionally followed by `<>` and a
/// second one.  When `<>` is present but no vector expression follows it,
/// the `<>` is left unconsumed.
pub open spec fn parse_expr(s: Seq<char>) -> Option<((FlatVec, Option<FlatVec>), Seq<char>)> {
    match parse_vec(s) {
        Some((f1, r)) => {
            if r.len() >= 2 && r[0] == '<' && r[1] == '>' {
                match parse_vec(r.skip(2)) {
                    Some((f2, rr)) => Some(((f1, Some(f2)), rr)),
                    None => Some(((f1, None), r)),
                }
            } else {
                Some(((f1, None), r))
            }
        },
        None => None,
    }
}

/// Whether every `Add`/`Sub` node has a bare word as its right operand; the
/// parser only builds such trees.
pub open spec fn left_leaning(e: VecExpression) -> bool
    decreases e,
{
    match e {
        VecExpression::Word(_) => true,
        VecExpression::Add(a, b) => left_leaning(*a) && is_leaf(*b),
        VecExpression::Sub(a, b) => left_leaning(*a) && is_leaf(*b),
    }
}

pub open spec fn is_leaf(e: VecExpression) -> bool {
    match e {
        VecExpression::Word(_) => true,
        _ => false,
    }
}

pub open spec fn leaf_word(e: VecExpression) -> Seq<char> {
    match e {
        VecExpression::Word(w) => w@,
        _ => arbitrary(),
    }
}

/// The flattened form of a left-leaning tree.
pub open spec fn flat_of(e: VecExpression) -> FlatVec
    decreases e,
{
    match e {
        VecExpression::Word(w) => FlatVec { first: w@, terms: Seq::empty() },
        VecExpression::Add(a, b) => FlatVec {
            first: flat_of(*a).first,
            terms: flat_of(*a).terms.push((true, leaf_word(*b))),
        },
        VecExpression::Sub(a, b) => FlatVec {
            first: flat_of(*a).first,
            terms: flat_of(*a).terms.push((false, leaf_word(*b))),
        },
    }
}

/// Whether every `Add`/`Sub` node of a query is left-leaning.
pub open spec fn expr_left_leaning(q: Expression) -> bool {
    match q {
        Expression::NN(e) => left_leaning(e),
        Expression::Distance(a, b) => left_leaning(a) && left_leaning(b),
    }
}

/// The flattened form of a query.
pub open spec fn flat_of_expr(q: Expression) -> (FlatVec, Option<FlatVec>) {
    match q {
        Expression::NN(e) => (flat_of(e), None),
        Expression::Distance(a, b) => (flat_of(a), Some(flat_of(b))),
    }
}

fn scan_spaces(s: &Vec<char>, i: usize) -> (j: usize)
    requires
        i <= s@.len(),
    ensures
        i <= j <= s@.len(),
        suffix(s@, j as int) == skip_spaces(suffix(s@, i as int)),
{
    let n = s.len();
    let mut j = i;
    while j < n && is_space(s[j])
        invariant
            i <= j <= n,
            n == s@.len(),
            skip_spaces(suffix(s@, i as int)) == skip_spaces(suffix(s@, j as int)),
        decreases n - j,
    {
        proof {
            assert(suffix(s@, j as int).drop_first() =~= suffix(s@, j + 1));
        }
        j = j + 1;
    }
    proof {
        assert(skip_spaces(suffix(s@, j as int)) == suffix(s@, j as int));
    }
    j
}

fn scan_word(s: &Vec<char>, i: usize) -> (j: usize)
    requires
        i <= s@.len(),
    ensures
        i <= j <= s@.len(),
        take_word(suffix(s@, i as int)).0 == s@.subrange(i as int, j as int),
        take_word(suffix(s@, i as int)).1 == suffix(s@, j as int),
    {
    let n = s.len();
    let mut j = i;
    while j < n && is_word_letter(s[j])
        invariant
            i <= j <= n,
            n == s@.len(),
            take_word(suffix(s@, i as int)).0 =~= s@.subrange(i as int, j as int) + take_word(
                suffix(s@, j as int),
            ).0,
            take_word(suffix(s@, i as int)).1 == take_word(suffix(s@, j as int)).1,
        decreases n - j,
    {
        proof {
            assert(suffix(s@, j as int).drop_first() =~= suffix(s@, j + 1));
            assert(s@.subrange(i as int, j as int) + seq![s@[j as int]] =~= s@.subrange(
                i as int,
                j + 1,
            ));
            assert(seq![s@[j as int]] + take_word(suffix(s@, j + 1)).0 =~= seq![suffix(
                s@,
                j as int,
            )[0]] + take_word(suffix(s@, j as int).drop_first()).0);
        }
        j = j + 1;
        proof {
            assert(take_word(suffix(s@, i as int)).0 =~= s@.subrange(i as int, j as int)
                + take_word(suffix(s@, j as int)).0);
        }
    }
    proof {
        assert(take_word(suffix(s@, j as int)).0 =~= Seq::<char>::empty());
        assert(take_word(suffix(s@, i as int)).0 =~= s@.subrange(i as int, j as int));
    }
    j
}

fn collect_range(s: &Vec<char>, a: usize, b: usize) -> (r: String)
    requires
        a <= b <= s@.len(),
    ensures
        r@ == s@.subrange(a as int, b as int),
{
    let mut cs: Vec<char> = Vec::new();
    let mut k = a;
    proof {
        assert(cs@ =~= s@.subrange(a as int, a as int));
    }
    while k < b
        invariant
            a <= k <= b <= s@.len(),
            cs@ == s@.subrange(a as int, k as int),
        decreases b - k,
    {
        cs.push(s[k]);
        k = k + 1;
        proof {
            assert(cs@ =~= s@.subrange(a as int, k as int));
        }
    }
    chars_to_string(&cs)
}

fn parse_word_exec(s: &Vec<char>, i: usize) -> (r: Option<(String, usize)>)
    requires
        i <= s@.len(),
    ensures
        r matches Some(p) ==> p.1 <= s@.len() && parse_word(suffix(s@, i as int)) == Some(
            (p.0@, suffix(s@, p.1 as int)),
        ),
        r is None ==> parse_word(suffix(s@, i as int)) is None,
{
    let a = scan_spaces(s, i);
    let b = scan_word(s, a);
    if b > a {
        let w = collect_range(s, a, b);
        let j = scan_spaces(s, b);
        Some((w, j))
    } else {
        proof {
            assert(s@.subrange(a as int, a as int) =~= Seq::<char>::empty());
        }
        None
    }
}

fn parse_vec_exec(s: &Vec<char>, i: usize) -> (r: Option<(VecExpression, usize)>)
    requires
        i <= s@.len(),
    ensures
        r matches Some(p) ==> p.1 <= s@.len() && left_leaning(p.0) && parse_vec(
            suffix(s@, i as int),
        ) == Some((flat_of(p.0), suffix(s@, p.1 as int))),
        r is None ==> parse_vec(suffix(s@, i as int)) is None,
{
    match parse_word_exec(s, i) {
        None => None,
        Some((w0, j0)) => {
            let ghost start: int = j0 as int;
            let ghost first: Seq<char> = w0@;
            let mut acc = VecExpression::Word(w0);
            let mut j = j0;
            let mut done = false;
            proof {
                assert(flat_of(acc).terms =~= Seq::<(bool, Seq<char>)>::empty());
            }
            while !done
                invariant
                    j <= s@.len(),
                    0 <= start <= s@.len(),
                    left_leaning(acc),
                    flat_of(acc).first == first,
                    parse_word(suffix(s@, i as int)) == Some((first, suffix(s@, start))),
                    parse_ops(suffix(s@, start)).0 == flat_of(acc).terms + parse_ops(
                        suffix(s@, j as int),
                    ).0,
                    parse_ops(suffix(s@, start)).1 == parse_ops(suffix(s@, j as int)).1,
                    done ==> parse_ops(suffix(s@, j as int)).0 == Seq::<(bool, Seq<char>)>::empty()
                        && parse_ops(suffix(s@, j as int)).1 == suffix(s@, j as int),
                decreases (s@.len() - j) + (if done {
                    0int
                } else {
                    1int
                }),
            {
                let n = s.len();
                if j < n && (s[j] == '+' || s[j] == '-') {
                    let plus = s[j] == '+';
                    proof {
                        assert(suffix(s@, j as int)[0] == s@[j as int]);
                        assert(suffix(s@, j as int).drop_first() =~= suffix(s@, j + 1));
                    }
                    match parse_word_exec(s, j + 1) {
                        None => {
                            done = true;
                        },
                        Some((w, j2)) => {
                            proof {
                                lemma_parse_word_len(suffix(s@, j + 1));
                                assert(parse_ops(suffix(s@, j as int)).0 == seq![
                                    (plus, w@),
                                ] + parse_ops(suffix(s@, j2 as int)).0);
                            }
                            let ghost old_acc = acc;
                            let leaf = VecExpression::Word(w);
                            acc = if plus {
                                add_expr(acc, leaf)
                            } else {
                                sub_expr(acc, leaf)
                            };
                            j = j2;
                            proof {
                                assert(flat_of(acc).terms =~= flat_of(old_acc).terms.push(
                                    (plus, w@),
                                ));
                                assert(flat_of(old_acc).terms + (seq![(plus, w@)] + parse_ops(
                                    suffix(s@, j as int),
                                ).0) =~= flat_of(acc).terms + parse_ops(suffix(s@, j as int)).0);
                            }
                        },
                    }
                } else {
                    done = true;
                }
            }
            proof {
                assert(flat_of(acc).terms + Seq::<(bool, Seq<char>)>::empty() =~= flat_of(
                    acc,
                ).terms);
                assert(parse_vec(suffix(s@, i as int)) == Some(
                    (flat_of(acc), suffix(s@, j as int)),
                ));
            }
            Some((acc, j))
        },
    }
}

pub(crate) fn parse_expr_exec(s: &Vec<char>, i: usize) -> (r: Option<(Expression, usize)>)
    requires
        i <= s@.len(),
    ensures
        r matches Some(p) ==> p.1 <= s@.len() && expr_left_leaning(p.0) && parse_expr(
            suffix(s@, i as int),
        ) == Some((flat_of_expr(p.0), suffix(s@, p.1 as int))),
        r is None ==> parse_expr(suffix(s@, i as int)) is None,
{
    let n = s.len();
    match parse_vec_exec(s, i) {
        None => None,
        Some((e1, j)) => {
            if n - j >= 2 && s[j] == '<' && s[j + 1] == '>' {
                proof {
                    assert(suffix(s@, j as int)[0] == s@[j as int]);
                    assert(suffix(s@, j as int)[1] == s@[j + 1]);
                    assert(suffix(s@, j as int).skip(2) =~= suffix(s@, j + 2));
                }
                match parse_vec_exec(s, j + 2) {
                    Some((e2, j2)) => Some((Expression::Distance(e1, e2), j2)),
                    None => Some((Expression::NN(e1), j)),
                }
            } else {
                proof {
                    if n - j >= 2 {
                        assert(suffix(s@, j as int)[0] == s@[j as int]);
                        assert(suffix(s@, j as int)[1] == s@[j + 1]);
                    }
                }
                Some((Expression::NN(e1), j))
            }
        },
    }
}

/// Parses a leading word; on success returns the unconsumed input and the
/// parsed leaf.
pub fn word(input: &str) -> (r: Result<(String, VecExpression), ParseError>)
    ensures
        r matches Ok(p) ==> is_leaf(p.1) && (parse_word(input@) matches Some(q) && q.0
            == flat_of(p.1).first && q.1 == p.0@),
        r matches Err(_) ==> parse_word(input@) is None,
{
    let cs = str_to_chars(input);
    proof {
        assert(suffix(cs@, 0) =~= input@);
    }
    match parse_word_exec(&cs, 0) {
        Some((w, j)) => {
            let rest = collect_range(&cs, j, cs.len());
            proof {
                assert(rest@ =~= suffix(cs@, j as int));
            }
            Ok((rest, VecExpression::Word(w)))
        },
        None => Err(ParseError),
    }
}

/// Parses a leading vector expression; on success returns the unconsumed
/// input and the left-associative tree.
pub fn vec_expr(input: &str) -> (r: Result<(String, VecExpression), ParseError>)
    ensures
        r matches Ok(p) ==> left_leaning(p.1) && (parse_vec(input@) matches Some(q) && q.0
            == flat_of(p.1) && q.1 == p.0@),
        r matches Err(_) ==> parse_vec(input@) is None,
{
    let cs = str_to_chars(input);
    proof {
        assert(suffix(cs@, 0) =~= input@);
    }
    match parse_vec_exec(&cs, 0) {
        Some((e, j)) => {
            let rest = collect_range(&cs, j, cs.len());
            proof {
                assert(rest@ =~= suffix(cs@, j as int));
            }
            Ok((rest, e))
        },
        None => Err(ParseError),
    }
}

/// Parses a leading query expression; on success returns the unconsumed
/// input and the query.
pub fn expr(input: &str) -> (r: Result<(String, Expression), ParseError>)
    ensures
        r matches Ok(p) ==> expr_left_leaning(p.1) && (parse_expr(input@) matches Some(q) && q.0
            == flat_of_expr(p.1) && q.1 == p.0@),
        r matches Err(_) ==> parse_expr(input@) is None,
{
    let cs = str_to_chars(input);
    proof {
        assert(suffix(cs@, 0) =~= input@);
    }
    match parse_expr_exec(&cs, 0) {
        Some((e, j)) => {
            let rest = collect_range(&cs, j, cs.len());
            proof {
                assert(rest@ =~= suffix(cs@, j as int));
            }
            Ok((rest, e))
        },
        None => Err(ParseError),
    }
}

// ---------------------------------------------------------------------------
// Evaluation: resolving leaves against the store and flattening the tree
// into a signed combination of store entries.
// ---------------------------------------------------------------------------

/// The leftmost word of `ws` that the store lacks, if any: the word a
/// left-to-right sequence of direct lookups would be the first to reject.
pub open spec fn spec_first_missing(ws: Seq<Seq<char>>, m: Model) -> Option<Seq<char>>
    decreases ws.len(),
{
    if ws.len() == 0 {
        None
    } else if !m.has_word(ws[0]) {
        Some(ws[0])
    } else {
        spec_first_missing(ws.drop_first(), m)
    }
}

/// The store position of a word that the store has.
pub open spec fn spec_index_of(m: Model, w: Seq<char>) -> int {
    choose|i: int| 0 <= i < m.words@.len() && m.words@[i]@ == w
}

/// Flips the sign of every term.
pub open spec fn negate_terms(ts: Seq<(bool, int)>) -> Seq<(bool, int)> {
    ts.map_values(|t: (bool, int)| (!t.0, t.1))
}

/// The signed store indices an expression evaluates to, left to right: a
/// word contributes itself positively, `Add` concatenates the operands'
/// terms, and `Sub` appends the right operand's terms with flipped signs.
/// Summing the entry vectors with these signs, left to right, is exactly
/// the evaluation of the tree.
pub open spec fn spec_terms(e: VecExpression, m: Model) -> Seq<(bool, int)>
    decreases e,
{
    match e {
        VecExpression::Word(w) => seq![(true, spec_index_of(m, w@))],
        VecExpression::Add(a, b) => spec_terms(*a, m) + spec_terms(*b, m),
        VecExpression::Sub(a, b) => spec_terms(*a, m) + negate_terms(spec_terms(*b, m)),
    }
}

pub proof fn lemma_first_missing_concat(ws1: Seq<Seq<char>>, ws2: Seq<Seq<char>>, m: Model)
    ensures
        spec_first_missing(ws1 + ws2, m) == (if spec_first_missing(ws1, m) is Some {
            spec_first_missing(ws1, m)
        } else {
            spec_first_missing(ws2, m)
        }),
    decreases ws1.len(),
{
    if ws1.len() == 0 {
        assert(ws1 + ws2 =~= ws2);
    } else {
        assert((ws1 + ws2)[0] == ws1[0]);
        assert((ws1 + ws2).drop_first() =~= ws1.drop_first() + ws2);
        lemma_first_missing_concat(ws1.drop_first(), ws2, m);
    }
}

/// The mathematical view of a signed index list.
pub open spec fn terms_view(v: Seq<(bool, usize)>) -> Seq<(bool, int)> {
    v.map_values(|t: (bool, usize)| (t.0, t.1 as int))
}

/// The contribution of an expression under an outer sign.
pub open spec fn signed_terms(e: VecExpression, m: Model, positive: bool) -> Seq<(bool, int)> {
    if positive {
        spec_terms(e, m)
    } else {
        negate_terms(spec_terms(e, m))
    }
}

fn eval_into(e: &VecExpression, model: &Model, positive: bool, out: &mut Vec<(bool, usize)>) -> (r:
    Result<(), String>)
    requires
        model.wf(),
    ensures
        r matches Ok(_) ==> spec_first_missing(vec_expr_words(*e), *model) is None && terms_view(
            final(out)@,
        ) == terms_view(old(out)@) + signed_terms(*e, *model, positive) && final(out)@.len() >= old(
            out,
        )@.len() && (forall|q: int|
            old(out)@.len() <= q < final(out)@.len() ==> (#[trigger] final(out)@[q]).1
                < model.words@.len()) && (forall|q: int|
            0 <= q < old(out)@.len() ==> final(out)@[q] == old(out)@[q]),
        r matches Err(w) ==> spec_first_missing(vec_expr_words(*e), *model) == Some(w@),
    decreases *e,
{
    match e {
        VecExpression::Word(w) => {
            match model.index_of(w) {
                Some(i) => {
                    out.push((positive, i));
                    proof {
                        let ci = spec_index_of(*model, w@);
                        assert(0 <= (i as int) && (i as int) < model.words@.len()
                            && model.words@[i as int]@ == w@);
                        assert(model.has_word(w@));
                        let ws = vec_expr_words(*e);
                        assert(ws == seq![w@]);
                        assert(ws.len() == 1 && ws[0] == w@);
                        assert(spec_first_missing(ws, *model) == spec_first_missing(
                            ws.drop_first(),
                            *model,
                        ));
                        assert(ws.drop_first().len() == 0);
                        assert(spec_first_missing(ws.drop_first(), *model) is None);
                        assert(0 <= ci < model.words@.len() && model.words@[ci]@ == w@);
                        assert(ci == i as int);
                        assert(terms_view(final(out)@) =~= terms_view(old(out)@) + signed_terms(
                            *e,
                            *model,
                            positive,
                        ));
                    }
                    Ok(())
                },
                None => {
                    proof {
                        assert(vec_expr_words(*e)[0] == w@);
                    }
                    Err(w.clone())
                },
            }
        },
        VecExpression::Add(a, b) => {
            proof {
                lemma_first_missing_concat(vec_expr_words(**a), vec_expr_words(**b), *model);
            }
            match eval_into(a, model, positive, out) {
                Err(w) => Err(w),
                Ok(_) => {
                    match eval_into(b, model, positive, out) {
                        Err(w) => Err(w),
                        Ok(_) => {
                            proof {
                                assert(negate_terms(spec_terms(**a, *model) + spec_terms(
                                    **b,
                                    *model,
                                )) =~= negate_terms(spec_terms(**a, *model)) + negate_terms(
                                    spec_terms(**b, *model),
                                ));
                                assert(terms_view(final(out)@) =~= terms_view(old(out)@)
                                    + signed_terms(*e, *model, positive));
                            }
                            Ok(())
                        },
                    }
                },
            }
        },
        VecExpression::Sub(a, b) => {
            proof {
                lemma_first_missing_concat(vec_expr_words(**a), vec_expr_words(**b), *model);
            }
            match eval_into(a, model, positive, out) {
                Err(w) => Err(w),
                Ok(_) => {
                    match eval_into(b, model, !positive, out) {
                        Err(w) => Err(w),
                        Ok(_) => {
                            proof {
                                assert(negate_terms(negate_terms(spec_terms(**b, *model))) =~=
                                    spec_terms(**b, *model));
                                assert(negate_terms(spec_terms(**a, *model) + negate_terms(
                                    spec_terms(**b, *model),
                                )) =~= negate_terms(spec_terms(**a, *model)) + spec_terms(
                                    **b,
                                    *model,
                                ));
                                assert(terms_view(final(out)@) =~= terms_view(old(out)@)
                                    + signed_terms(*e, *model, positive));
                            }
                            Ok(())
                        },
                    }
                },
            }
        },
    }
}

/// Evaluates an expression against the store.
///
/// On success the result is the expression's signed combination of store
/// entries (see [`spec_terms`]); summing the entry vectors left to right
/// with those signs yields the expression's vector.  When some leaf word is
/// not in the store, the leftmost such word is reported instead — the same
/// word a direct left-to-right sequence of store lookups would be the first
/// to reject — and nothing is produced.
pub fn eval(e: &VecExpression, model: &Model) -> (r: Result<Vec<(bool, usize)>, String>)
    requires
        model.wf(),
    ensures
        r matches Ok(ts) ==> spec_first_missing(vec_expr_words(*e), *model) is None
            && terms_view(ts@) == spec_terms(*e, *model) && (forall|q: int|
            0 <= q < ts@.len() ==> (#[trigger] ts@[q]).1 < model.words@.len()),
        r matches Err(w) ==> spec_first_missing(vec_expr_words(*e), *model) == Some(w@),
{
    let mut out: Vec<(bool, usize)> = Vec::new();
    match eval_into(e, model, true, &mut out) {
        Ok(_) => {
            proof {
                assert(terms_view(Seq::<(bool, usize)>::empty()) + spec_terms(*e, *model)
                    =~= spec_terms(*e, *model));
                assert(terms_view(out@) =~= spec_terms(*e, *model));
            }
            Ok(out)
        },
        Err(w) => Err(w),
    }
}

/// The words of a flattened vector expression, in order.
pub open spec fn flat_words(f: FlatVec) -> Seq<Seq<char>> {
    seq![f.first] + f.terms.map_values(|t: (bool, Seq<char>)| t.1)
}

/// The signed store indices of a flattened vector expression.
pub open spec fn flat_terms(f: FlatVec, m: Model) -> Seq<(bool, int)> {
    seq![(true, spec_index_of(m, f.first))] + f.terms.map_values(
        |t: (bool, Seq<char>)| (t.0, spec_index_of(m, t.1)),
    )
}

/// On the trees the parser builds, evaluation agrees with the flattened
/// form: the words are the flat word list and the signed terms follow the
/// flat operator list.
pub proof fn lemma_flat_terms(e: VecExpression, m: Model)
    requires
        left_leaning(e),
    ensures
        vec_expr_words(e) == flat_words(flat_of(e)),
        spec_terms(e, m) == flat_terms(flat_of(e), m),
    decreases e,
{
    match e {
        VecExpression::Word(_) => {
            assert(vec_expr_words(e) =~= flat_words(flat_of(e)));
            assert(spec_terms(e, m) =~= flat_terms(flat_of(e), m));
        },
        VecExpression::Add(a, b) => {
            lemma_flat_terms(*a, m);
            assert(vec_expr_words(*b) =~= seq![leaf_word(*b)]);
            assert(spec_terms(*b, m) =~= seq![(true, spec_index_of(m, leaf_word(*b)))]);
            assert(vec_expr_words(e) =~= flat_words(flat_of(e)));
            assert(spec_terms(e, m) =~= flat_terms(flat_of(e), m));
        },
        VecExpression::Sub(a, b) => {
            lemma_flat_terms(*a, m);
            assert(vec_expr_words(*b) =~= seq![leaf_word(*b)]);
            assert(negate_terms(spec_terms(*b, m)) =~= seq![
                (false, spec_index_of(m, leaf_word(*b))),
            ]);
            assert(vec_expr_words(e) =~= flat_words(flat_of(e)));
            assert(spec_terms(e, m) =~= flat_terms(flat_of(e), m));
        },
    }
}

/// How evaluation treats the two binary nodes: a sum's terms are the
/// concatenation of its operands' terms, a difference's append the right
/// operand's terms with flipped signs, and in both cases the reported
/// missing word is the leftmost missing word of the operands in order.
pub proof fn lemma_eval_structure(e: VecExpression, m: Model)
    ensures
        e matches VecExpression::Add(a, b) ==> spec_terms(e, m) == spec_terms(*a, m) + spec_terms(
            *b,
            m,
        ) && spec_first_missing(vec_expr_words(e), m) == (if spec_first_missing(
            vec_expr_words(*a),
            m,
        ) is Some {
            spec_first_missing(vec_expr_words(*a), m)
        } else {
            spec_first_missing(vec_expr_words(*b), m)
        }),
        e matches VecExpression::Sub(a, b) ==> spec_terms(e, m) == spec_terms(*a, m)
            + negate_terms(spec_terms(*b, m)) && spec_first_missing(vec_expr_words(e), m) == (
        if spec_first_missing(vec_expr_words(*a), m) is Some {
            spec_first_missing(vec_expr_words(*a), m)
        } else {
            spec_first_missing(vec_expr_words(*b), m)
        }),
{
    match e {
        VecExpression::Word(_) => {},
        VecExpression::Add(a, b) => {
            lemma_first_missing_concat(vec_expr_words(*a), vec_expr_words(*b), m);
        },
        VecExpression::Sub(a, b) => {
            lemma_first_missing_concat(vec_expr_words(*a), vec_expr_words(*b), m);
        },
    }
}


// ---------------------------------------------------------------------------
// Round trip: rendering a query in canonical form (single spaces around
// operators) and parsing it back.
// ---------------------------------------------------------------------------

/// A well-formed word: non-empty, made of word letters only.
pub open spec fn valid_word(w: Seq<char>) -> bool {
    w.len() > 0 && forall|i: int| 0 <= i < w.len() ==> is_word_char(#[trigger] w[i])
}

/// A well-formed flattened expression: every word is well-formed.
pub open spec fn valid_flat(f: FlatVec) -> bool {
    valid_word(f.first) && forall|i: int|
        0 <= i < f.terms.len() ==> valid_word((#[trigger] f.terms[i]).1)
}

pub open spec fn op_char(plus: bool) -> char {
    if plus {
        '+'
    } else {
        '-'
    }
}

/// The canonical text of the operator-word pairs: ` op word` for each.
pub open spec fn render_ops(ts: Seq<(bool, Seq<char>)>) -> Seq<char>
    decreases ts.len(),
{
    if ts.len() == 0 {
        Seq::empty()
    } else {
        seq![' ', op_char(ts[0].0), ' '] + ts[0].1 + render_ops(ts.drop_first())
    }
}

/// The canonical text of a flattened vector expression.
pub open spec fn render_flat(f: FlatVec) -> Seq<char> {
    f.first + render_ops(f.terms)
}

/// The canonical text of a flattened query.
pub open spec fn render_query(f1: FlatVec, f2: Option<FlatVec>) -> Seq<char> {
    match f2 {
        None => render_flat(f1),
        Some(f) => render_flat(f1) + seq![' ', '<', '>', ' '] + render_flat(f),
    }
}

/// What may follow a rendered vector expression without being swallowed by
/// it: after whitespace, neither a word letter nor an operator.
pub open spec fn stops_vec(tail: Seq<char>) -> bool {
    let t = skip_spaces(tail);
    t.len() == 0 || (!is_word_char(t[0]) && t[0] != '+' && t[0] != '-')
}

proof fn lemma_skip_spaces_nospace(s: Seq<char>)
    requires
        s.len() == 0 || !is_space_char(s[0]),
    ensures
        skip_spaces(s) == s,
{
}

proof fn lemma_skip_spaces_front(s: Seq<char>)
    ensures
        skip_spaces(seq![' '] + s) == skip_spaces(s),
{
    assert((seq![' '] + s).drop_first() =~= s);
}

proof fn lemma_skip_spaces_head(s: Seq<char>)
    ensures
        skip_spaces(s).len() > 0 ==> !is_space_char(skip_spaces(s)[0]),
    decreases s.len(),
{
    if s.len() > 0 && is_space_char(s[0]) {
        lemma_skip_spaces_head(s.drop_first());
    }
}

proof fn lemma_take_word_concat(w: Seq<char>, rest: Seq<char>)
    requires
        forall|i: int| 0 <= i < w.len() ==> is_word_char(#[trigger] w[i]),
        rest.len() == 0 || !is_word_char(rest[0]),
    ensures
        take_word(w + rest) == (w, rest),
    decreases w.len(),
{
    if w.len() == 0 {
        assert(w + rest =~= rest);
        assert(take_word(rest).0 =~= w);
    } else {
        assert((w + rest)[0] == w[0]);
        assert((w + rest).drop_first() =~= w.drop_first() + rest);
        lemma_take_word_concat(w.drop_first(), rest);
        assert(seq![w[0]] + w.drop_first() =~= w);
    }
}

proof fn lemma_parse_word_concat(w: Seq<char>, rest: Seq<char>)
    requires
        valid_word(w),
        rest.len() == 0 || !is_word_char(rest[0]),
    ensures
        parse_word(w + rest) == Some((w, skip_spaces(rest))),
{
    assert(!is_space_char(w[0]));
    lemma_skip_spaces_nospace(w + rest);
    lemma_take_word_concat(w, rest);
}

proof fn lemma_parse_ops_render(ts: Seq<(bool, Seq<char>)>, tail: Seq<char>)
    requires
        forall|i: int| 0 <= i < ts.len() ==> valid_word((#[trigger] ts[i]).1),
        stops_vec(tail),
    ensures
        parse_ops(skip_spaces(render_ops(ts) + tail)) == (ts, skip_spaces(tail)),
    decreases ts.len(),
{
    lemma_skip_spaces_head(tail);
    if ts.len() == 0 {
        assert(render_ops(ts) + tail =~= tail);
    } else {
        let op = op_char(ts[0].0);
        let w = ts[0].1;
        let rest2 = render_ops(ts.drop_first()) + tail;
        assert(render_ops(ts) + tail =~= seq![' '] + (seq![op] + (seq![' '] + (w + rest2))));
        lemma_skip_spaces_front(seq![op] + (seq![' '] + (w + rest2)));
        lemma_skip_spaces_nospace(seq![op] + (seq![' '] + (w + rest2)));
        let x = seq![op] + (seq![' '] + (w + rest2));
        assert(x[0] == op);
        assert(x.drop_first() =~= seq![' '] + (w + rest2));
        lemma_skip_spaces_front(w + rest2);
        assert(rest2.len() == 0 || !is_word_char(rest2[0])) by {
            if ts.drop_first().len() > 0 {
                assert(rest2[0] == ' ');
            } else {
                assert(rest2 =~= tail);
                if tail.len() > 0 && is_word_char(tail[0]) {
                    assert(!is_space_char(tail[0]));
                    lemma_skip_spaces_nospace(tail);
                    assert(false);
                }
            }
        }
        lemma_parse_word_concat(w, rest2);
        assert(parse_word(x.drop_first()) == parse_word(seq![' '] + (w + rest2)));
        assert(parse_word(seq![' '] + (w + rest2)) == Some((w, skip_spaces(rest2)))) by {
            lemma_skip_spaces_front(w + rest2);
            assert(skip_spaces(seq![' '] + (w + rest2)) == skip_spaces(w + rest2));
            lemma_skip_spaces_nospace(w + rest2);
        }
        lemma_parse_ops_render(ts.drop_first(), tail);
        assert(skip_spaces(rest2) == skip_spaces(render_ops(ts.drop_first()) + tail));
        assert(parse_ops(x) == (seq![(op == '+', w)] + ts.drop_first(), skip_spaces(tail)));
        assert(op == '+' <==> ts[0].0);
        assert(seq![(ts[0].0, w)] + ts.drop_first() =~= ts);
        assert(parse_ops(skip_spaces(render_ops(ts) + tail)) == (ts, skip_spaces(tail)));
    }
}

proof fn lemma_parse_vec_render(f: FlatVec, tail: Seq<char>)
    requires
        valid_flat(f),
        stops_vec(tail),
    ensures
        parse_vec(render_flat(f) + tail) == Some((f, skip_spaces(tail))),
{
    lemma_skip_spaces_head(tail);
    let rest = render_ops(f.terms) + tail;
    assert(render_flat(f) + tail =~= f.first + rest);
    assert(rest.len() == 0 || !is_word_char(rest[0])) by {
        if f.terms.len() > 0 {
            assert(rest[0] == ' ');
        } else {
            assert(rest =~= tail);
            if tail.len() > 0 && is_word_char(tail[0]) {
                assert(!is_space_char(tail[0]));
                lemma_skip_spaces_nospace(tail);
                assert(false);
            }
        }
    }
    lemma_parse_word_concat(f.first, rest);
    lemma_parse_ops_render(f.terms, tail);
    assert(parse_vec(f.first + rest) == Some((FlatVec { first: f.first, terms: f.terms }, skip_spaces(tail))));
    assert(FlatVec { first: f.first, terms: f.terms } == f);
}

/// Parsing is total on the grammar, and round-trips: the canonical text of
/// any well-formed flattened query, followed by the sentinel, parses back
/// to exactly that query with exactly the sentinel left over.
pub proof fn lemma_parse_round_trip(f1: FlatVec, f2: Option<FlatVec>)
    requires
        valid_flat(f1),
        f2 matches Some(f) ==> valid_flat(f),
    ensures
        parse_expr(render_query(f1, f2) + seq!['.']) == Some(((f1, f2), seq!['.'])),
{
    match f2 {
        None => {
            let tail = seq!['.'];
            lemma_skip_spaces_nospace(tail);
            lemma_parse_vec_render(f1, tail);
            assert(render_query(f1, f2) + seq!['.'] =~= render_flat(f1) + tail);
            assert(parse_vec(render_flat(f1) + tail) == Some((f1, tail)));
            assert(tail.len() < 2);
        },
        Some(f) => {
            let tail1 = seq![' ', '<', '>', ' '] + render_flat(f) + seq!['.'];
            assert(render_query(f1, f2) + seq!['.'] =~= render_flat(f1) + tail1);
            let t1 = seq!['<', '>', ' '] + render_flat(f) + seq!['.'];
            assert(tail1 =~= seq![' '] + t1);
            lemma_skip_spaces_front(t1);
            lemma_skip_spaces_nospace(t1);
            assert(skip_spaces(tail1) == t1);
            assert(stops_vec(tail1));
            lemma_parse_vec_render(f1, tail1);
            assert(parse_vec(render_flat(f1) + tail1) == Some((f1, t1)));
            assert(t1[0] == '<' && t1[1] == '>');
            let t2 = seq![' '] + (render_flat(f) + seq!['.']);
            assert(t1.skip(2) =~= t2);
            // a leading space does not change what a vector expression
            // parse sees
            let tail = seq!['.'];
            lemma_skip_spaces_nospace(tail);
            lemma_parse_vec_render(f, tail);
            assert(parse_word(t2) == parse_word(render_flat(f) + tail)) by {
                lemma_skip_spaces_front(render_flat(f) + tail);
            }
            assert(parse_vec(t2) == parse_vec(render_flat(f) + tail));
            assert(parse_vec(t2) == Some((f, tail)));
            assert(parse_expr(render_flat(f1) + tail1) == Some(((f1, Some(f)), tail)));
        },
    }
}


// ---------------------------------------------------------------------------
// Whitespace-insensitivity: the same round trip with any whitespace runs
// around the operators.
// ---------------------------------------------------------------------------

/// A run of whitespace, possibly empty.
pub open spec fn all_spaces(g: Seq<char>) -> bool {
    forall|i: int| 0 <= i < g.len() ==> is_space_char(#[trigger] g[i])
}

proof fn lemma_skip_spaces_allspace(g: Seq<char>, s: Seq<char>)
    requires
        all_spaces(g),
    ensures
        skip_spaces(g + s) == skip_spaces(s),
    decreases g.len(),
{
    if g.len() == 0 {
        assert(g + s =~= s);
    } else {
        assert((g + s)[0] == g[0]);
        assert((g + s).drop_first() =~= g.drop_first() + s);
        lemma_skip_spaces_allspace(g.drop_first(), s);
    }
}

/// One whitespace run before and one after each operator.
pub open spec fn wf_gaps(gaps: Seq<(Seq<char>, Seq<char>)>) -> bool {
    forall|i: int|
        0 <= i < gaps.len() ==> all_spaces((#[trigger] gaps[i]).0) && all_spaces(gaps[i].1)
}

/// The text of the operator-word pairs with explicit whitespace runs:
/// `gap op gap word` for each.
pub open spec fn render_ops_padded(
    ts: Seq<(bool, Seq<char>)>,
    gaps: Seq<(Seq<char>, Seq<char>)>,
) -> Seq<char>
    decreases ts.len(),
{
    if ts.len() == 0 || gaps.len() < ts.len() {
        Seq::empty()
    } else {
        gaps[0].0 + seq![op_char(ts[0].0)] + gaps[0].1 + ts[0].1 + render_ops_padded(
            ts.drop_first(),
            gaps.drop_first(),
        )
    }
}

proof fn lemma_parse_ops_padded(
    ts: Seq<(bool, Seq<char>)>,
    gaps: Seq<(Seq<char>, Seq<char>)>,
    tail: Seq<char>,
)
    requires
        forall|i: int| 0 <= i < ts.len() ==> valid_word((#[trigger] ts[i]).1),
        wf_gaps(gaps),
        gaps.len() == ts.len(),
        stops_vec(tail),
    ensures
        parse_ops(skip_spaces(render_ops_padded(ts, gaps) + tail)) == (ts, skip_spaces(tail)),
    decreases ts.len(),
{
    lemma_skip_spaces_head(tail);
    if ts.len() == 0 {
        assert(render_ops_padded(ts, gaps) + tail =~= tail);
    } else {
        let op = op_char(ts[0].0);
        let w = ts[0].1;
        let g0 = gaps[0].0;
        let g1 = gaps[0].1;
        let rest2 = render_ops_padded(ts.drop_first(), gaps.drop_first()) + tail;
        assert(render_ops_padded(ts, gaps) + tail =~= g0 + (seq![op] + (g1 + (w + rest2))));
        lemma_skip_spaces_allspace(g0, seq![op] + (g1 + (w + rest2)));
        lemma_skip_spaces_nospace(seq![op] + (g1 + (w + rest2)));
        let x = seq![op] + (g1 + (w + rest2));
        assert(x[0] == op);
        assert(x.drop_first() =~= g1 + (w + rest2));
        assert(rest2.len() == 0 || !is_word_char(rest2[0])) by {
            let ts2 = ts.drop_first();
            let gaps2 = gaps.drop_first();
            if ts2.len() > 0 {
                let r1 = render_ops_padded(ts2, gaps2);
                assert(r1 == gaps2[0].0 + seq![op_char(ts2[0].0)] + gaps2[0].1 + ts2[0].1
                    + render_ops_padded(ts2.drop_first(), gaps2.drop_first()));
                if gaps2[0].0.len() > 0 {
                    assert(rest2[0] == gaps2[0].0[0]);
                    assert(is_space_char(rest2[0]));
                    assert(!is_word_char(rest2[0]));
                } else {
                    assert(rest2[0] == op_char(ts2[0].0));
                }
            } else {
                assert(rest2 =~= tail);
                if tail.len() > 0 && is_word_char(tail[0]) {
                    assert(!is_space_char(tail[0]));
                    lemma_skip_spaces_nospace(tail);
                    assert(false);
                }
            }
        }
        assert(parse_word(x.drop_first()) == Some((w, skip_spaces(rest2)))) by {
            lemma_skip_spaces_allspace(g1, w + rest2);
            assert(skip_spaces(g1 + (w + rest2)) == skip_spaces(w + rest2));
            assert(!is_space_char(w[0]));
            lemma_skip_spaces_nospace(w + rest2);
            lemma_take_word_concat(w, rest2);
        }
        lemma_parse_ops_padded(ts.drop_first(), gaps.drop_first(), tail);
        assert(skip_spaces(rest2) == skip_spaces(
            render_ops_padded(ts.drop_first(), gaps.drop_first()) + tail,
        ));
        assert(parse_ops(x) == (seq![(op == '+', w)] + ts.drop_first(), skip_spaces(tail)));
        assert(op == '+' <==> ts[0].0);
        assert(seq![(ts[0].0, w)] + ts.drop_first() =~= ts);
    }
}

/// The text of a flattened vector expression with explicit whitespace runs.
pub open spec fn render_flat_padded(f: FlatVec, gaps: Seq<(Seq<char>, Seq<char>)>) -> Seq<char> {
    f.first + render_ops_padded(f.terms, gaps)
}

proof fn lemma_parse_vec_padded(f: FlatVec, gaps: Seq<(Seq<char>, Seq<char>)>, tail: Seq<char>)
    requires
        valid_flat(f),
        wf_gaps(gaps),
        gaps.len() == f.terms.len(),
        stops_vec(tail),
    ensures
        parse_vec(render_flat_padded(f, gaps) + tail) == Some((f, skip_spaces(tail))),
{
    lemma_skip_spaces_head(tail);
    let rest = render_ops_padded(f.terms, gaps) + tail;
    assert(render_flat_padded(f, gaps) + tail =~= f.first + rest);
    assert(rest.len() == 0 || !is_word_char(rest[0])) by {
        if f.terms.len() > 0 {
            let r1 = render_ops_padded(f.terms, gaps);
            assert(r1 == gaps[0].0 + seq![op_char(f.terms[0].0)] + gaps[0].1 + f.terms[0].1
                + render_ops_padded(f.terms.drop_first(), gaps.drop_first()));
            if gaps[0].0.len() > 0 {
                assert(rest[0] == gaps[0].0[0]);
                assert(is_space_char(rest[0]));
                assert(!is_word_char(rest[0]));
            } else {
                assert(rest[0] == op_char(f.terms[0].0));
            }
        } else {
            assert(rest =~= tail);
            if tail.len() > 0 && is_word_char(tail[0]) {
                assert(!is_space_char(tail[0]));
                lemma_skip_spaces_nospace(tail);
                assert(false);
            }
        }
    }
    lemma_parse_word_concat(f.first, rest);
    lemma_parse_ops_padded(f.terms, gaps, tail);
    assert(FlatVec { first: f.first, terms: f.terms } == f);
}

/// The text of a whole query with explicit whitespace runs: `mid` is the
/// pair of runs around `<>` when a second expression follows.
pub open spec fn render_query_padded(
    f1: FlatVec,
    gaps1: Seq<(Seq<char>, Seq<char>)>,
    f2: Option<FlatVec>,
    gaps2: Seq<(Seq<char>, Seq<char>)>,
    mid: (Seq<char>, Seq<char>),
) -> Seq<char> {
    match f2 {
        None => render_flat_padded(f1, gaps1),
        Some(f) => render_flat_padded(f1, gaps1) + mid.0 + seq!['<', '>'] + mid.1
            + render_flat_padded(f, gaps2),
    }
}

/// Parsing is total on its grammar regardless of the whitespace around the
/// operators: however each operator (and the `<>`) is padded with
/// whitespace runs, the rendered query followed by the sentinel parses
/// back to exactly the same flattened query.
pub proof fn lemma_parse_round_trip_padded(
    f1: FlatVec,
    gaps1: Seq<(Seq<char>, Seq<char>)>,
    f2: Option<FlatVec>,
    gaps2: Seq<(Seq<char>, Seq<char>)>,
    mid: (Seq<char>, Seq<char>),
)
    requires
        valid_flat(f1),
        wf_gaps(gaps1),
        gaps1.len() == f1.terms.len(),
        f2 matches Some(f) ==> valid_flat(f) && gaps2.len() == f.terms.len(),
        wf_gaps(gaps2),
        all_spaces(mid.0),
        all_spaces(mid.1),
    ensures
        parse_expr(render_query_padded(f1, gaps1, f2, gaps2, mid) + seq!['.']) == Some(
            ((f1, f2), seq!['.']),
        ),
{
    let dot = seq!['.'];
    lemma_skip_spaces_nospace(dot);
    match f2 {
        None => {
            lemma_parse_vec_padded(f1, gaps1, dot);
            assert(render_query_padded(f1, gaps1, f2, gaps2, mid) + dot =~= render_flat_padded(
                f1,
                gaps1,
            ) + dot);
            assert(dot.len() < 2);
        },
        Some(f) => {
            let t1 = mid.0 + (seq!['<', '>'] + (mid.1 + (render_flat_padded(f, gaps2) + dot)));
            assert(render_query_padded(f1, gaps1, f2, gaps2, mid) + dot =~= render_flat_padded(
                f1,
                gaps1,
            ) + t1);
            let t1s = seq!['<', '>'] + (mid.1 + (render_flat_padded(f, gaps2) + dot));
            lemma_skip_spaces_allspace(mid.0, t1s);
            lemma_skip_spaces_nospace(t1s);
            assert(skip_spaces(t1) == t1s);
            assert(stops_vec(t1));
            lemma_parse_vec_padded(f1, gaps1, t1);
            assert(t1s[0] == '<' && t1s[1] == '>');
            let t2 = mid.1 + (render_flat_padded(f, gaps2) + dot);
            assert(t1s.skip(2) =~= t2);
            lemma_parse_vec_padded(f, gaps2, dot);
            assert(parse_word(t2) == parse_word(render_flat_padded(f, gaps2) + dot)) by {
                lemma_skip_spaces_allspace(mid.1, render_flat_padded(f, gaps2) + dot);
            }
            assert(parse_vec(t2) == parse_vec(render_flat_padded(f, gaps2) + dot));
            assert(parse_expr(render_flat_padded(f1, gaps1) + t1) == Some(((f1, Some(f)), dot)));
        },
    }
}

} // verus!
