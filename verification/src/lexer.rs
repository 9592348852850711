//! The lexer: splitting running text into word and non-word tokens.
//!
//! A word is a maximal run of letters of the model alphabet (both cases);
//! it is emitted lowercased together with its original capitalisation
//! style, so substituted text can be re-capitalised to match.  A run of
//! other characters standing between two letter runs (with no space) is
//! dropped and the runs fuse into one word; other runs are emitted when a
//! space or the end of the line follows.  Case mapping covers the model
//! alphabet; all other characters are left unchanged by it.

use vstd::prelude::*;
use crate::text::chars_to_string;
use crate::text::is_space_char;
use crate::text::str_to_chars;
use crate::text::skip_spaces;
use crate::text::suffix;

verus! {

/// One token of the input: a lowercased word with its capitalisation, or a
/// run of non-word characters.
#[derive(Debug, PartialEq, Eq)]
pub enum Token {
    Word(String, Capitalization),
    Other(String),
}

/// The capitalisation style of a word as it stood in the input.
#[derive(Debug, PartialEq, Eq, Copy, Clone)]
pub enum Capitalization {
    LowerCase,
    UpperCase,
    Capitalized,
}

/// The mathematical view of a token.
pub enum TokenV {
    Word(Seq<char>, Capitalization),
    Other(Seq<char>),
}

impl View for Token {
    type V = TokenV;

    open spec fn view(&self) -> TokenV {
        match self {
            Token::Word(s, c) => TokenV::Word(s@, *c),
            Token::Other(s) => TokenV::Other(s@),
        }
    }
}

/// The mathematical view of a token list.
pub open spec fn tokens_view(ts: Seq<Token>) -> Seq<TokenV> {
    ts.map_values(|t: Token| t@)
}

/// The letters words are made of: the model alphabet, both cases.
pub open spec fn is_letter_char(c: char) -> bool {
    ||| ('a' <= c && c <= 'z')
    ||| ('A' <= c && c <= 'Z')
    ||| c == '\u{e4}' || c == '\u{f6}' || c == '\u{e5}'
    ||| c == '\u{c4}' || c == '\u{d6}' || c == '\u{c5}'
}

fn is_letter(c: char) -> (r: bool)
    ensures
        r == is_letter_char(c),
{
    ('a' <= c && c <= 'z') || ('A' <= c && c <= 'Z') || c == '\u{e4}' || c == '\u{f6}' || c
        == '\u{e5}' || c == '\u{c4}' || c == '\u{d6}' || c == '\u{c5}'
}

/// The lowercase counterpart of a letter of the model alphabet; any other
/// character is unchanged.
pub open spec fn lower_char(c: char) -> char {
    match c {
        'A' => 'a',
        'B' => 'b',
        'C' => 'c',
        'D' => 'd',
        'E' => 'e',
        'F' => 'f',
        'G' => 'g',
        'H' => 'h',
        'I' => 'i',
        'J' => 'j',
        'K' => 'k',
        'L' => 'l',
        'M' => 'm',
        'N' => 'n',
        'O' => 'o',
        'P' => 'p',
        'Q' => 'q',
        'R' => 'r',
        'S' => 's',
        'T' => 't',
        'U' => 'u',
        'V' => 'v',
        'W' => 'w',
        'X' => 'x',
        'Y' => 'y',
        'Z' => 'z',
        '\u{c4}' => '\u{e4}',
        '\u{d6}' => '\u{f6}',
        '\u{c5}' => '\u{e5}',
        _ => c,
    }
}

/// The uppercase counterpart of a letter of the model alphabet; any other
/// character is unchanged.
pub open spec fn upper_char(c: char) -> char {
    match c {
        'a' => 'A',
        'b' => 'B',
        'c' => 'C',
        'd' => 'D',
        'e' => 'E',
        'f' => 'F',
        'g' => 'G',
        'h' => 'H',
        'i' => 'I',
        'j' => 'J',
        'k' => 'K',
        'l' => 'L',
        'm' => 'M',
        'n' => 'N',
        'o' => 'O',
        'p' => 'P',
        'q' => 'Q',
        'r' => 'R',
        's' => 'S',
        't' => 'T',
        'u' => 'U',
        'v' => 'V',
        'w' => 'W',
        'x' => 'X',
        'y' => 'Y',
        'z' => 'Z',
        '\u{e4}' => '\u{c4}',
        '\u{f6}' => '\u{d6}',
        '\u{e5}' => '\u{c5}',
        _ => c,
    }
}

fn to_lower(c: char) -> (r: char)
    ensures
        r == lower_char(c),
{
    match c {
        'A' => 'a',
        'B' => 'b',
        'C' => 'c',
        'D' => 'd',
        'E' => 'e',
        'F' => 'f',
        'G' => 'g',
        'H' => 'h',
        'I' => 'i',
        'J' => 'j',
        'K' => 'k',
        'L' => 'l',
        'M' => 'm',
        'N' => 'n',
        'O' => 'o',
        'P' => 'p',
        'Q' => 'q',
        'R' => 'r',
        'S' => 's',
        'T' => 't',
        'U' => 'u',
        'V' => 'v',
        'W' => 'w',
        'X' => 'x',
        'Y' => 'y',
        'Z' => 'z',
        '\u{c4}' => '\u{e4}',
        '\u{d6}' => '\u{f6}',
        '\u{c5}' => '\u{e5}',
        _ => c,
    }
}

fn to_upper(c: char) -> (r: char)
    ensures
        r == upper_char(c),
{
    match c {
        'a' => 'A',
        'b' => 'B',
        'c' => 'C',
        'd' => 'D',
        'e' => 'E',
        'f' => 'F',
        'g' => 'G',
        'h' => 'H',
        'i' => 'I',
        'j' => 'J',
        'k' => 'K',
        'l' => 'L',
        'm' => 'M',
        'n' => 'N',
        'o' => 'O',
        'p' => 'P',
        'q' => 'Q',
        'r' => 'R',
        's' => 'S',
        't' => 'T',
        'u' => 'U',
        'v' => 'V',
        'w' => 'W',
        'x' => 'X',
        'y' => 'Y',
        'z' => 'Z',
        '\u{e4}' => '\u{c4}',
        '\u{f6}' => '\u{d6}',
        '\u{e5}' => '\u{c5}',
        _ => c,
    }
}

/// A word, lowercased pointwise.
pub open spec fn lower_seq(s: Seq<char>) -> Seq<char> {
    s.map_values(|c: char| lower_char(c))
}

/// A word, uppercased pointwise.
pub open spec fn upper_seq(s: Seq<char>) -> Seq<char> {
    s.map_values(|c: char| upper_char(c))
}

/// The capitalisation style of a word: all-lowercase words (and the empty
/// word) are `LowerCase`, all-uppercase words `UpperCase`, anything else
/// `Capitalized`.
pub open spec fn cap_of(w: Seq<char>) -> Capitalization {
    if w == lower_seq(w) {
        Capitalization::LowerCase
    } else if w == upper_seq(w) {
        Capitalization::UpperCase
    } else {
        Capitalization::Capitalized
    }
}

fn lower_chars(w: &Vec<char>) -> (r: Vec<char>)
    ensures
        r@ == lower_seq(w@),
{
    let n = w.len();
    let mut r: Vec<char> = Vec::new();
    let mut i: usize = 0;
    while i < n
        invariant
            i <= n,
            n == w@.len(),
            r@.len() == i,
            forall|p: int| 0 <= p < i ==> r@[p] == lower_char(w@[p]),
        decreases n - i,
    {
        r.push(to_lower(w[i]));
        i = i + 1;
    }
    proof {
        assert(r@ =~= lower_seq(w@));
    }
    r
}

fn upper_chars(w: &Vec<char>) -> (r: Vec<char>)
    ensures
        r@ == upper_seq(w@),
{
    let n = w.len();
    let mut r: Vec<char> = Vec::new();
    let mut i: usize = 0;
    while i < n
        invariant
            i <= n,
            n == w@.len(),
            r@.len() == i,
            forall|p: int| 0 <= p < i ==> r@[p] == upper_char(w@[p]),
        decreases n - i,
    {
        r.push(to_upper(w[i]));
        i = i + 1;
    }
    proof {
        assert(r@ =~= upper_seq(w@));
    }
    r
}

fn determine_cap_chars(w: &Vec<char>) -> (r: Capitalization)
    ensures
        r == cap_of(w@),
{
    let n = w.len();
    let mut all_low = true;
    let mut all_up = true;
    let mut i: usize = 0;
    while i < n
        invariant
            i <= n,
            n == w@.len(),
            all_low == (forall|p: int| 0 <= p < i ==> lower_char(#[trigger] w@[p]) == w@[p]),
            all_up == (forall|p: int| 0 <= p < i ==> upper_char(#[trigger] w@[p]) == w@[p]),
        decreases n - i,
    {
        let c = w[i];
        if !(to_lower(c) == c) {
            all_low = false;
        }
        if !(to_upper(c) == c) {
            all_up = false;
        }
        i = i + 1;
    }
    proof {
        if all_low {
            assert(w@ =~= lower_seq(w@));
        } else {
            let p = choose|p: int| 0 <= p < n && lower_char(#[trigger] w@[p]) != w@[p];
            assert(lower_seq(w@)[p] != w@[p]);
        }
        if all_up {
            assert(w@ =~= upper_seq(w@));
        } else {
            let p = choose|p: int| 0 <= p < n && upper_char(#[trigger] w@[p]) != w@[p];
            assert(upper_seq(w@)[p] != w@[p]);
        }
    }
    if all_low {
        Capitalization::LowerCase
    } else if all_up {
        Capitalization::UpperCase
    } else {
        Capitalization::Capitalized
    }
}

/// The capitalisation style of a word.
pub fn determine_capitalization(word: String) -> (r: Capitalization)
    ensures
        r == cap_of(word@),
{
    let cs = str_to_chars(word.as_str());
    determine_cap_chars(&cs)
}

/// A word re-capitalised to a style: lowercased, uppercased, or with its
/// first letter uppercased and the rest unchanged.
pub open spec fn spec_capitalize(w: Seq<char>, c: Capitalization) -> Seq<char> {
    match c {
        Capitalization::LowerCase => lower_seq(w),
        Capitalization::UpperCase => upper_seq(w),
        Capitalization::Capitalized => if w.len() == 0 {
            w
        } else {
            seq![upper_char(w[0])] + w.drop_first()
        },
    }
}

/// Re-capitalises a word to the given style.
pub fn capitalize(word: String, capitalization: Capitalization) -> (r: String)
    ensures
        r@ == spec_capitalize(word@, capitalization),
{
    let cs = str_to_chars(word.as_str());
    match capitalization {
        Capitalization::LowerCase => {
            let low = lower_chars(&cs);
            chars_to_string(&low)
        },
        Capitalization::UpperCase => {
            let up = upper_chars(&cs);
            chars_to_string(&up)
        },
        Capitalization::Capitalized => {
            if cs.len() == 0 {
                word
            } else {
                let n = cs.len();
                let mut r: Vec<char> = Vec::new();
                r.push(to_upper(cs[0]));
                let mut i: usize = 1;
                while i < n
                    invariant
                        1 <= i <= n,
                        n == cs@.len(),
                        r@.len() == i,
                        r@[0] == upper_char(cs@[0]),
                        forall|p: int| 1 <= p < i ==> r@[p] == cs@[p],
                    decreases n - i,
                {
                    r.push(cs[i]);
                    i = i + 1;
                }
                proof {
                    assert(r@ =~= seq![upper_char(word@[0])] + word@.drop_first());
                }
                chars_to_string(&r)
            }
        },
    }
}

/// The input with trailing whitespace dropped.
pub open spec fn trim_back(s: Seq<char>) -> Seq<char>
    decreases s.len(),
{
    if s.len() > 0 && is_space_char(s[s.len() - 1]) {
        trim_back(s.drop_last())
    } else {
        s
    }
}

/// The input with leading and trailing whitespace dropped.
pub open spec fn trim_spec(s: Seq<char>) -> Seq<char> {
    trim_back(skip_spaces(s))
}

#[verifier::loop_isolation(false)]
fn trim_chars(s: &Vec<char>) -> (r: Vec<char>)
    ensures
        r@ == trim_spec(s@),
{
    let n = s.len();
    proof {
        assert(suffix(s@, 0) =~= s@);
    }
    let mut a: usize = 0;
    while a < n && crate::text::is_space(s[a])
        invariant
            a <= n,
            skip_spaces(s@) == skip_spaces(suffix(s@, a as int)),
        decreases n - a,
    {
        proof {
            assert(suffix(s@, a as int).drop_first() =~= suffix(s@, a + 1));
        }
        a = a + 1;
    }
    proof {
        assert(skip_spaces(suffix(s@, a as int)) == suffix(s@, a as int));
    }
    let mut b: usize = n;
    while b > a && crate::text::is_space(s[b - 1])
        invariant
            a <= b <= n,
            trim_back(suffix(s@, a as int)) == trim_back(s@.subrange(a as int, b as int)),
        decreases b,
    {
        proof {
            assert(s@.subrange(a as int, b as int).drop_last() =~= s@.subrange(
                a as int,
                b - 1,
            ));
        }
        b = b - 1;
    }
    proof {
        assert(trim_back(s@.subrange(a as int, b as int)) == s@.subrange(a as int, b as int));
    }
    let mut r: Vec<char> = Vec::new();
    proof {
        assert(r@ =~= s@.subrange(a as int, a as int));
    }
    let mut k = a;
    while k < b
        invariant
            a <= k <= b,
            r@ == s@.subrange(a as int, k as int),
        decreases b - k,
    {
        r.push(s[k]);
        k = k + 1;
        proof {
            assert(r@ =~= s@.subrange(a as int, k as int));
        }
    }
    r
}

/// What the lexer emits from the rest of the input, given the word and
/// non-word runs accumulated so far.  A letter extends the word run and
/// discards a pending non-word run — emitting it first only when no word
/// run is open; a space flushes the word run, then the non-word run, then
/// stands as its own token; any other character extends the non-word run;
/// the end of the input flushes both runs.
pub open spec fn spec_lex(s: Seq<char>, word: Seq<char>, other: Seq<char>) -> Seq<TokenV>
    decreases s.len(),
{
    if s.len() == 0 {
        (if word.len() > 0 {
            seq![TokenV::Word(lower_seq(word), cap_of(word))]
        } else {
            Seq::empty()
        }) + (if other.len() > 0 {
            seq![TokenV::Other(other)]
        } else {
            Seq::empty()
        })
    } else {
        let c = s[0];
        if is_letter_char(c) {
            if other.len() > 0 && word.len() == 0 {
                seq![TokenV::Other(other)] + spec_lex(s.drop_first(), word.push(c), Seq::empty())
            } else {
                spec_lex(s.drop_first(), word.push(c), Seq::empty())
            }
        } else if c == ' ' {
            (if word.len() > 0 {
                seq![TokenV::Word(lower_seq(word), cap_of(word))]
            } else {
                Seq::empty()
            }) + (if other.len() > 0 {
                seq![TokenV::Other(other)]
            } else {
                Seq::empty()
            }) + seq![TokenV::Other(seq![' '])] + spec_lex(
                s.drop_first(),
                Seq::empty(),
                Seq::empty(),
            )
        } else {
            spec_lex(s.drop_first(), word, other.push(c))
        }
    }
}

fn make_word_token(w: &Vec<char>) -> (t: Token)
    ensures
        t@ == TokenV::Word(lower_seq(w@), cap_of(w@)),
{
    let low = lower_chars(w);
    let cap = determine_cap_chars(w);
    Token::Word(chars_to_string(&low), cap)
}

/// Splits a line into tokens: words (lowercased, with their original
/// capitalisation) and the non-word runs between them, after trimming
/// surrounding whitespace.  See [`spec_lex`] for the exact emission rules.
#[verifier::loop_isolation(false)]
pub fn lex(text: String) -> (r: Vec<Token>)
    ensures
        tokens_view(r@) == spec_lex(trim_spec(text@), Seq::empty(), Seq::empty()),
{
    let cs0 = str_to_chars(text.as_str());
    let cs = trim_chars(&cs0);
    let ghost target = spec_lex(cs@, Seq::empty(), Seq::empty());
    let n = cs.len();
    let mut ans: Vec<Token> = Vec::new();
    let mut word: Vec<char> = Vec::new();
    let mut other: Vec<char> = Vec::new();
    let mut i: usize = 0;
    proof {
        assert(suffix(cs@, 0) =~= cs@);
        assert(tokens_view(ans@) + spec_lex(suffix(cs@, 0), word@, other@) =~= target);
    }
    while i < n
        invariant
            i <= n,
            tokens_view(ans@) + spec_lex(suffix(cs@, i as int), word@, other@) == target,
        decreases n - i,
    {
        let ghost gs = suffix(cs@, i as int);
        let ghost gw = word@;
        let ghost go = other@;
        proof {
            assert(gs[0] == cs@[i as int]);
            assert(gs.drop_first() =~= suffix(cs@, i + 1));
        }
        let c = cs[i];
        if is_letter(c) {
            if other.len() > 0 {
                if word.len() == 0 {
                    ans.push(Token::Other(chars_to_string(&other)));
                }
                other = Vec::new();
            }
            word.push(c);
            proof {
                if go.len() > 0 && gw.len() == 0 {
                    assert(spec_lex(gs, gw, go) == seq![TokenV::Other(go)] + spec_lex(
                        suffix(cs@, i + 1),
                        gw.push(c),
                        Seq::empty(),
                    ));
                } else {
                    assert(spec_lex(gs, gw, go) == spec_lex(
                        suffix(cs@, i + 1),
                        gw.push(c),
                        Seq::empty(),
                    ));
                }
                assert(word@ =~= gw.push(c));
                assert(other@ =~= Seq::<char>::empty());
                assert(tokens_view(ans@) + spec_lex(suffix(cs@, i + 1), word@, other@)
                    =~= target);
            }
        } else if c == ' ' {
            if word.len() > 0 {
                let t = make_word_token(&word);
                ans.push(t);
                word = Vec::new();
            }
            if other.len() > 0 {
                ans.push(Token::Other(chars_to_string(&other)));
                other = Vec::new();
            }
            let mut sp: Vec<char> = Vec::new();
            sp.push(' ');
            ans.push(Token::Other(chars_to_string(&sp)));
            proof {
                assert(sp@ =~= seq![' ']);
                assert(spec_lex(gs, gw, go) == (if gw.len() > 0 {
                    seq![TokenV::Word(lower_seq(gw), cap_of(gw))]
                } else {
                    Seq::empty()
                }) + (if go.len() > 0 {
                    seq![TokenV::Other(go)]
                } else {
                    Seq::empty()
                }) + seq![TokenV::Other(seq![' '])] + spec_lex(
                    suffix(cs@, i + 1),
                    Seq::empty(),
                    Seq::empty(),
                ));
                assert(word@ =~= Seq::<char>::empty());
                assert(other@ =~= Seq::<char>::empty());
                assert(tokens_view(ans@) + spec_lex(suffix(cs@, i + 1), word@, other@)
                    =~= target);
            }
        } else {
            other.push(c);
            proof {
                assert(spec_lex(gs, gw, go) == spec_lex(suffix(cs@, i + 1), gw, go.push(c)));
                assert(other@ =~= go.push(c));
                assert(tokens_view(ans@) + spec_lex(suffix(cs@, i + 1), word@, other@)
                    =~= target);
            }
        }
        i = i + 1;
    }
    proof {
        assert(suffix(cs@, n as int).len() == 0);
    }
    if word.len() > 0 {
        let t = make_word_token(&word);
        ans.push(t);
    }
    if other.len() > 0 {
        ans.push(Token::Other(chars_to_string(&other)));
    }
    proof {
        assert(tokens_view(ans@) =~= target);
    }
    ans
}

} // verus!
