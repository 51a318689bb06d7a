//! The tokenizer: raw text to a sequence of normalized index terms.
//!
//! Consecutive alphanumeric characters are grouped into a candidate term,
//! ASCII-folded to lowercase; any other character ends the term.  A candidate
//! is kept when it has at least two characters and is not a stop word.

use vstd::prelude::*;

use crate::text::alnum_of;
use crate::text::char_is_alnum;
use crate::text::ascii_lower_char;
use crate::text::lower_char;
use crate::text::eq_str;
use crate::text::chars_to_string;
use crate::text::str_to_chars;

verus! {

/// The fixed stop-word list: articles, conjunctions and common prepositions.
pub open spec fn stop_words() -> Seq<Seq<char>> {
    seq![
        "the"@,
        "and"@,
        "or"@,
        "to"@,
        "of"@,
        "a"@,
        "in"@,
        "on"@,
        "for"@,
        "with"@,
        "is"@,
        "it"@,
        "by"@,
        "an"@,
        "be"@,
    ]
}

pub open spec fn is_stop_word(t: Seq<char>) -> bool {
    stop_words().contains(t)
}

/// A candidate term is kept when it is at least two characters long and is
/// not a stop word.
pub open spec fn keep_term(t: Seq<char>) -> bool {
    t.len() >= 2 && !is_stop_word(t)
}

pub open spec fn flush_term(t: Seq<char>) -> Seq<Seq<char>> {
    if keep_term(t) {
        seq![t]
    } else {
        Seq::empty()
    }
}

/// One left-to-right scan over `s`: `cur` is the candidate term being built,
/// `out` the terms already emitted.
pub open spec fn scan_terms(s: Seq<char>, i: int, cur: Seq<char>, out: Seq<Seq<char>>) -> Seq<
    Seq<char>,
>
    decreases s.len() - i,
{
    if i < 0 || i >= s.len() {
        out + flush_term(cur)
    } else if alnum_of(s[i]) {
        scan_terms(s, i + 1, cur.push(lower_char(s[i])), out)
    } else {
        scan_terms(s, i + 1, Seq::empty(), out + flush_term(cur))
    }
}

/// The terms of `s`, in order of appearance, repetitions preserved.
pub open spec fn tokenize_spec(s: Seq<char>) -> Seq<Seq<char>> {
    scan_terms(s, 0, Seq::empty(), Seq::empty())
}

/// Whether `t` is one of the fixed stop words.
#[verifier::loop_isolation(false)]
pub fn stop_word(t: &str) -> (r: bool)
    ensures
        r == is_stop_word(t@),
{
    let words: Vec<&str> = vec![
        "the",
        "and",
        "or",
        "to",
        "of",
        "a",
        "in",
        "on",
        "for",
        "with",
        "is",
        "it",
        "by",
        "an",
        "be",
    ];
    proof {
        assert(forall|k: int|
            0 <= k < stop_words().len() ==> words@.map_values(|w: &str| w@)[k] == stop_words()[k]);
        assert(words@.map_values(|w: &str| w@) =~= stop_words());
    }
    let mut k: usize = 0;
    while k < words.len()
        invariant
            k <= words@.len(),
            forall|j: int| 0 <= j < k ==> stop_words()[j] != t@,
        decreases words@.len() - k,
    {
        if eq_str(t, words[k]) {
            proof {
                assert(stop_words()[k as int] == t@);
            }
            return true;
        }
        k += 1;
    }
    proof {
        assert(forall|j: int| 0 <= j < stop_words().len() ==> stop_words()[j] != t@);
    }
    false
}

/// Tokenize `text`: group alphanumeric runs, fold to lowercase, drop terms
/// shorter than two characters and stop words.  Order and repetition of the
/// surviving terms are preserved.
#[verifier::loop_isolation(false)]
pub fn tokenize(text: &str) -> (r: Vec<String>)
    ensures
        r.deep_view() == tokenize_spec(text@),
{
    let chars = str_to_chars(text);
    let n = chars.len();
    let mut out: Vec<String> = Vec::new();
    let mut cur: Vec<char> = Vec::new();
    let mut i: usize = 0;
    while i < n
        invariant
            n == chars@.len(),
            i <= n,
            scan_terms(chars@, i as int, cur@, out.deep_view()) == tokenize_spec(text@),
        decreases n - i,
    {
        let c = chars[i];
        if char_is_alnum(c) {
            cur.push(ascii_lower_char(c));
        } else {
            if cur.len() >= 2 && !stop_word(chars_to_string(&cur).as_str()) {
                let ghost prev = out.deep_view();
                out.push(chars_to_string(&cur));
                proof {
                    assert(out.deep_view() =~= prev + flush_term(cur@));
                }
            } else {
                proof {
                    assert(out.deep_view() =~= out.deep_view() + flush_term(cur@));
                }
            }
            cur = Vec::new();
        }
        i += 1;
    }
    if cur.len() >= 2 && !stop_word(chars_to_string(&cur).as_str()) {
        let ghost prev = out.deep_view();
        out.push(chars_to_string(&cur));
        proof {
            assert(out.deep_view() =~= prev + flush_term(cur@));
        }
    } else {
        proof {
            assert(out.deep_view() =~= out.deep_view() + flush_term(cur@));
        }
    }
    out
}

} // verus!
