//! Character and string primitives shared by the tokenizer, the ad-block
//! matcher and the snapshot codec: case folding, whitespace trimming,
//! substring search, and conversions between `String` and `Vec<char>`.

use vstd::prelude::*;

verus! {

/// What `str::to_lowercase` returns: Unicode case folding, a function of the
/// characters alone.
pub uninterp spec fn lower_of(s: Seq<char>) -> Seq<char>;

/// What `char::is_alphanumeric` returns: the Unicode letter-or-digit
/// classification of the character.
pub uninterp spec fn alnum_of(c: char) -> bool;

/// Relies on str::to_lowercase: the result depends on the characters alone;
/// an empty string lowercases to an empty string.
#[verifier::external_body]
pub fn lowercase(s: &str) -> (r: String)
    ensures
        r@ == lower_of(s@),
        s@.len() == 0 ==> r@.len() == 0,
{
    s.to_lowercase()
}

/// Relies on char::is_alphanumeric: a pure classification of the character.
#[verifier::external_body]
pub fn char_is_alnum(c: char) -> (r: bool)
    ensures
        r == alnum_of(c),
{
    c.is_alphanumeric()
}

/// ASCII case folding of a single character, as `char::to_ascii_lowercase`
/// computes it: `'A'..='Z'` shift down by 32, everything else is unchanged.
pub open spec fn lower_char(c: char) -> char {
    if 'A' <= c && c <= 'Z' {
        (((c as u8) + 32) as char)
    } else {
        c
    }
}

pub fn ascii_lower_char(c: char) -> (r: char)
    ensures
        r == lower_char(c),
{
    if 'A' <= c && c <= 'Z' {
        ((c as u8) + 32) as char
    } else {
        c
    }
}

/// The Unicode `White_Space` characters, the set `str::trim` strips.
pub open spec fn is_space_char(c: char) -> bool {
    c == '\u{0009}' || c == '\u{000A}' || c == '\u{000B}' || c == '\u{000C}' || c == '\u{000D}'
        || c == '\u{0020}' || c == '\u{0085}' || c == '\u{00A0}' || c == '\u{1680}' || ('\u{2000}'
        <= c && c <= '\u{200A}') || c == '\u{2028}' || c == '\u{2029}' || c == '\u{202F}' || c
        == '\u{205F}' || c == '\u{3000}'
}

pub fn char_is_space(c: char) -> (r: bool)
    ensures
        r == is_space_char(c),
{
    c == '\u{0009}' || c == '\u{000A}' || c == '\u{000B}' || c == '\u{000C}' || c == '\u{000D}'
        || c == '\u{0020}' || c == '\u{0085}' || c == '\u{00A0}' || c == '\u{1680}' || ('\u{2000}'
        <= c && c <= '\u{200A}') || c == '\u{2028}' || c == '\u{2029}' || c == '\u{202F}' || c
        == '\u{205F}' || c == '\u{3000}'
}

/// Relies on str::chars and Iterator::collect: the characters of the string,
/// in order.
#[verifier::external_body]
pub fn str_to_chars(s: &str) -> (r: Vec<char>)
    ensures
        r@ == s@,
{
    s.chars().collect()
}

/// Relies on Iterator::collect for String: the string made of exactly the
/// given characters, in order.
#[verifier::external_body]
pub fn chars_to_string(v: &Vec<char>) -> (r: String)
    ensures
        r@ == v@,
{
    v.iter().collect()
}

/// `pat` occurs in `text` starting at position `i`.
pub open spec fn occurs_at(text: Seq<char>, pat: Seq<char>, i: int) -> bool {
    0 <= i && i + pat.len() <= text.len() && text.subrange(i, i + pat.len() as int) == pat
}

/// The first position at or after `from` where `pat` occurs in `text`.
pub open spec fn spec_find(text: Seq<char>, pat: Seq<char>, from: int) -> Option<int>
    decreases text.len() - from,
{
    if from < 0 || from + pat.len() > text.len() {
        None
    } else if pat.len() == 0 {
        Some(from)
    } else if occurs_at(text, pat, from) {
        Some(from)
    } else {
        spec_find(text, pat, from + 1)
    }
}

pub open spec fn spec_contains(text: Seq<char>, pat: Seq<char>) -> bool {
    spec_find(text, pat, 0) is Some
}

/// A found position lies at or after `from` and fits in the text.
pub proof fn lemma_spec_find_char(s: Seq<char>, pat: Seq<char>, from: int)
    requires
        from >= 0,
    ensures
        match spec_find(s, pat, from) {
            Some(p) => from <= p && p + pat.len() <= s.len() && occurs_at(s, pat, p),
            None => true,
        },
    decreases s.len() - from,
{
    if !(from < 0 || from + pat.len() > s.len()) {
        if pat.len() == 0 {
            assert(s.subrange(from, from) =~= pat);
        } else if occurs_at(s, pat, from) {
        } else {
            lemma_spec_find_char(s, pat, from + 1);
        }
    }
}

/// The last position strictly before `upto` holding the character `c`.
pub open spec fn spec_rfind_char(s: Seq<char>, c: char, upto: int) -> Option<int>
    decreases upto,
{
    if upto <= 0 || upto > s.len() {
        None
    } else if s[upto - 1] == c {
        Some(upto - 1)
    } else {
        spec_rfind_char(s, c, upto - 1)
    }
}

/// The first index at or after `i` whose character fails `p`.
pub open spec fn skip_while_start(s: Seq<char>, p: spec_fn(char) -> bool, i: int) -> int
    decreases s.len() - i,
{
    if i < 0 || i >= s.len() || !p(s[i]) {
        i
    } else {
        skip_while_start(s, p, i + 1)
    }
}

/// The end of the longest suffix before `e` made of characters passing `p`.
pub open spec fn skip_while_end(s: Seq<char>, p: spec_fn(char) -> bool, e: int) -> int
    decreases e,
{
    if e <= 0 || e > s.len() || !p(s[e - 1]) {
        e
    } else {
        skip_while_end(s, p, e - 1)
    }
}

/// `s` with the characters passing `p` removed from both ends.
pub open spec fn trim_by(s: Seq<char>, p: spec_fn(char) -> bool) -> Seq<char> {
    let a = skip_while_start(s, p, 0);
    let b = skip_while_end(s, p, s.len() as int);
    if a < b {
        s.subrange(a, b)
    } else {
        Seq::empty()
    }
}

pub open spec fn ws_pred() -> spec_fn(char) -> bool {
    |c: char| is_space_char(c)
}

pub open spec fn slash_pred() -> spec_fn(char) -> bool {
    |c: char| c == '/' || c == '\\'
}

/// `s` trimmed of whitespace, as `str::trim` leaves it.
pub open spec fn trim_ws(s: Seq<char>) -> Seq<char> {
    trim_by(s, ws_pred())
}

/// `s` trimmed of `'/'` and `'\\'` at both ends.
pub open spec fn trim_slashes(s: Seq<char>) -> Seq<char> {
    trim_by(s, slash_pred())
}

proof fn lemma_skip_end_zero(s: Seq<char>, p: spec_fn(char) -> bool, e: int)
    requires
        0 <= e <= s.len(),
        forall|j: int| 0 <= j < e ==> p(s[j]),
    ensures
        skip_while_end(s, p, e) == 0,
    decreases e,
{
    if e > 0 {
        lemma_skip_end_zero(s, p, e - 1);
    }
}

fn trim_pred(c: char, slashes: bool) -> (r: bool)
    ensures
        !slashes ==> r == is_space_char(c),
        slashes ==> r == (c == '/' || c == '\\'),
{
    if slashes {
        c == '/' || c == '\\'
    } else {
        char_is_space(c)
    }
}

#[verifier::loop_isolation(false)]
fn trim_chars_by_space(v: &Vec<char>, slashes: bool) -> (r: Vec<char>)
    ensures
        !slashes ==> r@ == trim_ws(v@),
        slashes ==> r@ == trim_slashes(v@),
{
    let ghost p: spec_fn(char) -> bool = if slashes {
        slash_pred()
    } else {
        ws_pred()
    };
    proof {
        assert(forall|c: char| #[trigger] p(c) == if slashes {
            c == '/' || c == '\\'
        } else {
            is_space_char(c)
        });
    }
    let n = v.len();
    let mut a: usize = 0;
    while a < n && trim_pred(v[a], slashes)
        invariant
            n == v@.len(),
            0 <= a <= n,
            skip_while_start(v@, p, 0) == skip_while_start(v@, p, a as int),
            forall|j: int| 0 <= j < a ==> p(v@[j]),
        decreases n - a,
    {
        proof {
            assert(skip_while_start(v@, p, a as int) == skip_while_start(v@, p, a + 1));
        }
        a += 1;
    }
    proof {
        assert(skip_while_start(v@, p, a as int) == a as int);
    }
    let mut b: usize = n;
    if a == n {
        let r: Vec<char> = Vec::new();
        proof {
            lemma_skip_end_zero(v@, p, n as int);
        }
        return r;
    }
    while b > a && trim_pred(v[b - 1], slashes)
        invariant
            n == v@.len(),
            a < n,
            a <= b <= n,
            forall|j: int| 0 <= j < a ==> p(v@[j]),
            skip_while_start(v@, p, 0) == a as int,
            !p(v@[a as int]),
            skip_while_end(v@, p, n as int) == skip_while_end(v@, p, b as int),
        decreases b,
    {
        proof {
            assert(skip_while_end(v@, p, b as int) == skip_while_end(v@, p, b - 1));
        }
        b -= 1;
    }
    proof {
        if b == a {
            lemma_skip_end_zero(v@, p, a as int);
        } else {
            assert(skip_while_end(v@, p, b as int) == b as int);
        }
    }
    let mut out: Vec<char> = Vec::new();
    let mut k: usize = a;
    while k < b
        invariant
            a <= k <= b <= n,
            n == v@.len(),
            out@ == v@.subrange(a as int, k as int),
        decreases b - k,
    {
        out.push(v[k]);
        proof {
            assert(v@.subrange(a as int, k + 1) =~= v@.subrange(a as int, k as int).push(
                v@[k as int],
            ));
        }
        k += 1;
    }
    out
}

/// `v` trimmed of whitespace at both ends.
pub fn trim_ws_chars(v: &Vec<char>) -> (r: Vec<char>)
    ensures
        r@ == trim_ws(v@),
{
    trim_chars_by_space(v, false)
}

/// `v` trimmed of slashes and backslashes at both ends.
pub fn trim_slash_chars(v: &Vec<char>) -> (r: Vec<char>)
    ensures
        r@ == trim_slashes(v@),
{
    trim_chars_by_space(v, true)
}

/// Whether `pat` occurs in `text` at position `i`, by direct comparison.
pub fn match_at(text: &Vec<char>, pat: &Vec<char>, i: usize) -> (r: bool)
    ensures
        r == occurs_at(text@, pat@, i as int),
{
    if pat.len() > text.len() || i > text.len() - pat.len() {
        return false;
    }
    let n = text.len();
    let mut j: usize = 0;
    while j < pat.len()
        invariant
            n == text@.len(),
            i + pat@.len() <= text@.len(),
            j <= pat@.len(),
            forall|k: int| 0 <= k < j ==> text@[i + k] == pat@[k],
        decreases pat@.len() - j,
    {
        if text[i + j] != pat[j] {
            assert(!occurs_at(text@, pat@, i as int)) by {
                if occurs_at(text@, pat@, i as int) {
                    assert(text@.subrange(i as int, i + pat@.len() as int)[j as int]
                        == pat@[j as int]);
                }
            }
            return false;
        }
        j += 1;
    }
    proof {
        assert(text@.subrange(i as int, i + pat@.len() as int) =~= pat@);
    }
    true
}

/// The first occurrence of `pat` in `text` at or after `from`.
pub fn find_from(text: &Vec<char>, pat: &Vec<char>, from: usize) -> (r: Option<usize>)
    ensures
        ({
            let s = spec_find(text@, pat@, from as int);
            match r {
                Some(i) => s == Some(i as int) && from <= i,
                None => s is None,
            }
        }),
{
    if from > text.len() {
        return None;
    }
    if pat.len() == 0 {
        return Some(from);
    }
    if pat.len() > text.len() {
        return None;
    }
    let mut i: usize = from;
    while i <= text.len() - pat.len()
        invariant
            0 < pat@.len() <= text@.len(),
            from <= i,
            i <= text@.len(),
            spec_find(text@, pat@, from as int) == spec_find(text@, pat@, i as int),
        decreases text@.len() - i,
    {
        if match_at(text, pat, i) {
            return Some(i);
        }
        proof {
            assert(spec_find(text@, pat@, i as int) == spec_find(text@, pat@, i + 1));
        }
        i += 1;
    }
    None
}

/// The last occurrence of the character `c` strictly before `upto`.
pub fn rfind_char_before(text: &Vec<char>, c: char, upto: usize) -> (r: Option<usize>)
    requires
        upto <= text@.len(),
    ensures
        ({
            let s = spec_rfind_char(text@, c, upto as int);
            match r {
                Some(i) => s == Some(i as int) && i < upto,
                None => s is None,
            }
        }),
{
    let mut u: usize = upto;
    while u > 0
        invariant
            u <= upto <= text@.len(),
            spec_rfind_char(text@, c, upto as int) == spec_rfind_char(text@, c, u as int),
        decreases u,
    {
        if text[u - 1] == c {
            proof {
                assert(spec_rfind_char(text@, c, u as int) == Some(u - 1 as int));
            }
            return Some(u - 1);
        }
        proof {
            assert(spec_rfind_char(text@, c, u as int) == spec_rfind_char(text@, c, u - 1 as int));
        }
        u -= 1;
    }
    None
}

/// The characters of `v` from `a` up to `b`.
pub fn subrange_chars(v: &Vec<char>, a: usize, b: usize) -> (r: Vec<char>)
    requires
        a <= b <= v@.len(),
    ensures
        r@ == v@.subrange(a as int, b as int),
{
    let mut out: Vec<char> = Vec::new();
    let mut k = a;
    while k < b
        invariant
            a <= k <= b <= v@.len(),
            out@ == v@.subrange(a as int, k as int),
        decreases b - k,
    {
        out.push(v[k]);
        proof {
            assert(v@.subrange(a as int, k + 1) =~= v@.subrange(a as int, k as int).push(
                v@[k as int],
            ));
        }
        k += 1;
    }
    out
}

/// Character-wise string equality, equivalent to `==` on `&str`.
pub fn eq_str(a: &str, b: &str) -> (r: bool)
    ensures
        r == (a@ == b@),
{
    let n = a.unicode_len();
    if n != b.unicode_len() {
        return false;
    }
    let mut i: usize = 0;
    while i < n
        invariant
            n == a@.len(),
            n == b@.len(),
            i <= n,
            forall|j: int| 0 <= j < i ==> a@[j] == b@[j],
        decreases n - i,
    {
        if a.get_char(i) != b.get_char(i) {
            return false;
        }
        i += 1;
    }
    proof {
        assert(a@ =~= b@);
    }
    true
}

} // verus!
