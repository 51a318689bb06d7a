//! The snapshot codec: the persisted index as one JSON document,
//! `{"docs":[...],"inverted":{...}}`, rendered canonically and parsed back.
//! Parsing inverts rendering exactly, which is what makes saving and
//! reloading lossless.

use vstd::prelude::*;

use crate::text::occurs_at;
use crate::index::DocView;
use crate::index::TermView;
use crate::index::IndexView;
use crate::index::Doc;
use crate::index::Posting;
use crate::index::TermPostings;
use crate::index::PersistedIndex;
use crate::index::Index;
use crate::index::docs_vw;
use crate::index::inv_vw;
use crate::index::posts_vw;

verus! {

pub open spec fn is_digit(c: char) -> bool {
    '0' <= c && c <= '9'
}

pub open spec fn digit_val(c: char) -> int {
    (c as u32) - 48
}

pub open spec fn digit_char(d: nat) -> char {
    (((48 + d) as u8) as char)
}

/// The decimal digits of `n`, most significant first, no leading zeros.
pub open spec fn dec_digits(n: nat) -> Seq<char>
    decreases n,
{
    if n < 10 {
        seq![digit_char(n)]
    } else {
        dec_digits(n / 10).push(digit_char(n % 10))
    }
}

pub open spec fn pow10(k: nat) -> nat
    decreases k,
{
    if k == 0 {
        1
    } else {
        10 * pow10((k - 1) as nat)
    }
}

/// Greedy decimal scan: extend `acc` with digits until a non-digit; fail on
/// overflow past `u64::MAX`.
pub open spec fn parse_num_loop(s: Seq<char>, i: int, acc: nat) -> Option<(nat, int)>
    decreases s.len() - i,
{
    if i < 0 || i >= s.len() || !is_digit(s[i]) {
        Some((acc, i))
    } else {
        let acc2 = acc * 10 + digit_val(s[i]);
        if acc2 > 0xFFFF_FFFF_FFFF_FFFF {
            None
        } else {
            parse_num_loop(s, i + 1, acc2 as nat)
        }
    }
}

/// A decimal `u64` starting at `i`: at least one digit, greedily consumed.
pub open spec fn parse_u64_at(s: Seq<char>, i: int) -> Option<(u64, int)> {
    if 0 <= i < s.len() && is_digit(s[i]) {
        match parse_num_loop(s, i, 0) {
            Some((v, j)) => Some((v as u64, j)),
            None => None,
        }
    } else {
        None
    }
}

pub proof fn lemma_dec_digits_shape(n: nat)
    ensures
        dec_digits(n).len() >= 1,
        forall|k: int| 0 <= k < dec_digits(n).len() ==> is_digit(#[trigger] dec_digits(n)[k]),
    decreases n,
{
    if n >= 10 {
        lemma_dec_digits_shape(n / 10);
    }
}

/// Scanning the digits of `n` from accumulator `acc` lands after them with
/// `acc` shifted past and `n` added.
proof fn lemma_num_scan(s: Seq<char>, i: int, n: nat, acc: nat)
    requires
        occurs_at(s, dec_digits(n), i),
        acc * pow10(dec_digits(n).len() as nat) + n <= 0xFFFF_FFFF_FFFF_FFFF,
    ensures
        parse_num_loop(s, i, acc) == parse_num_loop(
            s,
            i + dec_digits(n).len(),
            (acc * pow10(dec_digits(n).len() as nat) + n) as nat,
        ),
    decreases n,
{
    let ds = dec_digits(n);
    let l = ds.len() as int;
    lemma_dec_digits_shape(n);
    assert(s.subrange(i, i + l) == ds);
    if n < 10 {
        assert(s[i] == ds[0]);
        assert(ds[0] == digit_char(n));
        assert(is_digit(s[i]));
        assert(digit_val(digit_char(n)) == n);
        assert(pow10(0) == 1);
        assert(pow10(1) == 10);
        assert(acc * 10 + n <= 0xFFFF_FFFF_FFFF_FFFF);
    } else {
        let ds0 = dec_digits(n / 10);
        let l0 = ds0.len() as int;
        assert(ds == ds0.push(digit_char(n % 10)));
        assert(occurs_at(s, ds0, i)) by {
            assert(s.subrange(i, i + l0) =~= ds.subrange(0, l0));
            assert(ds.subrange(0, l0) =~= ds0);
        }
        assert(pow10(ds.len() as nat) == 10 * pow10(ds0.len() as nat));
        let mid = acc * pow10(ds0.len() as nat) + n / 10;
        assert(mid * 10 + n % 10 == acc * pow10(ds.len() as nat) + n) by (nonlinear_arith)
            requires
                mid == acc * pow10(ds0.len() as nat) + n / 10,
                pow10(ds.len() as nat) == 10 * pow10(ds0.len() as nat),
                n >= 10,
        ;
        assert(mid <= acc * pow10(ds.len() as nat) + n) by (nonlinear_arith)
            requires
                mid * 10 + n % 10 == acc * pow10(ds.len() as nat) + n,
                n % 10 >= 0,
        ;
        lemma_num_scan(s, i, n / 10, acc);
        assert(s[i + l0] == ds[l0]);
        assert(ds[l0] == digit_char(n % 10));
        assert(is_digit(s[i + l0]));
        assert(digit_val(digit_char(n % 10)) == n % 10);
        assert(parse_num_loop(s, i + l0, mid) == parse_num_loop(s, i + l, (mid * 10 + n % 10) as nat));
    }
}

/// Parsing right after rendering a number gives the number back, when the
/// next character is not a digit.
pub proof fn lemma_u64_inv(s: Seq<char>, i: int, n: u64)
    requires
        occurs_at(s, dec_digits(n as nat), i),
        i + dec_digits(n as nat).len() == s.len() || !is_digit(
            s[i + dec_digits(n as nat).len()],
        ),
    ensures
        parse_u64_at(s, i) == Some((n, i + dec_digits(n as nat).len())),
{
    let ds = dec_digits(n as nat);
    let l = ds.len() as int;
    lemma_dec_digits_shape(n as nat);
    assert(s.subrange(i, i + l) == ds);
    assert(s[i] == ds[0]);
    assert(is_digit(s[i]));
    assert(pow10(ds.len() as nat) >= 1) by {
        lemma_pow10_pos(ds.len() as nat);
    }
    lemma_num_scan(s, i, n as nat, 0);
    assert(parse_num_loop(s, i + l, n as nat) == Some((n as nat, i + l)));
}

proof fn lemma_pow10_pos(k: nat)
    ensures
        pow10(k) >= 1,
    decreases k,
{
    if k > 0 {
        lemma_pow10_pos((k - 1) as nat);
    }
}

/// Append the decimal digits of `n` to `out`.
#[verifier::loop_isolation(false)]
pub fn push_u64(out: &mut Vec<char>, n: u64)
    ensures
        final(out)@ == old(out)@ + dec_digits(n as nat),
{
    let mut tmp: Vec<char> = Vec::new();
    let mut v = n;
    if v == 0 {
        out.push('0');
        proof {
            assert(dec_digits(0) =~= seq!['0']);
            assert(out@ =~= old(out)@ + dec_digits(0));
        }
        return ;
    }
    let ghost n0 = n as nat;
    while v > 0
        invariant
            v <= n,
            v > 0 ==> dec_digits(n as nat) == dec_digits(v as nat) + tmp@,
            v == 0 ==> n > 0 && dec_digits(n as nat) == tmp@,
        decreases v,
    {
        let d = (v % 10) as u8;
        let c = (48 + d) as char;
        let ghost prev = tmp@;
        tmp.insert(0, c);
        proof {
            assert(c == digit_char((v % 10) as nat));
            assert(tmp@ =~= seq![c] + prev);
            if v >= 10 {
                assert(dec_digits(v as nat) =~= dec_digits((v / 10) as nat) + seq![c]);
                assert(dec_digits((v / 10) as nat) + (seq![c] + prev) =~= (dec_digits(
                    (v / 10) as nat,
                ) + seq![c]) + prev);
            } else {
                assert(dec_digits(v as nat) =~= seq![c]);
            }
        }
        v = v / 10;
    }
    let mut k: usize = 0;
    while k < tmp.len()
        invariant
            k <= tmp@.len(),
            out@ == old(out)@ + tmp@.take(k as int),
        decreases tmp@.len() - k,
    {
        out.push(tmp[k]);
        proof {
            assert(old(out)@ + tmp@.take(k + 1) =~= (old(out)@ + tmp@.take(k as int)).push(
                tmp@[k as int],
            ));
        }
        k += 1;
    }
    proof {
        assert(tmp@.take(tmp@.len() as int) =~= tmp@);
    }
}

pub open spec fn hex_char(d: nat) -> char {
    if d < 10 {
        digit_char(d)
    } else {
        (((87 + d) as u8) as char)
    }
}

pub proof fn lemma_hex_char(d: nat)
    requires
        d < 16,
    ensures
        is_hex(hex_char(d)),
        hex_val(hex_char(d)) == d,
{
    if d < 10 {
        assert(hex_char(d) == digit_char(d));
        assert(digit_char(d) as u32 == 48 + d);
    } else {
        assert(hex_char(d) as u32 == 87 + d);
    }
}

pub open spec fn is_hex(c: char) -> bool {
    is_digit(c) || ('a' <= c && c <= 'f') || ('A' <= c && c <= 'F')
}

pub open spec fn hex_val(c: char) -> int {
    if is_digit(c) {
        digit_val(c)
    } else if 'a' <= c && c <= 'f' {
        (c as u32) - 87
    } else {
        (c as u32) - 55
    }
}

/// The JSON escape of one character: quote and backslash are escaped, a
/// control character becomes `\u00XX`, everything else stands as itself.
pub open spec fn esc_char(c: char) -> Seq<char> {
    if c == '"' {
        seq!['\\', '"']
    } else if c == '\\' {
        seq!['\\', '\\']
    } else if (c as u32) < 32 {
        seq![
            '\\',
            'u',
            '0',
            '0',
            hex_char(((c as u32) / 16) as nat),
            hex_char(((c as u32) % 16) as nat),
        ]
    } else {
        seq![c]
    }
}

/// The escaped body of a JSON string.
pub open spec fn esc_str(t: Seq<char>) -> Seq<char>
    decreases t.len(),
{
    if t.len() == 0 {
        Seq::empty()
    } else {
        esc_char(t[0]) + esc_str(t.drop_first())
    }
}

/// A JSON string with its quotes.
pub open spec fn render_string(t: Seq<char>) -> Seq<char> {
    seq!['"'] + esc_str(t) + seq!['"']
}

pub proof fn lemma_esc_str_push(t: Seq<char>, c: char)
    ensures
        esc_str(t.push(c)) == esc_str(t) + esc_char(c),
    decreases t.len(),
{
    if t.len() == 0 {
        assert(t.push(c)[0] == c);
        assert(t.push(c).drop_first() =~= t);
        assert(esc_str(t) =~= Seq::<char>::empty());
        assert(esc_str(t.push(c)) == esc_char(c) + esc_str(t));
        assert(esc_char(c) + esc_str(t) =~= esc_str(t) + esc_char(c));
    } else {
        assert(t.push(c).drop_first() =~= t.drop_first().push(c));
        lemma_esc_str_push(t.drop_first(), c);
        assert(esc_char(t[0]) + (esc_str(t.drop_first()) + esc_char(c)) =~= (esc_char(t[0])
            + esc_str(t.drop_first())) + esc_char(c));
    }
}

/// The body of a string from position `i` on: raw characters and escapes
/// accumulate onto `acc` until the closing quote.
pub open spec fn parse_str_chars(s: Seq<char>, i: int, acc: Seq<char>) -> Option<(Seq<char>, int)>
    decreases s.len() - i,
{
    if i < 0 || i >= s.len() {
        None
    } else if s[i] == '"' {
        Some((acc, i + 1))
    } else if s[i] == '\\' {
        if i + 1 >= s.len() {
            None
        } else if s[i + 1] == '"' {
            parse_str_chars(s, i + 2, acc.push('"'))
        } else if s[i + 1] == '\\' {
            parse_str_chars(s, i + 2, acc.push('\\'))
        } else if s[i + 1] == 'u' {
            if i + 5 < s.len() && s[i + 2] == '0' && s[i + 3] == '0' && is_hex(s[i + 4]) && is_hex(
                s[i + 5],
            ) {
                parse_str_chars(
                    s,
                    i + 6,
                    acc.push(((hex_val(s[i + 4]) * 16 + hex_val(s[i + 5])) as char)),
                )
            } else {
                None
            }
        } else {
            None
        }
    } else {
        parse_str_chars(s, i + 1, acc.push(s[i]))
    }
}

/// A quoted JSON string at position `i`.
pub open spec fn parse_string_at(s: Seq<char>, i: int) -> Option<(Seq<char>, int)> {
    if 0 <= i < s.len() && s[i] == '"' {
        parse_str_chars(s, i + 1, Seq::empty())
    } else {
        None
    }
}

/// Parsing the escaped body of `t` followed by a closing quote recovers `t`.
pub proof fn lemma_str_chars_inv(s: Seq<char>, i: int, t: Seq<char>, acc: Seq<char>)
    requires
        occurs_at(s, esc_str(t) + seq!['"'], i),
    ensures
        parse_str_chars(s, i, acc) == Some((acc + t, i + esc_str(t).len() + 1)),
    decreases t.len(),
{
    let pat = esc_str(t) + seq!['"'];
    let l = pat.len() as int;
    assert(s.subrange(i, i + l) == pat);
    if t.len() == 0 {
        assert(s.subrange(i, i + l)[0] == s[i]);
        assert(s[i] == '"');
        assert(acc + t =~= acc);
    } else {
        let e = esc_char(t[0]);
        let rest = esc_str(t.drop_first()) + seq!['"'];
        assert(esc_str(t) == e + esc_str(t.drop_first()));
        assert(pat =~= e + rest);
        assert forall|k: int| 0 <= k < l implies s[i + k] == pat[k] by {
            assert(s.subrange(i, i + l)[k] == s[i + k]);
        }
        assert(occurs_at(s, rest, i + e.len())) by {
            assert(s.subrange(i + e.len(), i + e.len() + rest.len() as int) =~= pat.subrange(
                e.len() as int,
                l,
            ));
            assert(pat.subrange(e.len() as int, l) =~= rest);
        }
        let c = t[0];
        assert forall|k: int| 0 <= k < e.len() implies s[i + k] == e[k] by {
            assert(s[i + k] == pat[k]);
            assert(pat[k] == e[k]);
        }
        if c == '"' {
            assert(s[i + 0] == e[0] && s[i + 1] == e[1]);
            assert(s[i] == '\\' && s[i + 1] == '"');
            lemma_str_chars_inv(s, i + 2, t.drop_first(), acc.push(c));
            assert(acc.push(c) + t.drop_first() =~= acc + t);
        } else if c == '\\' {
            assert(s[i + 0] == e[0] && s[i + 1] == e[1]);
            assert(s[i] == '\\' && s[i + 1] == '\\');
            lemma_str_chars_inv(s, i + 2, t.drop_first(), acc.push(c));
            assert(acc.push(c) + t.drop_first() =~= acc + t);
        } else if (c as u32) < 32 {
            assert(s[i + 0] == e[0] && s[i + 1] == e[1] && s[i + 2] == e[2] && s[i + 3] == e[3]
                && s[i + 4] == e[4] && s[i + 5] == e[5]);
            assert(s[i] == '\\' && s[i + 1] == 'u' && s[i + 2] == '0' && s[i + 3] == '0');
            assert(s[i + 4] == hex_char(((c as u32) / 16) as nat));
            assert(s[i + 5] == hex_char(((c as u32) % 16) as nat));
            lemma_hex_char(((c as u32) / 16) as nat);
            lemma_hex_char(((c as u32) % 16) as nat);
            assert(is_hex(s[i + 4]) && is_hex(s[i + 5]));
            assert(hex_val(s[i + 4]) == (c as u32) / 16);
            assert(hex_val(s[i + 5]) == (c as u32) % 16);
            assert(((c as u32) / 16) * 16 + (c as u32) % 16 == (c as u32));
            vstd::utf8::char_u32_cast(c, c as u32);
            assert(((hex_val(s[i + 4]) * 16 + hex_val(s[i + 5])) as char) == c);
            lemma_str_chars_inv(s, i + 6, t.drop_first(), acc.push(c));
            assert(acc.push(c) + t.drop_first() =~= acc + t);
        } else {
            assert(s[i + 0] == e[0]);
            assert(s[i] == c);
            assert((c as u32) >= 32);
            assert(s[i] != '"' && s[i] != '\\');
            lemma_str_chars_inv(s, i + 1, t.drop_first(), acc.push(c));
            assert(acc.push(c) + t.drop_first() =~= acc + t);
        }
    }
}

/// Parsing a rendered string recovers the string.
pub proof fn lemma_string_inv(s: Seq<char>, i: int, t: Seq<char>)
    requires
        occurs_at(s, render_string(t), i),
    ensures
        parse_string_at(s, i) == Some((t, i + render_string(t).len())),
{
    let pat = render_string(t);
    let l = pat.len() as int;
    assert(s.subrange(i, i + l) == pat);
    assert(s.subrange(i, i + l)[0] == s[i]);
    assert(s[i] == '"');
    assert(occurs_at(s, esc_str(t) + seq!['"'], i + 1)) by {
        assert(s.subrange(i + 1, i + l) =~= pat.subrange(1, l));
        assert(pat.subrange(1, l) =~= esc_str(t) + seq!['"']);
    }
    lemma_str_chars_inv(s, i + 1, t, Seq::empty());
    assert(Seq::<char>::empty() + t =~= t);
}

/// Append one escaped character to `out`.
fn push_esc_char(out: &mut Vec<char>, c: char)
    ensures
        final(out)@ == old(out)@ + esc_char(c),
{
    if c == '"' {
        out.push('\\');
        out.push('"');
        proof {
            assert(out@ =~= old(out)@ + esc_char(c));
        }
    } else if c == '\\' {
        out.push('\\');
        out.push('\\');
        proof {
            assert(out@ =~= old(out)@ + esc_char(c));
        }
    } else if (c as u32) < 32 {
        let code = c as u32;
        let hi = (code / 16) as u8;
        let lo = (code % 16) as u8;
        let hic = if hi < 10 {
            (48 + hi) as char
        } else {
            (87 + hi) as char
        };
        let loc = if lo < 10 {
            (48 + lo) as char
        } else {
            (87 + lo) as char
        };
        out.push('\\');
        out.push('u');
        out.push('0');
        out.push('0');
        out.push(hic);
        out.push(loc);
        proof {
            assert(hic == hex_char(((c as int) / 16) as nat));
            assert(loc == hex_char(((c as int) % 16) as nat));
            assert(out@ =~= old(out)@ + esc_char(c));
        }
    } else {
        out.push(c);
        proof {
            assert(out@ =~= old(out)@ + esc_char(c));
        }
    }
}

/// Append `t` as a quoted, escaped JSON string to `out`.
#[verifier::loop_isolation(false)]
pub fn push_string(out: &mut Vec<char>, t: &str)
    ensures
        final(out)@ == old(out)@ + render_string(t@),
{
    let chars = crate::text::str_to_chars(t);
    out.push('"');
    let ghost base = out@;
    let mut k: usize = 0;
    proof {
        assert(esc_str(t@.take(0)) =~= Seq::<char>::empty());
        assert(base + Seq::<char>::empty() =~= base);
    }
    while k < chars.len()
        invariant
            k <= chars@.len(),
            chars@ == t@,
            out@ == base + esc_str(t@.take(k as int)),
        decreases chars@.len() - k,
    {
        let ghost before = out@;
        push_esc_char(out, chars[k]);
        proof {
            assert(t@.take(k + 1) =~= t@.take(k as int).push(t@[k as int]));
            lemma_esc_str_push(t@.take(k as int), t@[k as int]);
            assert(out@ =~= base + esc_str(t@.take(k + 1)));
        }
        k += 1;
    }
    out.push('"');
    proof {
        assert(t@.take(t@.len() as int) =~= t@);
        assert(out@ =~= old(out)@ + render_string(t@));
    }
}

/// Parse a quoted JSON string at position `i`.
#[verifier::loop_isolation(false)]
pub fn parse_string(s: &Vec<char>, i: usize) -> (r: Option<(String, usize)>)
    ensures
        ({
            let sp = parse_string_at(s@, i as int);
            match r {
                Some(p) => sp == Some((p.0@, p.1 as int)) && i < p.1 <= s@.len(),
                None => sp is None,
            }
        }),
{
    if i >= s.len() || s[i] != '"' {
        return None;
    }
    let mut acc: Vec<char> = Vec::new();
    let mut j = i + 1;
    proof {
        assert(acc@ =~= Seq::<char>::empty());
    }
    loop
        invariant
            i + 1 <= j <= s@.len(),
            parse_string_at(s@, i as int) == parse_str_chars(s@, j as int, acc@),
        decreases s@.len() - j,
    {
        if j >= s.len() {
            return None;
        }
        let c = s[j];
        if c == '"' {
            let t = crate::text::chars_to_string(&acc);
            return Some((t, j + 1));
        } else if c == '\\' {
            if j + 1 >= s.len() {
                return None;
            }
            let e = s[j + 1];
            if e == '"' {
                acc.push('"');
                j = j + 2;
            } else if e == '\\' {
                acc.push('\\');
                j = j + 2;
            } else if e == 'u' {
                if s.len() - j > 5 && s[j + 2] == '0' && s[j + 3] == '0' && hex_ok(s[j + 4])
                    && hex_ok(s[j + 5]) {
                    let code = hex_value(s[j + 4]) * 16 + hex_value(s[j + 5]);
                    acc.push((code as u8) as char);
                    proof {
                        assert(code as int == hex_val(s@[j + 4]) * 16 + hex_val(s@[j + 5]));
                    }
                    j = j + 6;
                } else {
                    return None;
                }
            } else {
                return None;
            }
        } else {
            acc.push(c);
            j = j + 1;
        }
    }
}

fn hex_ok(c: char) -> (r: bool)
    ensures
        r == is_hex(c),
{
    (c >= '0' && c <= '9') || (c >= 'a' && c <= 'f') || (c >= 'A' && c <= 'F')
}

fn hex_value(c: char) -> (r: u32)
    requires
        is_hex(c),
    ensures
        r as int == hex_val(c),
        r < 16,
{
    if c >= '0' && c <= '9' {
        (c as u32) - 48
    } else if c >= 'a' && c <= 'f' {
        (c as u32) - 87
    } else {
        (c as u32) - 55
    }
}

/// Splitting a concatenated occurrence into its two halves.
pub proof fn lemma_occurs_split(s: Seq<char>, a: Seq<char>, b: Seq<char>, i: int)
    requires
        occurs_at(s, a + b, i),
    ensures
        occurs_at(s, a, i),
        occurs_at(s, b, i + a.len()),
{
    let l = (a + b).len() as int;
    assert(s.subrange(i, i + l) == a + b);
    assert(s.subrange(i, i + a.len() as int) =~= (a + b).subrange(0, a.len() as int));
    assert((a + b).subrange(0, a.len() as int) =~= a);
    assert(s.subrange(i + a.len(), i + l) =~= (a + b).subrange(a.len() as int, l));
    assert((a + b).subrange(a.len() as int, l) =~= b);
}

/// One posting as JSON: `[id,tf]`.
pub open spec fn render_posting(p: (u64, u32)) -> Seq<char> {
    seq!['['] + dec_digits(p.0 as nat) + seq![','] + dec_digits(p.1 as nat) + seq![']']
}

/// The posting list from index `k` on, comma separated.
pub open spec fn render_postings(ps: Seq<(u64, u32)>, k: int) -> Seq<char>
    decreases ps.len() - k,
{
    if k < 0 || k >= ps.len() {
        Seq::empty()
    } else {
        (if k > 0 {
            seq![',']
        } else {
            Seq::empty()
        }) + render_posting(ps[k]) + render_postings(ps, k + 1)
    }
}

/// One inverted-index bucket as a JSON object member: `"term":[postings]`.
pub open spec fn render_entry(t: TermView) -> Seq<char> {
    render_string(t.term) + seq![':', '['] + render_postings(t.posts, 0) + seq![']']
}

/// The buckets from index `k` on, comma separated.
pub open spec fn render_entries(inv: Seq<TermView>, k: int) -> Seq<char>
    decreases inv.len() - k,
{
    if k < 0 || k >= inv.len() {
        Seq::empty()
    } else {
        (if k > 0 {
            seq![',']
        } else {
            Seq::empty()
        }) + render_entry(inv[k]) + render_entries(inv, k + 1)
    }
}

pub open spec fn key_id() -> Seq<char> {
    seq!['"', 'i', 'd', '"', ':']
}

pub open spec fn key_url() -> Seq<char> {
    seq![',', '"', 'u', 'r', 'l', '"', ':']
}

pub open spec fn key_title() -> Seq<char> {
    seq![',', '"', 't', 'i', 't', 'l', 'e', '"', ':']
}

pub open spec fn key_content() -> Seq<char> {
    seq![',', '"', 'c', 'o', 'n', 't', 'e', 'n', 't', '"', ':']
}

pub open spec fn key_created() -> Seq<char> {
    seq![',', '"', 'c', 'r', 'e', 'a', 't', 'e', 'd', '_', 'a', 't', '"', ':']
}

/// One document as a JSON object with its five fields in fixed order.
pub open spec fn render_doc(d: DocView) -> Seq<char> {
    seq!['{'] + key_id() + dec_digits(d.id as nat) + key_url() + render_string(d.url)
        + key_title() + render_string(d.title) + key_content() + render_string(d.content)
        + key_created() + dec_digits(d.created_at as nat) + seq!['}']
}

/// The documents from index `k` on, comma separated.
pub open spec fn render_docs(docs: Seq<DocView>, k: int) -> Seq<char>
    decreases docs.len() - k,
{
    if k < 0 || k >= docs.len() {
        Seq::empty()
    } else {
        (if k > 0 {
            seq![',']
        } else {
            Seq::empty()
        }) + render_doc(docs[k]) + render_docs(docs, k + 1)
    }
}

pub open spec fn key_docs() -> Seq<char> {
    seq!['{', '"', 'd', 'o', 'c', 's', '"', ':', '[']
}

pub open spec fn key_inverted() -> Seq<char> {
    seq![']', ',', '"', 'i', 'n', 'v', 'e', 'r', 't', 'e', 'd', '"', ':', '{']
}

/// The whole snapshot: `{"docs":[...],"inverted":{...}}`.
pub open spec fn render_snapshot(v: IndexView) -> Seq<char> {
    key_docs() + render_docs(v.docs, 0) + key_inverted() + render_entries(v.inverted, 0) + seq![
        '}',
        '}',
    ]
}

/// Parse a decimal `u64` at position `i`.
#[verifier::loop_isolation(false)]
pub fn parse_u64(s: &Vec<char>, i: usize) -> (r: Option<(u64, usize)>)
    ensures
        ({
            let sp = parse_u64_at(s@, i as int);
            match r {
                Some((v, j)) => sp == Some((v, j as int)) && i < j <= s@.len(),
                None => sp is None,
            }
        }),
{
    if i >= s.len() || !(s[i] >= '0' && s[i] <= '9') {
        return None;
    }
    let mut j = i;
    let mut acc: u64 = 0;
    while j < s.len() && s[j] >= '0' && s[j] <= '9'
        invariant
            i <= j <= s@.len(),
            parse_num_loop(s@, i as int, 0) == parse_num_loop(s@, j as int, acc as nat),
        decreases s@.len() - j,
    {
        let d = (s[j] as u32) - 48;
        if acc > 0xFFFF_FFFF_FFFF_FFFFu64 / 10 {
            proof {
                assert(acc as nat * 10 + digit_val(s@[j as int]) > 0xFFFF_FFFF_FFFF_FFFF)
                    by (nonlinear_arith)
                    requires
                        acc > 0xFFFF_FFFF_FFFF_FFFFu64 / 10,
                        digit_val(s@[j as int]) >= 0,
                ;
            }
            return None;
        }
        let acc10 = acc * 10;
        if acc10 > 0xFFFF_FFFF_FFFF_FFFFu64 - (d as u64) {
            return None;
        }
        acc = acc10 + (d as u64);
        j += 1;
    }
    Some((acc, j))
}


/// Progress of the decimal scanner.
pub proof fn lemma_num_loop_progress(s: Seq<char>, i: int, acc: nat)
    requires
        0 <= i <= s.len(),
    ensures
        match parse_num_loop(s, i, acc) {
            Some(p) => i <= p.1 <= s.len(),
            None => true,
        },
    decreases s.len() - i,
{
    if i < s.len() && is_digit(s[i]) {
        let acc2 = acc * 10 + digit_val(s[i]);
        if acc2 <= 0xFFFF_FFFF_FFFF_FFFF {
            lemma_num_loop_progress(s, i + 1, acc2 as nat);
        }
    }
}

/// Progress of the number parser.
pub proof fn lemma_u64_progress(s: Seq<char>, i: int)
    ensures
        match parse_u64_at(s, i) {
            Some(p) => i < p.1 <= s.len(),
            None => true,
        },
{
    if 0 <= i < s.len() && is_digit(s[i]) {
        let acc2 = digit_val(s[i]);
        if 0 * 10 + acc2 <= 0xFFFF_FFFF_FFFF_FFFF {
            lemma_num_loop_progress(s, i + 1, acc2 as nat);
        }
    }
}

/// Progress of the string-body parser.
pub proof fn lemma_str_chars_progress(s: Seq<char>, i: int, acc: Seq<char>)
    ensures
        match parse_str_chars(s, i, acc) {
            Some(p) => i < p.1 <= s.len(),
            None => true,
        },
    decreases s.len() - i,
{
    if 0 <= i < s.len() {
        if s[i] == '"' {
        } else if s[i] == '\\' {
            if i + 1 < s.len() {
                if s[i + 1] == '"' {
                    lemma_str_chars_progress(s, i + 2, acc.push('"'));
                } else if s[i + 1] == '\\' {
                    lemma_str_chars_progress(s, i + 2, acc.push('\\'));
                } else if s[i + 1] == 'u' {
                    if i + 5 < s.len() && s[i + 2] == '0' && s[i + 3] == '0' && is_hex(s[i + 4])
                        && is_hex(s[i + 5]) {
                        lemma_str_chars_progress(
                            s,
                            i + 6,
                            acc.push(((hex_val(s[i + 4]) * 16 + hex_val(s[i + 5])) as char)),
                        );
                    }
                }
            }
        } else {
            lemma_str_chars_progress(s, i + 1, acc.push(s[i]));
        }
    }
}

/// Progress of the string parser.
pub proof fn lemma_string_progress(s: Seq<char>, i: int)
    ensures
        match parse_string_at(s, i) {
            Some(p) => i < p.1 <= s.len(),
            None => true,
        },
{
    if 0 <= i < s.len() && s[i] == '"' {
        lemma_str_chars_progress(s, i + 1, Seq::empty());
    }
}

/// One `[id,tf]` pair at position `i`.
pub open spec fn parse_posting_at(s: Seq<char>, i: int) -> Option<((u64, u32), int)> {
    if 0 <= i < s.len() && s[i] == '[' {
        match parse_u64_at(s, i + 1) {
            Some((id, j)) => if j < s.len() && s[j] == ',' {
                match parse_u64_at(s, j + 1) {
                    Some((tf, j2)) => if tf <= 0xFFFF_FFFFu64 && j2 < s.len() && s[j2] == ']' {
                        Some(((id, tf as u32), j2 + 1))
                    } else {
                        None
                    },
                    None => None,
                }
            } else {
                None
            },
            None => None,
        }
    } else {
        None
    }
}

pub proof fn lemma_posting_progress(s: Seq<char>, i: int)
    ensures
        match parse_posting_at(s, i) {
            Some(p) => i < p.1 <= s.len(),
            None => true,
        },
{
    if 0 <= i < s.len() && s[i] == '[' {
        lemma_u64_progress(s, i + 1);
        if parse_u64_at(s, i + 1) is Some {
            let j = parse_u64_at(s, i + 1)->Some_0.1;
            lemma_u64_progress(s, j + 1);
        }
    }
}

/// A posting list body, ending right before `]`.
pub open spec fn parse_postings_at(
    s: Seq<char>,
    i: int,
    first: bool,
    acc: Seq<(u64, u32)>,
) -> Option<(Seq<(u64, u32)>, int)>
    decreases s.len() - i via parse_postings_dec
{
    if i < 0 || i >= s.len() {
        None
    } else if s[i] == ']' {
        Some((acc, i))
    } else if !first && s[i] != ',' {
        None
    } else {
        let start = if first {
            i
        } else {
            i + 1
        };
        match parse_posting_at(s, start) {
            Some((p, j)) => parse_postings_at(s, j, false, acc.push(p)),
            None => None,
        }
    }
}

#[via_fn]
proof fn parse_postings_dec(s: Seq<char>, i: int, first: bool, acc: Seq<(u64, u32)>) {
    if 0 <= i < s.len() && s[i] != ']' && (first || s[i] == ',') {
        let start = if first {
            i
        } else {
            i + 1
        };
        lemma_posting_progress(s, start);
    }
}

/// One `"term":[postings]` member at position `i`.
pub open spec fn parse_entry_at(s: Seq<char>, i: int) -> Option<(TermView, int)> {
    match parse_string_at(s, i) {
        Some((term, j)) => if j + 1 < s.len() && s[j] == ':' && s[j + 1] == '[' {
            match parse_postings_at(s, j + 2, true, Seq::empty()) {
                Some((ps, j2)) => if j2 < s.len() && s[j2] == ']' {
                    Some((TermView { term, posts: ps }, j2 + 1))
                } else {
                    None
                },
                None => None,
            }
        } else {
            None
        },
        None => None,
    }
}

pub proof fn lemma_postings_progress(s: Seq<char>, i: int, first: bool, acc: Seq<(u64, u32)>)
    ensures
        match parse_postings_at(s, i, first, acc) {
            Some(p) => i <= p.1 <= s.len(),
            None => true,
        },
    decreases s.len() - i,
{
    if 0 <= i < s.len() && s[i] != ']' && (first || s[i] == ',') {
        let start = if first {
            i
        } else {
            i + 1
        };
        lemma_posting_progress(s, start);
        match parse_posting_at(s, start) {
            Some((p, j)) => {
                lemma_postings_progress(s, j, false, acc.push(p));
            },
            None => {},
        }
    }
}

pub proof fn lemma_entry_progress(s: Seq<char>, i: int)
    ensures
        match parse_entry_at(s, i) {
            Some(p) => i < p.1 <= s.len(),
            None => true,
        },
{
    lemma_string_progress(s, i);
    match parse_string_at(s, i) {
        Some((term, j)) => {
            if j < s.len() && s[j] == ':' && j + 1 < s.len() && s[j + 1] == '[' {
                lemma_postings_progress(s, j + 2, true, Seq::empty());
            }
        },
        None => {},
    }
}

/// The inverted-index members, ending right before `}`.
pub open spec fn parse_entries_at(
    s: Seq<char>,
    i: int,
    first: bool,
    acc: Seq<TermView>,
) -> Option<(Seq<TermView>, int)>
    decreases s.len() - i via parse_entries_dec
{
    if i < 0 || i >= s.len() {
        None
    } else if s[i] == '}' {
        Some((acc, i))
    } else if !first && s[i] != ',' {
        None
    } else {
        let start = if first {
            i
        } else {
            i + 1
        };
        match parse_entry_at(s, start) {
            Some((t, j)) => parse_entries_at(s, j, false, acc.push(t)),
            None => None,
        }
    }
}

#[via_fn]
proof fn parse_entries_dec(s: Seq<char>, i: int, first: bool, acc: Seq<TermView>) {
    if 0 <= i < s.len() && s[i] != '}' && (first || s[i] == ',') {
        let start = if first {
            i
        } else {
            i + 1
        };
        lemma_entry_progress(s, start);
    }
}

/// One document object at position `i`.
pub open spec fn parse_doc_at(s: Seq<char>, i: int) -> Option<(DocView, int)> {
    if 0 <= i < s.len() && s[i] == '{' && occurs_at(s, key_id(), i + 1) {
        match parse_u64_at(s, i + 1 + key_id().len()) {
            Some((id, j)) => if occurs_at(s, key_url(), j) {
                match parse_string_at(s, j + key_url().len()) {
                    Some((url, j2)) => if occurs_at(s, key_title(), j2) {
                        match parse_string_at(s, j2 + key_title().len()) {
                            Some((title, j3)) => if occurs_at(s, key_content(), j3) {
                                match parse_string_at(s, j3 + key_content().len()) {
                                    Some((content, j4)) => if occurs_at(s, key_created(), j4) {
                                        match parse_u64_at(s, j4 + key_created().len()) {
                                            Some((created, j5)) => if j5 < s.len() && s[j5]
                                                == '}' {
                                                Some(
                                                    (
                                                        DocView {
                                                            id,
                                                            url,
                                                            title,
                                                            content,
                                                            created_at: created,
                                                        },
                                                        j5 + 1,
                                                    ),
                                                )
                                            } else {
                                                None
                                            },
                                            None => None,
                                        }
                                    } else {
                                        None
                                    },
                                    None => None,
                                }
                            } else {
                                None
                            },
                            None => None,
                        }
                    } else {
                        None
                    },
                    None => None,
                }
            } else {
                None
            },
            None => None,
        }
    } else {
        None
    }
}

pub proof fn lemma_doc_progress(s: Seq<char>, i: int)
    ensures
        match parse_doc_at(s, i) {
            Some(p) => i < p.1 <= s.len(),
            None => true,
        },
{
    if 0 <= i < s.len() && s[i] == '{' && occurs_at(s, key_id(), i + 1) {
        lemma_u64_progress(s, i + 1 + key_id().len());
        match parse_u64_at(s, i + 1 + key_id().len()) {
            Some((id, j)) => {
                lemma_string_progress(s, j + key_url().len());
                match parse_string_at(s, j + key_url().len()) {
                    Some((url, j2)) => {
                        lemma_string_progress(s, j2 + key_title().len());
                        match parse_string_at(s, j2 + key_title().len()) {
                            Some((title, j3)) => {
                                lemma_string_progress(s, j3 + key_content().len());
                                match parse_string_at(s, j3 + key_content().len()) {
                                    Some((content, j4)) => {
                                        lemma_u64_progress(s, j4 + key_created().len());
                                    },
                                    None => {},
                                }
                            },
                            None => {},
                        }
                    },
                    None => {},
                }
            },
            None => {},
        }
    }
}

/// The document list, ending right before `]`.
pub open spec fn parse_docs_at(s: Seq<char>, i: int, first: bool, acc: Seq<DocView>) -> Option<
    (Seq<DocView>, int),
>
    decreases s.len() - i via parse_docs_dec
{
    if i < 0 || i >= s.len() {
        None
    } else if s[i] == ']' {
        Some((acc, i))
    } else if !first && s[i] != ',' {
        None
    } else {
        let start = if first {
            i
        } else {
            i + 1
        };
        match parse_doc_at(s, start) {
            Some((d, j)) => parse_docs_at(s, j, false, acc.push(d)),
            None => None,
        }
    }
}

#[via_fn]
proof fn parse_docs_dec(s: Seq<char>, i: int, first: bool, acc: Seq<DocView>) {
    if 0 <= i < s.len() && s[i] != ']' && (first || s[i] == ',') {
        let start = if first {
            i
        } else {
            i + 1
        };
        lemma_doc_progress(s, start);
    }
}

/// The whole snapshot; the input must hold nothing else.
pub open spec fn parse_snapshot_spec(s: Seq<char>) -> Option<IndexView> {
    if occurs_at(s, key_docs(), 0) {
        match parse_docs_at(s, key_docs().len() as int, true, Seq::empty()) {
            Some((docs, j)) => if occurs_at(s, key_inverted(), j) {
                match parse_entries_at(s, j + key_inverted().len(), true, Seq::empty()) {
                    Some((inv, j2)) => if j2 + 2 == s.len() && s[j2] == '}' && s[j2 + 1] == '}' {
                        Some(IndexView { docs, inverted: inv })
                    } else {
                        None
                    },
                    None => None,
                }
            } else {
                None
            },
            None => None,
        }
    } else {
        None
    }
}


/// One character of an occurrence.
pub proof fn lemma_occurs_char(s: Seq<char>, pat: Seq<char>, i: int, k: int)
    requires
        occurs_at(s, pat, i),
        0 <= k < pat.len(),
    ensures
        s[i + k] == pat[k],
{
    assert(s.subrange(i, i + pat.len() as int)[k] == s[i + k]);
}

/// Joining two adjacent occurrences.
pub proof fn lemma_occurs_join(s: Seq<char>, a: Seq<char>, b: Seq<char>, i: int)
    requires
        occurs_at(s, a, i),
        occurs_at(s, b, i + a.len()),
    ensures
        occurs_at(s, a + b, i),
{
    let l = (a + b).len() as int;
    assert(s.subrange(i, i + l) =~= a + b) by {
        assert forall|k: int| 0 <= k < l implies s.subrange(i, i + l)[k] == (a + b)[k] by {
            if k < a.len() {
                assert(s.subrange(i, i + a.len() as int)[k] == s[i + k]);
            } else {
                assert(s.subrange(i + a.len(), i + l)[k - a.len()] == s[i + k]);
            }
        }
    }
}

/// A one-character occurrence from a known character.
pub proof fn lemma_occurs_single(s: Seq<char>, c: char, i: int)
    requires
        0 <= i < s.len(),
        s[i] == c,
    ensures
        occurs_at(s, seq![c], i),
{
    assert(s.subrange(i, i + 1) =~= seq![c]);
}

/// Parsing a rendered posting recovers it.
pub proof fn lemma_posting_inv(s: Seq<char>, i: int, p: (u64, u32))
    requires
        occurs_at(s, render_posting(p), i),
    ensures
        parse_posting_at(s, i) == Some((p, i + render_posting(p).len())),
{
    let a1 = seq!['['];
    let a2 = dec_digits(p.0 as nat);
    let a3 = seq![','];
    let a4 = dec_digits(p.1 as nat);
    let a5 = seq![']'];
    assert(render_posting(p) == a1 + a2 + a3 + a4 + a5);
    lemma_occurs_split(s, a1 + a2 + a3 + a4, a5, i);
    lemma_occurs_split(s, a1 + a2 + a3, a4, i);
    lemma_occurs_split(s, a1 + a2, a3, i);
    lemma_occurs_split(s, a1, a2, i);
    let i2 = i + 1;
    let i3 = i2 + a2.len();
    let i4 = i3 + 1;
    let i5 = i4 + a4.len();
    lemma_occurs_char(s, a1, i, 0);
    lemma_occurs_char(s, a3, i3, 0);
    lemma_occurs_char(s, a5, i5, 0);
    assert(!is_digit(','));
    assert(!is_digit(']'));
    lemma_u64_inv(s, i2, p.0);
    lemma_u64_inv(s, i4, p.1 as u64);
    assert((p.1 as u64) as u32 == p.1);
}

/// Parsing the rendered tail of a posting list, up to its closing bracket,
/// recovers the remaining postings.
pub proof fn lemma_postings_inv(s: Seq<char>, i: int, ps: Seq<(u64, u32)>, k: int, acc: Seq<
    (u64, u32),
>)
    requires
        0 <= k <= ps.len(),
        occurs_at(s, render_postings(ps, k) + seq![']'], i),
    ensures
        parse_postings_at(s, i, k == 0, acc) == Some(
            (acc + ps.skip(k), i + render_postings(ps, k).len()),
        ),
    decreases ps.len() - k,
{
    if k == ps.len() {
        assert(render_postings(ps, k) =~= Seq::<char>::empty());
        assert(occurs_at(s, seq![']'], i)) by {
            assert(render_postings(ps, k) + seq![']'] =~= seq![']']);
        }
        lemma_occurs_char(s, seq![']'], i, 0);
        assert(acc + ps.skip(k) =~= acc);
    } else {
        let sep: Seq<char> = if k > 0 {
            seq![',']
        } else {
            Seq::empty()
        };
        let body = render_posting(ps[k]);
        let tail = render_postings(ps, k + 1) + seq![']'];
        assert((sep + body + render_postings(ps, k + 1)) + seq![']'] =~= sep + body + tail);
        assert(occurs_at(s, sep + body + tail, i));
        lemma_occurs_split(s, sep + body, tail, i);
        lemma_occurs_split(s, sep, body, i);
        let start = i + sep.len();
        lemma_posting_inv(s, start, ps[k]);
        if k > 0 {
            lemma_occurs_char(s, sep, i, 0);
            assert(s[i] == ',');
        } else {
            lemma_occurs_char(s, body, start, 0);
            assert(s[i] == '[');
        }
        let j = start + body.len();
        lemma_postings_inv(s, j, ps, k + 1, acc.push(ps[k]));
        assert(acc.push(ps[k]) + ps.skip(k + 1) =~= acc + ps.skip(k));
        assert(parse_postings_at(s, i, k == 0, acc) == parse_postings_at(
            s,
            j,
            false,
            acc.push(ps[k]),
        ));
    }
}

/// Parsing a rendered bucket recovers it.
pub proof fn lemma_entry_inv(s: Seq<char>, i: int, t: TermView)
    requires
        occurs_at(s, render_entry(t), i),
    ensures
        parse_entry_at(s, i) == Some((t, i + render_entry(t).len())),
{
    let a1 = render_string(t.term);
    let a2 = seq![':', '['];
    let a3 = render_postings(t.posts, 0);
    let a4 = seq![']'];
    assert(render_entry(t) == a1 + a2 + a3 + a4);
    lemma_occurs_split(s, a1 + a2 + a3, a4, i);
    lemma_occurs_split(s, a1 + a2, a3, i);
    lemma_occurs_split(s, a1, a2, i);
    lemma_string_inv(s, i, t.term);
    let j = i + a1.len();
    lemma_occurs_char(s, a2, j, 0);
    lemma_occurs_char(s, a2, j, 1);
    lemma_occurs_join(s, a3, a4, j + 2);
    lemma_postings_inv(s, j + 2, t.posts, 0, Seq::empty());
    assert(Seq::<(u64, u32)>::empty() + t.posts.skip(0) =~= t.posts);
    let j2 = j + 2 + a3.len();
    lemma_occurs_char(s, a4, j2, 0);
}

/// Parsing the rendered tail of the inverted object, up to its closing
/// brace, recovers the remaining buckets.
pub proof fn lemma_entries_inv(s: Seq<char>, i: int, inv: Seq<TermView>, k: int, acc: Seq<
    TermView,
>)
    requires
        0 <= k <= inv.len(),
        occurs_at(s, render_entries(inv, k) + seq!['}'], i),
    ensures
        parse_entries_at(s, i, k == 0, acc) == Some(
            (acc + inv.skip(k), i + render_entries(inv, k).len()),
        ),
    decreases inv.len() - k,
{
    if k == inv.len() {
        assert(render_entries(inv, k) =~= Seq::<char>::empty());
        assert(occurs_at(s, seq!['}'], i)) by {
            assert(render_entries(inv, k) + seq!['}'] =~= seq!['}']);
        }
        lemma_occurs_char(s, seq!['}'], i, 0);
        assert(acc + inv.skip(k) =~= acc);
    } else {
        let sep: Seq<char> = if k > 0 {
            seq![',']
        } else {
            Seq::empty()
        };
        let body = render_entry(inv[k]);
        let tail = render_entries(inv, k + 1) + seq!['}'];
        assert((sep + body + render_entries(inv, k + 1)) + seq!['}'] =~= sep + body + tail);
        assert(occurs_at(s, sep + body + tail, i));
        lemma_occurs_split(s, sep + body, tail, i);
        lemma_occurs_split(s, sep, body, i);
        let start = i + sep.len();
        lemma_entry_inv(s, start, inv[k]);
        if k > 0 {
            lemma_occurs_char(s, sep, i, 0);
            assert(s[i] == ',');
        } else {
            lemma_occurs_char(s, body, start, 0);
            assert(body[0] == '"') by {
                assert(render_string(inv[k].term)[0] == '"');
            }
            assert(s[i] == '"');
        }
        let j = start + body.len();
        lemma_entries_inv(s, j, inv, k + 1, acc.push(inv[k]));
        assert(acc.push(inv[k]) + inv.skip(k + 1) =~= acc + inv.skip(k));
        assert(parse_entries_at(s, i, k == 0, acc) == parse_entries_at(
            s,
            j,
            false,
            acc.push(inv[k]),
        ));
    }
}

/// Parsing a rendered document recovers it.
pub proof fn lemma_doc_inv(s: Seq<char>, i: int, d: DocView)
    requires
        occurs_at(s, render_doc(d), i),
    ensures
        parse_doc_at(s, i) == Some((d, i + render_doc(d).len())),
{
    let a0 = seq!['{'];
    let a1 = key_id();
    let a2 = dec_digits(d.id as nat);
    let a3 = key_url();
    let a4 = render_string(d.url);
    let a5 = key_title();
    let a6 = render_string(d.title);
    let a7 = key_content();
    let a8 = render_string(d.content);
    let a9 = key_created();
    let a10 = dec_digits(d.created_at as nat);
    let a11 = seq!['}'];
    assert(render_doc(d) == a0 + a1 + a2 + a3 + a4 + a5 + a6 + a7 + a8 + a9 + a10 + a11);
    lemma_occurs_split(s, a0 + a1 + a2 + a3 + a4 + a5 + a6 + a7 + a8 + a9 + a10, a11, i);
    lemma_occurs_split(s, a0 + a1 + a2 + a3 + a4 + a5 + a6 + a7 + a8 + a9, a10, i);
    lemma_occurs_split(s, a0 + a1 + a2 + a3 + a4 + a5 + a6 + a7 + a8, a9, i);
    lemma_occurs_split(s, a0 + a1 + a2 + a3 + a4 + a5 + a6 + a7, a8, i);
    lemma_occurs_split(s, a0 + a1 + a2 + a3 + a4 + a5 + a6, a7, i);
    lemma_occurs_split(s, a0 + a1 + a2 + a3 + a4 + a5, a6, i);
    lemma_occurs_split(s, a0 + a1 + a2 + a3 + a4, a5, i);
    lemma_occurs_split(s, a0 + a1 + a2 + a3, a4, i);
    lemma_occurs_split(s, a0 + a1 + a2, a3, i);
    lemma_occurs_split(s, a0 + a1, a2, i);
    lemma_occurs_split(s, a0, a1, i);
    lemma_occurs_char(s, a0, i, 0);
    let p1 = i + 1;
    let p2 = p1 + a1.len();
    let p3 = p2 + a2.len();
    let p4 = p3 + a3.len();
    let p5 = p4 + a4.len();
    let p6 = p5 + a5.len();
    let p7 = p6 + a6.len();
    let p8 = p7 + a7.len();
    let p9 = p8 + a8.len();
    let p10 = p9 + a9.len();
    let p11 = p10 + a10.len();
    lemma_occurs_char(s, a3, p3, 0);
    assert(!is_digit(','));
    lemma_u64_inv(s, p2, d.id);
    lemma_string_inv(s, p4, d.url);
    lemma_string_inv(s, p6, d.title);
    lemma_string_inv(s, p8, d.content);
    lemma_occurs_char(s, a11, p11, 0);
    assert(!is_digit('}'));
    lemma_u64_inv(s, p10, d.created_at);
}

/// Parsing the rendered tail of the document list, up to its closing
/// bracket, recovers the remaining documents.
pub proof fn lemma_docs_inv(s: Seq<char>, i: int, docs: Seq<DocView>, k: int, acc: Seq<DocView>)
    requires
        0 <= k <= docs.len(),
        occurs_at(s, render_docs(docs, k) + seq![']'], i),
    ensures
        parse_docs_at(s, i, k == 0, acc) == Some(
            (acc + docs.skip(k), i + render_docs(docs, k).len()),
        ),
    decreases docs.len() - k,
{
    if k == docs.len() {
        assert(render_docs(docs, k) =~= Seq::<char>::empty());
        assert(occurs_at(s, seq![']'], i)) by {
            assert(render_docs(docs, k) + seq![']'] =~= seq![']']);
        }
        lemma_occurs_char(s, seq![']'], i, 0);
        assert(acc + docs.skip(k) =~= acc);
    } else {
        let sep: Seq<char> = if k > 0 {
            seq![',']
        } else {
            Seq::empty()
        };
        let body = render_doc(docs[k]);
        let tail = render_docs(docs, k + 1) + seq![']'];
        assert((sep + body + render_docs(docs, k + 1)) + seq![']'] =~= sep + body + tail);
        assert(occurs_at(s, sep + body + tail, i));
        lemma_occurs_split(s, sep + body, tail, i);
        lemma_occurs_split(s, sep, body, i);
        let start = i + sep.len();
        lemma_doc_inv(s, start, docs[k]);
        if k > 0 {
            lemma_occurs_char(s, sep, i, 0);
            assert(s[i] == ',');
        } else {
            lemma_occurs_char(s, body, start, 0);
            assert(s[i] == '{');
        }
        let j = start + body.len();
        lemma_docs_inv(s, j, docs, k + 1, acc.push(docs[k]));
        assert(acc.push(docs[k]) + docs.skip(k + 1) =~= acc + docs.skip(k));
        assert(parse_docs_at(s, i, k == 0, acc) == parse_docs_at(s, j, false, acc.push(docs[k])));
    }
}

/// Rendering a snapshot and parsing it back yields the same documents and
/// the same inverted index.
#[verifier::rlimit(100)]
#[verifier::spinoff_prover]
pub proof fn lemma_snapshot_roundtrip(v: IndexView)
    ensures
        parse_snapshot_spec(render_snapshot(v)) == Some(v),
{
    let s = render_snapshot(v);
    let a1 = key_docs();
    let a2 = render_docs(v.docs, 0);
    let a3 = key_inverted();
    let a4 = render_entries(v.inverted, 0);
    let a5 = seq!['}', '}'];
    assert(s == a1 + a2 + a3 + a4 + a5);
    assert(occurs_at(s, s, 0)) by {
        assert(s.subrange(0, s.len() as int) =~= s);
    }
    lemma_occurs_split(s, a1 + a2 + a3 + a4, a5, 0);
    lemma_occurs_split(s, a1 + a2 + a3, a4, 0);
    lemma_occurs_split(s, a1 + a2, a3, 0);
    lemma_occurs_split(s, a1, a2, 0);
    let p1 = a1.len() as int;
    let p2 = p1 + a2.len();
    let p3 = p2 + a3.len();
    let p4 = p3 + a4.len();
    lemma_occurs_char(s, a3, p2, 0);
    lemma_occurs_single(s, ']', p2);
    lemma_occurs_join(s, a2, seq![']'], p1);
    lemma_docs_inv(s, p1, v.docs, 0, Seq::empty());
    assert(Seq::<DocView>::empty() + v.docs.skip(0) =~= v.docs);
    lemma_occurs_char(s, a5, p4, 0);
    lemma_occurs_single(s, '}', p4);
    lemma_occurs_join(s, a4, seq!['}'], p3);
    lemma_entries_inv(s, p3, v.inverted, 0, Seq::empty());
    assert(Seq::<TermView>::empty() + v.inverted.skip(0) =~= v.inverted);
    lemma_occurs_char(s, a5, p4, 1);
    assert(p4 + 2 == s.len());
    assert(occurs_at(s, key_docs(), 0));
    assert(parse_docs_at(s, key_docs().len() as int, true, Seq::empty()) == Some((v.docs, p2)));
    assert(occurs_at(s, key_inverted(), p2));
    assert(parse_entries_at(s, p2 + key_inverted().len(), true, Seq::empty()) == Some(
        (v.inverted, p4),
    ));
    assert(s[p4] == '}' && s[p4 + 1] == '}');
    assert(parse_snapshot_spec(s) == Some(IndexView { docs: v.docs, inverted: v.inverted }));
    assert(IndexView { docs: v.docs, inverted: v.inverted } == v);
}


/// Append one rendered posting.
fn push_posting(out: &mut Vec<char>, id: u64, tf: u32)
    ensures
        final(out)@ == old(out)@ + render_posting((id, tf)),
{
    out.push('[');
    push_u64(out, id);
    out.push(',');
    push_u64(out, tf as u64);
    out.push(']');
    proof {
        assert(out@ =~= old(out)@ + render_posting((id, tf)));
    }
}

/// The characters of the `"id"` key, with the leading brace handled by the
/// caller.
fn key_id_chars() -> (r: Vec<char>)
    ensures
        r@ == key_id(),
{
    let mut r: Vec<char> = Vec::new();
    r.push('"');
    r.push('i');
    r.push('d');
    r.push('"');
    r.push(':');
    proof {
        assert(r@ =~= key_id());
    }
    r
}

fn key_url_chars() -> (r: Vec<char>)
    ensures
        r@ == key_url(),
{
    let mut r: Vec<char> = Vec::new();
    r.push(',');
    r.push('"');
    r.push('u');
    r.push('r');
    r.push('l');
    r.push('"');
    r.push(':');
    proof {
        assert(r@ =~= key_url());
    }
    r
}

fn key_title_chars() -> (r: Vec<char>)
    ensures
        r@ == key_title(),
{
    let mut r: Vec<char> = Vec::new();
    r.push(',');
    r.push('"');
    r.push('t');
    r.push('i');
    r.push('t');
    r.push('l');
    r.push('e');
    r.push('"');
    r.push(':');
    proof {
        assert(r@ =~= key_title());
    }
    r
}

fn key_content_chars() -> (r: Vec<char>)
    ensures
        r@ == key_content(),
{
    let mut r: Vec<char> = Vec::new();
    r.push(',');
    r.push('"');
    r.push('c');
    r.push('o');
    r.push('n');
    r.push('t');
    r.push('e');
    r.push('n');
    r.push('t');
    r.push('"');
    r.push(':');
    proof {
        assert(r@ =~= key_content());
    }
    r
}

fn key_created_chars() -> (r: Vec<char>)
    ensures
        r@ == key_created(),
{
    let mut r: Vec<char> = Vec::new();
    r.push(',');
    r.push('"');
    r.push('c');
    r.push('r');
    r.push('e');
    r.push('a');
    r.push('t');
    r.push('e');
    r.push('d');
    r.push('_');
    r.push('a');
    r.push('t');
    r.push('"');
    r.push(':');
    proof {
        assert(r@ =~= key_created());
    }
    r
}

fn key_docs_chars() -> (r: Vec<char>)
    ensures
        r@ == key_docs(),
{
    let mut r: Vec<char> = Vec::new();
    r.push('{');
    r.push('"');
    r.push('d');
    r.push('o');
    r.push('c');
    r.push('s');
    r.push('"');
    r.push(':');
    r.push('[');
    proof {
        assert(r@ =~= key_docs());
    }
    r
}

fn key_inverted_chars() -> (r: Vec<char>)
    ensures
        r@ == key_inverted(),
{
    let mut r: Vec<char> = Vec::new();
    r.push(']');
    r.push(',');
    r.push('"');
    r.push('i');
    r.push('n');
    r.push('v');
    r.push('e');
    r.push('r');
    r.push('t');
    r.push('e');
    r.push('d');
    r.push('"');
    r.push(':');
    r.push('{');
    proof {
        assert(r@ =~= key_inverted());
    }
    r
}

fn push_all(out: &mut Vec<char>, piece: &Vec<char>)
    ensures
        final(out)@ == old(out)@ + piece@,
{
    let mut k: usize = 0;
    while k < piece.len()
        invariant
            k <= piece@.len(),
            out@ == old(out)@ + piece@.take(k as int),
        decreases piece@.len() - k,
    {
        out.push(piece[k]);
        proof {
            assert(old(out)@ + piece@.take(k + 1) =~= (old(out)@ + piece@.take(k as int)).push(
                piece@[k as int],
            ));
        }
        k += 1;
    }
    proof {
        assert(piece@.take(piece@.len() as int) =~= piece@);
    }
}

/// Append one rendered document.
fn push_doc(out: &mut Vec<char>, d: &crate::index::Doc)
    ensures
        final(out)@ == old(out)@ + render_doc(d@),
{
    out.push('{');
    let kid = key_id_chars();
    push_all(out, &kid);
    push_u64(out, d.id);
    let kurl = key_url_chars();
    push_all(out, &kurl);
    push_string(out, d.url.as_str());
    let ktitle = key_title_chars();
    push_all(out, &ktitle);
    push_string(out, d.title.as_str());
    let kcontent = key_content_chars();
    push_all(out, &kcontent);
    push_string(out, d.content.as_str());
    let kcreated = key_created_chars();
    push_all(out, &kcreated);
    push_u64(out, d.created_at);
    out.push('}');
    proof {
        assert(out@ =~= old(out)@ + render_doc(d@));
    }
}

/// Append one rendered bucket.
fn push_entry(out: &mut Vec<char>, t: &crate::index::TermPostings)
    ensures
        final(out)@ == old(out)@ + render_entry(t@),
{
    push_string(out, t.term.as_str());
    out.push(':');
    out.push('[');
    let ghost base = out@;
    let ghost ps = t@.posts;
    let mut k: usize = 0;
    proof {
        assert(base + Seq::<char>::empty() =~= base);
    }
    while k < t.postings.len()
        invariant
            k <= ps.len(),
            ps == t@.posts,
            ps.len() == t.postings@.len(),
            out@ + render_postings(ps, k as int) == base + render_postings(ps, 0),
        decreases ps.len() - k,
    {
        let ghost before = out@;
        if k > 0 {
            out.push(',');
        }
        push_posting(out, t.postings[k].0, t.postings[k].1);
        proof {
            assert(ps[k as int] == (t.postings@[k as int].0, t.postings@[k as int].1));
            let sep: Seq<char> = if k > 0 {
                seq![',']
            } else {
                Seq::empty()
            };
            assert(out@ =~= before + (sep + render_posting(ps[k as int])));
            assert(render_postings(ps, k as int) =~= (sep + render_posting(ps[k as int]))
                + render_postings(ps, k + 1));
            assert(out@ + render_postings(ps, k + 1) =~= before + render_postings(ps, k as int));
        }
        k += 1;
    }
    proof {
        assert(render_postings(ps, ps.len() as int) =~= Seq::<char>::empty());
        assert(out@ + Seq::<char>::empty() =~= out@);
    }
    out.push(']');
    proof {
        assert(out@ =~= old(out)@ + render_entry(t@));
    }
}

/// Render a whole snapshot as its canonical JSON text.
#[verifier::loop_isolation(false)]
pub fn snapshot_to_json(p: &crate::index::PersistedIndex) -> (r: String)
    ensures
        r@ == render_snapshot(p@),
{
    let mut out: Vec<char> = Vec::new();
    let kd = key_docs_chars();
    push_all(&mut out, &kd);
    let ghost dv = p@.docs;
    let ghost base = out@;
    let mut k: usize = 0;
    proof {
        assert(base + Seq::<char>::empty() =~= base);
    }
    while k < p.docs.len()
        invariant
            k <= dv.len(),
            dv == p@.docs,
            dv.len() == p.docs@.len(),
            out@ + render_docs(dv, k as int) == base + render_docs(dv, 0),
        decreases dv.len() - k,
    {
        let ghost before = out@;
        if k > 0 {
            out.push(',');
        }
        push_doc(&mut out, &p.docs[k]);
        proof {
            assert(dv[k as int] == p.docs@[k as int]@);
            let sep: Seq<char> = if k > 0 {
                seq![',']
            } else {
                Seq::empty()
            };
            assert(out@ =~= before + (sep + render_doc(dv[k as int])));
            assert(render_docs(dv, k as int) =~= (sep + render_doc(dv[k as int])) + render_docs(
                dv,
                k + 1,
            ));
            assert(out@ + render_docs(dv, k + 1) =~= before + render_docs(dv, k as int));
        }
        k += 1;
    }
    proof {
        assert(render_docs(dv, dv.len() as int) =~= Seq::<char>::empty());
        assert(out@ + Seq::<char>::empty() =~= out@);
    }
    let ki = key_inverted_chars();
    push_all(&mut out, &ki);
    let ghost iv = p@.inverted;
    let ghost base2 = out@;
    let mut k2: usize = 0;
    proof {
        assert(base2 + Seq::<char>::empty() =~= base2);
    }
    while k2 < p.inverted.len()
        invariant
            k2 <= iv.len(),
            iv == p@.inverted,
            iv.len() == p.inverted@.len(),
            out@ + render_entries(iv, k2 as int) == base2 + render_entries(iv, 0),
        decreases iv.len() - k2,
    {
        let ghost before = out@;
        if k2 > 0 {
            out.push(',');
        }
        push_entry(&mut out, &p.inverted[k2]);
        proof {
            assert(iv[k2 as int] == p.inverted@[k2 as int]@);
            let sep: Seq<char> = if k2 > 0 {
                seq![',']
            } else {
                Seq::empty()
            };
            assert(out@ =~= before + (sep + render_entry(iv[k2 as int])));
            assert(render_entries(iv, k2 as int) =~= (sep + render_entry(iv[k2 as int]))
                + render_entries(iv, k2 + 1));
            assert(out@ + render_entries(iv, k2 + 1) =~= before + render_entries(iv, k2 as int));
        }
        k2 += 1;
    }
    proof {
        assert(render_entries(iv, iv.len() as int) =~= Seq::<char>::empty());
        assert(out@ + Seq::<char>::empty() =~= out@);
    }
    out.push('}');
    out.push('}');
    proof {
        assert(out@ =~= render_snapshot(p@));
    }
    crate::text::chars_to_string(&out)
}


/// Parse one `[id,tf]` posting.
fn parse_posting(s: &Vec<char>, i: usize) -> (r: Option<(Posting, usize)>)
    ensures
        ({
            let sp = parse_posting_at(s@, i as int);
            match r {
                Some(p) => sp == Some((p.0@, p.1 as int)) && i < p.1 <= s@.len(),
                None => sp is None,
            }
        }),
{
    if i >= s.len() || s[i] != '[' {
        return None;
    }
    match parse_u64(s, i + 1) {
        Some((id, j)) => {
            if j < s.len() && s[j] == ',' {
                match parse_u64(s, j + 1) {
                    Some((tf, j2)) => {
                        if tf <= 0xFFFF_FFFFu64 && j2 < s.len() && s[j2] == ']' {
                            Some((Posting(id, tf as u32), j2 + 1))
                        } else {
                            None
                        }
                    },
                    None => None,
                }
            } else {
                None
            }
        },
        None => None,
    }
}

/// Parse one `"term":[postings]` bucket.
#[verifier::loop_isolation(false)]
fn parse_entry(s: &Vec<char>, i: usize) -> (r: Option<(TermPostings, usize)>)
    ensures
        ({
            let sp = parse_entry_at(s@, i as int);
            match r {
                Some(p) => sp == Some((p.0@, p.1 as int)) && p.1 <= s@.len(),
                None => sp is None,
            }
        }),
{
    match parse_string(s, i) {
        Some((term, j)) => {
            if j < s.len() && s[j] == ':' && j + 1 < s.len() && s[j + 1] == '[' {
                let mut posts: Vec<Posting> = Vec::new();
                let mut k = j + 2;
                let mut first = true;
                proof {
                    assert(posts_vw(posts@) =~= Seq::<(u64, u32)>::empty());
                }
                loop
                    invariant
                        j + 2 <= k <= s@.len(),
                        parse_postings_at(s@, j + 2, true, Seq::empty())
                            == parse_postings_at(s@, k as int, first, posts_vw(posts@)),
                    decreases s@.len() - k,
                {
                    if k >= s.len() {
                        return None;
                    }
                    if s[k] == ']' {
                        break ;
                    }
                    if !first && s[k] != ',' {
                        return None;
                    }
                    let start = if first {
                        k
                    } else {
                        k + 1
                    };
                    match parse_posting(s, start) {
                        Some((p, j2)) => {
                            let ghost before = posts_vw(posts@);
                            posts.push(p);
                            proof {
                                assert(posts_vw(posts@) =~= before.push(p@));
                            }
                            k = j2;
                            first = false;
                        },
                        None => {
                            return None;
                        },
                    }
                }
                if k < s.len() && s[k] == ']' {
                    Some((TermPostings { term, postings: posts }, k + 1))
                } else {
                    None
                }
            } else {
                None
            }
        },
        None => None,
    }
}

/// Parse one document object.
fn parse_doc(s: &Vec<char>, i: usize) -> (r: Option<(Doc, usize)>)
    ensures
        ({
            let sp = parse_doc_at(s@, i as int);
            match r {
                Some(p) => sp == Some((p.0@, p.1 as int)) && p.1 <= s@.len(),
                None => sp is None,
            }
        }),
{
    if i >= s.len() || s[i] != '{' {
        return None;
    }
    let kid = key_id_chars();
    if !crate::text::match_at(s, &kid, i + 1) {
        return None;
    }
    let p2 = i + 1 + kid.len();
    match parse_u64(s, p2) {
        Some((id, j)) => {
            let kurl = key_url_chars();
            if !crate::text::match_at(s, &kurl, j) {
                return None;
            }
            match parse_string(s, j + kurl.len()) {
                Some((url, j2)) => {
                    let ktitle = key_title_chars();
                    if !crate::text::match_at(s, &ktitle, j2) {
                        return None;
                    }
                    match parse_string(s, j2 + ktitle.len()) {
                        Some((title, j3)) => {
                            let kcontent = key_content_chars();
                            if !crate::text::match_at(s, &kcontent, j3) {
                                return None;
                            }
                            match parse_string(s, j3 + kcontent.len()) {
                                Some((content, j4)) => {
                                    let kcreated = key_created_chars();
                                    if !crate::text::match_at(s, &kcreated, j4) {
                                        return None;
                                    }
                                    match parse_u64(s, j4 + kcreated.len()) {
                                        Some((created, j5)) => {
                                            if j5 < s.len() && s[j5] == '}' {
                                                Some(
                                                    (
                                                        Doc {
                                                            id,
                                                            url,
                                                            title,
                                                            content,
                                                            created_at: created,
                                                        },
                                                        j5 + 1,
                                                    ),
                                                )
                                            } else {
                                                None
                                            }
                                        },
                                        None => None,
                                    }
                                },
                                None => None,
                            }
                        },
                        None => None,
                    }
                },
                None => None,
            }
        },
        None => None,
    }
}

/// Parse a whole snapshot; anything but the canonical shape is rejected.
#[verifier::loop_isolation(false)]
#[verifier::rlimit(100)]
pub fn parse_snapshot(text: &str) -> (r: Option<PersistedIndex>)
    ensures
        ({
            let sp = parse_snapshot_spec(text@);
            match r {
                Some(p) => sp == Some(p@),
                None => sp is None,
            }
        }),
{
    let s = crate::text::str_to_chars(text);
    let kd = key_docs_chars();
    if !crate::text::match_at(&s, &kd, 0) {
        return None;
    }
    let mut docs: Vec<Doc> = Vec::new();
    let mut k = kd.len();
    let mut first = true;
    proof {
        assert(docs_vw(docs@) =~= Seq::<DocView>::empty());
    }
    loop
        invariant
            k <= s@.len(),
            s@ == text@,
            parse_docs_at(s@, key_docs().len() as int, true, Seq::empty()) == parse_docs_at(
                s@,
                k as int,
                first,
                docs_vw(docs@),
            ),
        decreases s@.len() - k,
    {
        if k >= s.len() {
            return None;
        }
        if s[k] == ']' {
            break ;
        }
        if !first && s[k] != ',' {
            return None;
        }
        let start = if first {
            k
        } else {
            k + 1
        };
        match parse_doc(&s, start) {
            Some((d, j2)) => {
                proof {
                    lemma_doc_progress(s@, start as int);
                }
                let ghost before = docs_vw(docs@);
                docs.push(d);
                proof {
                    assert(docs_vw(docs@) =~= before.push(d@));
                }
                k = j2;
                first = false;
            },
            None => {
                return None;
            },
        }
    }
    let ki = key_inverted_chars();
    if !crate::text::match_at(&s, &ki, k) {
        return None;
    }
    let ghost jdocs = k as int;
    let mut inverted: Vec<TermPostings> = Vec::new();
    let mut k2 = k + ki.len();
    let mut first2 = true;
    proof {
        assert(inv_vw(inverted@) =~= Seq::<TermView>::empty());
    }
    loop
        invariant
            k2 <= s@.len(),
            s@ == text@,
            parse_entries_at(s@, jdocs + key_inverted().len(), true, Seq::empty())
                == parse_entries_at(s@, k2 as int, first2, inv_vw(inverted@)),
        decreases s@.len() - k2,
    {
        if k2 >= s.len() {
            return None;
        }
        if s[k2] == '}' {
            break ;
        }
        if !first2 && s[k2] != ',' {
            return None;
        }
        let start = if first2 {
            k2
        } else {
            k2 + 1
        };
        match parse_entry(&s, start) {
            Some((t, j2)) => {
                proof {
                    lemma_entry_progress(s@, start as int);
                }
                let ghost before = inv_vw(inverted@);
                inverted.push(t);
                proof {
                    assert(inv_vw(inverted@) =~= before.push(t@));
                }
                k2 = j2;
                first2 = false;
            },
            None => {
                return None;
            },
        }
    }
    if k2 < s.len() && s.len() - k2 == 2 && s[k2] == '}' && s[k2 + 1] == '}' {
        let r = PersistedIndex { docs, inverted };
        proof {
            assert(parse_snapshot_spec(text@) == Some(r@));
        }
        Some(r)
    } else {
        None
    }
}

/// What loading text yields: the parsed snapshot folded into memory, or an
/// empty index when the text does not parse.
pub open spec fn load_spec(text: Seq<char>) -> IndexView {
    match parse_snapshot_spec(text) {
        Some(p) => IndexView { docs: crate::index::absorb_docs(p.docs), inverted: p.inverted },
        None => crate::index::empty_index(),
    }
}

/// Load a snapshot text; unreadable text yields an empty index.
pub fn load_snapshot(text: &str) -> (r: Index)
    ensures
        r@ == load_spec(text@),
{
    match parse_snapshot(text) {
        Some(p) => Index::from_persisted(p),
        None => Index::new(),
    }
}

/// Serialize the index to its canonical snapshot text.
pub fn save_snapshot(idx: &Index) -> (r: String)
    ensures
        r@ == render_snapshot(idx@),
{
    let p = idx.to_persisted();
    snapshot_to_json(&p)
}

/// Round-trip persistence: loading, saving back unchanged, and loading
/// again yields the same documents and the same inverted index.
pub proof fn lemma_save_load_idempotent(text: Seq<char>)
    ensures
        load_spec(render_snapshot(load_spec(text))) == load_spec(text),
{
    let v1 = load_spec(text);
    lemma_snapshot_roundtrip(v1);
    match parse_snapshot_spec(text) {
        Some(p) => {
            crate::index::lemma_absorb_unique(p.docs, 0, Seq::empty());
        },
        None => {},
    }
    assert(crate::index::unique_doc_ids(v1.docs));
    crate::index::lemma_absorb_identity(v1.docs);
    assert(load_spec(render_snapshot(v1)) == IndexView {
        docs: crate::index::absorb_docs(v1.docs),
        inverted: v1.inverted,
    });
}

} // verus!
