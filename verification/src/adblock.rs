//! URL-pattern ad filtering: domain-suffix rules, substring rules and
//! `*`-wildcard rules, matched case-insensitively against a URL.

use vstd::prelude::*;

use crate::text::eq_str;
use crate::text::str_to_chars;
use crate::text::subrange_chars;
use crate::text::match_at;
use crate::text::find_from;
use crate::text::occurs_at;
use crate::text::spec_find;
use crate::text::lemma_spec_find_char;

verus! {

/// The views of a list of character buffers.
pub open spec fn chunks_vw(s: Seq<Vec<char>>) -> Seq<Seq<char>> {
    s.map_values(|v: Vec<char>| v@)
}

/// The segments of `s` between `*` characters, from position `i` on, as
/// `str::split('*')` yields them.
pub open spec fn split_star_from(s: Seq<char>, i: int) -> Seq<Seq<char>>
    decreases s.len() - i via split_star_dec
{
    if i < 0 || i > s.len() {
        Seq::empty()
    } else {
        match spec_find(s, seq!['*'], i) {
            Some(p) => seq![s.subrange(i, p)] + split_star_from(s, p + 1),
            None => seq![s.subrange(i, s.len() as int)],
        }
    }
}

#[via_fn]
proof fn split_star_dec(s: Seq<char>, i: int) {
    if 0 <= i <= s.len() {
        lemma_spec_find_char(s, seq!['*'], i);
    }
}

pub open spec fn split_star(s: Seq<char>) -> Seq<Seq<char>> {
    split_star_from(s, 0)
}

/// The suffix check made on the remaining text: `part` closes `text` and
/// fits behind position `idx`.
pub open spec fn tail_ends_with(text: Seq<char>, idx: int, part: Seq<char>) -> bool {
    idx <= text.len() && part.len() <= text.len() - idx && text.subrange(
        text.len() - part.len(),
        text.len() as int,
    ) == part
}

/// The segment scan: each non-empty segment is looked up in order from the
/// running position; a final segment of a pattern that does not end in `*`
/// must instead close the text.
pub open spec fn scan_parts(
    parts: Seq<Seq<char>>,
    ends_star: bool,
    text: Seq<char>,
    i: int,
    idx: int,
) -> bool
    decreases parts.len() - i,
{
    if i < 0 || i >= parts.len() {
        true
    } else if parts[i].len() == 0 {
        scan_parts(parts, ends_star, text, i + 1, idx)
    } else if i == parts.len() - 1 && !ends_star {
        tail_ends_with(text, idx, parts[i])
    } else {
        match spec_find(text, parts[i], idx) {
            Some(p) => scan_parts(parts, ends_star, text, i + 1, p + parts[i].len()),
            None => false,
        }
    }
}

/// The `*`-wildcard match: a lone `*` or a literal match succeed at once; a
/// pattern without `*` otherwise fails; else the pattern's segments are
/// anchored at the start when the pattern does not begin with `*`, found in
/// order, and anchored at the end when it does not end with `*`.
pub open spec fn wildcard_match_spec(pat: Seq<char>, text: Seq<char>) -> bool {
    if pat == seq!['*'] {
        true
    } else if pat == text {
        true
    } else if spec_find(pat, seq!['*'], 0) is None {
        false
    } else {
        let parts = split_star(pat);
        let starts_star = pat[0] == '*';
        let ends_star = pat[pat.len() - 1] == '*';
        if !starts_star && !occurs_at(text, parts[0], 0) {
            false
        } else {
            let idx0: int = if !starts_star {
                parts[0].len() as int
            } else {
                0
            };
            scan_parts(parts, ends_star, text, 0, idx0)
        }
    }
}

/// Match `pattern` against `text` with `*` standing for any run of
/// characters, in the segment-scan sense of `wildcard_match_spec`.
#[verifier::loop_isolation(false)]
pub fn wildcard_match(pattern: &str, text: &str) -> (r: bool)
    ensures
        r == wildcard_match_spec(pattern@, text@),
{
    proof {
        reveal_strlit("*");
        assert("*"@ =~= seq!['*']);
    }
    if eq_str(pattern, "*") {
        return true;
    }
    if eq_str(pattern, text) {
        return true;
    }
    let pchars = str_to_chars(pattern);
    let tchars = str_to_chars(text);
    let plen_total = pchars.len();
    let tlen_total = tchars.len();
    let mut star: Vec<char> = Vec::new();
    star.push('*');
    proof {
        assert(star@ =~= seq!['*']);
    }
    if find_from(&pchars, &star, 0).is_none() {
        return false;
    }
    proof {
        lemma_spec_find_char(pattern@, seq!['*'], 0);
        assert(pattern@.len() >= 1);
    }
    let mut parts: Vec<Vec<char>> = Vec::new();
    let mut i: usize = 0;
    proof {
        assert(chunks_vw(parts@) =~= Seq::<Seq<char>>::empty());
        assert(Seq::<Seq<char>>::empty() + split_star_from(pattern@, 0) =~= split_star_from(
            pattern@,
            0,
        ));
    }
    loop
        invariant
            plen_total == pchars@.len(),
            i <= pchars@.len(),
            split_star(pattern@) == chunks_vw(parts@) + split_star_from(pattern@, i as int),
        decreases pchars@.len() - i,
    {
        let ghost before = chunks_vw(parts@);
        match find_from(&pchars, &star, i) {
            Some(p) => {
                proof {
                    lemma_spec_find_char(pattern@, seq!['*'], i as int);
                    assert(p < pchars@.len());
                }
                let seg = subrange_chars(&pchars, i, p);
                parts.push(seg);
                proof {
                    assert(chunks_vw(parts@) =~= before.push(pattern@.subrange(i as int, p as int)));
                    assert(before + split_star_from(pattern@, i as int) =~= chunks_vw(parts@)
                        + split_star_from(pattern@, p + 1));
                }
                i = p + 1;
            },
            None => {
                let seg = subrange_chars(&pchars, i, pchars.len());
                parts.push(seg);
                proof {
                    assert(chunks_vw(parts@) =~= before.push(
                        pattern@.subrange(i as int, pattern@.len() as int),
                    ));
                    assert(before + split_star_from(pattern@, i as int) =~= chunks_vw(parts@));
                }
                break ;
            },
        }
    }
    let ghost partsv = split_star(pattern@);
    proof {
        assert(chunks_vw(parts@) == partsv);
        assert(split_star_from(pattern@, 0) != Seq::<Seq<char>>::empty()) by {
            assert(split_star_from(pattern@, 0).len() >= 1);
        }
        assert(chunks_vw(parts@).len() >= 1);
    }
    let starts_star = pchars[0] == '*';
    let ends_star = pchars[pchars.len() - 1] == '*';
    let mut idx: usize = 0;
    if !starts_star {
        proof {
            assert(chunks_vw(parts@)[0] == parts@[0]@);
        }
        if !match_at(&tchars, &parts[0], 0) {
            return false;
        }
        idx = parts[0].len();
    }
    let mut k: usize = 0;
    while k < parts.len()
        invariant
            tlen_total == tchars@.len(),
            k <= parts@.len(),
            idx <= tchars@.len(),
            chunks_vw(parts@) == partsv,
            wildcard_match_spec(pattern@, text@) == scan_parts(
                partsv,
                ends_star,
                text@,
                k as int,
                idx as int,
            ),
        decreases parts@.len() - k,
    {
        proof {
            assert(partsv[k as int] == parts@[k as int]@);
        }
        if parts[k].len() == 0 {
            k += 1;
        } else if k == parts.len() - 1 && !ends_star {
            let plen = parts[k].len();
            let ok = tchars.len() - idx >= plen && match_at(&tchars, &parts[k], tchars.len() - plen);
            proof {
                assert(ok == tail_ends_with(text@, idx as int, partsv[k as int]));
            }
            return ok;
        } else {
            match find_from(&tchars, &parts[k], idx) {
                Some(p) => {
                    proof {
                        lemma_spec_find_char(text@, partsv[k as int], idx as int);
                    }
                    idx = p + parts[k].len();
                    k += 1;
                },
                None => {
                    return false;
                },
            }
        }
    }
    true
}


/// The position `cur`, pulled down to the first occurrence of `c` when that
/// comes earlier.
pub open spec fn cut_at(s: Seq<char>, c: char, cur: int) -> int {
    match spec_find(s, seq![c], 0) {
        Some(p) => if p < cur {
            p
        } else {
            cur
        },
        None => cur,
    }
}

/// The host part of a URL-like string: drop a scheme and credentials, stop
/// at the first of `/`, `:`, `?` or `#`, trim whitespace and slashes, and
/// fold to lowercase; an empty remainder is no host.
pub open spec fn host_spec(url: Seq<char>) -> Option<Seq<char>> {
    let s1 = match spec_find(url, seq![':', '/', '/'], 0) {
        Some(p) => url.subrange(p + 3, url.len() as int),
        None => url,
    };
    let s2 = match crate::text::spec_rfind_char(s1, '@', s1.len() as int) {
        Some(q) => s1.subrange(q + 1, s1.len() as int),
        None => s1,
    };
    let e1 = cut_at(s2, '/', s2.len() as int);
    let e2 = cut_at(s2, ':', e1);
    let e3 = cut_at(s2, '?', e2);
    let e4 = cut_at(s2, '#', e3);
    let host = s2.subrange(0, e4);
    let trimmed = crate::text::trim_slashes(crate::text::trim_ws(host));
    if trimmed.len() == 0 {
        None
    } else {
        Some(crate::text::lower_of(trimmed))
    }
}

/// Extract the lowercased host from a URL-like string, leniently.
#[verifier::loop_isolation(false)]
pub fn extract_host(url: &str) -> (r: Option<String>)
    ensures
        match r {
            Some(h) => host_spec(url@) == Some(h@),
            None => host_spec(url@) is None,
        },
{
    let chars = str_to_chars(url);
    let n = chars.len();
    let mut scheme: Vec<char> = Vec::new();
    scheme.push(':');
    scheme.push('/');
    scheme.push('/');
    proof {
        assert(scheme@ =~= seq![':', '/', '/']);
    }
    let s1 = match find_from(&chars, &scheme, 0) {
        Some(p) => {
            proof {
                lemma_spec_find_char(url@, seq![':', '/', '/'], 0);
            }
            subrange_chars(&chars, p + 3, n)
        },
        None => chars,
    };
    let n1 = s1.len();
    let s2 = match crate::text::rfind_char_before(&s1, '@', n1) {
        Some(q) => subrange_chars(&s1, q + 1, n1),
        None => s1,
    };
    let n2 = s2.len();
    let mut e = n2;
    let mut pat: Vec<char> = Vec::new();
    pat.push('/');
    proof {
        assert(pat@ =~= seq!['/']);
    }
    if let Some(p) = find_from(&s2, &pat, 0) {
        if p < e {
            e = p;
        }
    }
    proof {
        assert(e as int == cut_at(s2@, '/', n2 as int));
    }
    let ghost e1 = e as int;
    let mut pat2: Vec<char> = Vec::new();
    pat2.push(':');
    proof {
        assert(pat2@ =~= seq![':']);
    }
    if let Some(p) = find_from(&s2, &pat2, 0) {
        if p < e {
            e = p;
        }
    }
    proof {
        assert(e as int == cut_at(s2@, ':', e1));
    }
    let ghost e2 = e as int;
    let mut pat3: Vec<char> = Vec::new();
    pat3.push('?');
    proof {
        assert(pat3@ =~= seq!['?']);
    }
    if let Some(p) = find_from(&s2, &pat3, 0) {
        if p < e {
            e = p;
        }
    }
    proof {
        assert(e as int == cut_at(s2@, '?', e2));
    }
    let ghost e3 = e as int;
    let mut pat4: Vec<char> = Vec::new();
    pat4.push('#');
    proof {
        assert(pat4@ =~= seq!['#']);
    }
    if let Some(p) = find_from(&s2, &pat4, 0) {
        if p < e {
            e = p;
        }
    }
    proof {
        assert(e as int == cut_at(s2@, '#', e3));
        lemma_spec_find_char(s2@, seq!['#'], 0);
        lemma_spec_find_char(s2@, seq!['?'], 0);
        lemma_spec_find_char(s2@, seq![':'], 0);
        lemma_spec_find_char(s2@, seq!['/'], 0);
        assert(0 <= e <= s2@.len());
    }
    let host = subrange_chars(&s2, 0, e);
    let t1 = crate::text::trim_ws_chars(&host);
    let t2 = crate::text::trim_slash_chars(&t1);
    if t2.len() == 0 {
        None
    } else {
        let ts = crate::text::chars_to_string(&t2);
        let low = crate::text::lowercase(ts.as_str());
        Some(low)
    }
}

/// The kinds of filter rule.
#[derive(Clone)]
pub enum RuleKind {
    Domain,
    Substring,
    Wildcard,
}

/// One rule, as managed and persisted.
pub struct RuleRecord {
    pub kind: RuleKind,
    pub pattern: String,
    pub description: Option<String>,
}

/// The persisted rule list.
pub struct PersistedRules {
    pub rules: Vec<RuleRecord>,
}

/// Mathematical image of one rule.
pub struct RuleView {
    pub kind: RuleKind,
    pub pattern: Seq<char>,
    pub description: Option<Seq<char>>,
}

impl View for RuleRecord {
    type V = RuleView;

    open spec fn view(&self) -> RuleView {
        RuleView {
            kind: self.kind,
            pattern: self.pattern@,
            description: match self.description {
                Some(d) => Some(d@),
                None => None,
            },
        }
    }
}

pub open spec fn rules_vw(rs: Seq<RuleRecord>) -> Seq<RuleView> {
    rs.map_values(|r: RuleRecord| r@)
}

/// The compiled matcher: lowercased domain suffixes, substrings and
/// wildcard patterns.
pub struct AdBlock {
    pub domains: Vec<String>,
    pub substrings: Vec<String>,
    pub wildcards: Vec<String>,
}

/// Mathematical image of the matcher.
#[verifier::ext_equal]
pub struct AdBlockView {
    pub domains: Seq<Seq<char>>,
    pub substrings: Seq<Seq<char>>,
    pub wildcards: Seq<Seq<char>>,
}

impl View for AdBlock {
    type V = AdBlockView;

    open spec fn view(&self) -> AdBlockView {
        AdBlockView {
            domains: crate::strs(self.domains@),
            substrings: crate::strs(self.substrings@),
            wildcards: crate::strs(self.wildcards@),
        }
    }
}

/// The domain list keeps no duplicates, as a set would.
pub open spec fn adblock_wf(v: AdBlockView) -> bool {
    forall|a: int, b: int| 0 <= a < b < v.domains.len() ==> v.domains[a] != v.domains[b]
}

/// The host ends with `d` (or equals it).
pub open spec fn host_suffix(h: Seq<char>, d: Seq<char>) -> bool {
    d.len() <= h.len() && h.subrange(h.len() - d.len(), h.len() as int) == d
}

/// The URL's host ends in some domain rule.
pub open spec fn dom_hit(v: AdBlockView, lower: Seq<char>) -> bool {
    match host_spec(lower) {
        Some(h) => exists|i: int|
            0 <= i < v.domains.len() && host_suffix(h, #[trigger] v.domains[i]),
        None => false,
    }
}

/// The URL holds some substring rule.
pub open spec fn sub_hit(v: AdBlockView, lower: Seq<char>) -> bool {
    exists|i: int|
        0 <= i < v.substrings.len() && crate::text::spec_contains(
            lower,
            #[trigger] v.substrings[i],
        )
}

/// Some wildcard rule matches the URL.
pub open spec fn wild_hit(v: AdBlockView, lower: Seq<char>) -> bool {
    exists|i: int|
        0 <= i < v.wildcards.len() && wildcard_match_spec(#[trigger] v.wildcards[i], lower)
}

/// A lowercased URL is blocked when its host ends in a domain rule, or it
/// holds a substring rule, or a wildcard rule matches it.
pub open spec fn hit_spec(v: AdBlockView, lower: Seq<char>) -> bool {
    dom_hit(v, lower) || sub_hit(v, lower) || wild_hit(v, lower)
}

/// Whether `h` ends with `d`, character-wise.
fn ends_with_chars(h: &Vec<char>, d: &str) -> (r: bool)
    ensures
        r == host_suffix(h@, d@),
{
    let dc = str_to_chars(d);
    if dc.len() > h.len() {
        return false;
    }
    match_at(h, &dc, h.len() - dc.len())
}

impl AdBlock {
    /// An empty matcher.
    pub fn new() -> (r: AdBlock)
        ensures
            r@.domains.len() == 0,
            r@.substrings.len() == 0,
            r@.wildcards.len() == 0,
            adblock_wf(r@),
    {
        let r = AdBlock { domains: Vec::new(), substrings: Vec::new(), wildcards: Vec::new() };
        proof {
            assert(r@.domains =~= Seq::<Seq<char>>::empty());
        }
        r
    }

    /// Match the already-lowercased URL against the rules.
    #[verifier::loop_isolation(false)]
    pub fn matches_lowered(&self, lower: &str) -> (r: bool)
        ensures
            r == hit_spec(self@, lower@),
    {
        match extract_host(lower) {
            Some(host) => {
                let hc = str_to_chars(host.as_str());
                let mut i: usize = 0;
                while i < self.domains.len()
                    invariant
                        i <= self.domains@.len(),
                        hc@ == host@,
                        host_spec(lower@) == Some(host@),
                        forall|j: int|
                            0 <= j < i ==> !host_suffix(host@, #[trigger] self@.domains[j]),
                    decreases self.domains@.len() - i,
                {
                    if eq_str(self.domains[i].as_str(), host.as_str()) {
                        proof {
                            assert(self@.domains[i as int] == self.domains@[i as int]@);
                            assert(host@.subrange(0, host@.len() as int) =~= host@);
                            assert(host_suffix(host@, self@.domains[i as int]));
                        }
                        return true;
                    }
                    if ends_with_chars(&hc, self.domains[i].as_str()) {
                        proof {
                            assert(self@.domains[i as int] == self.domains@[i as int]@);
                            assert(host_suffix(host@, self@.domains[i as int]));
                        }
                        return true;
                    }
                    proof {
                        assert(self@.domains[i as int] == self.domains@[i as int]@);
                    }
                    i += 1;
                }
                self.matches_rest(lower)
            },
            None => self.matches_rest(lower),
        }
    }

    /// The substring and wildcard passes.
    #[verifier::loop_isolation(false)]
    fn matches_rest(&self, lower: &str) -> (r: bool)
        ensures
            r == (sub_hit(self@, lower@) || wild_hit(self@, lower@)),
    {
        let lc = str_to_chars(lower);
        let mut i: usize = 0;
        while i < self.substrings.len()
            invariant
                i <= self.substrings@.len(),
                lc@ == lower@,
                forall|j: int|
                    0 <= j < i ==> !crate::text::spec_contains(
                        lower@,
                        #[trigger] self@.substrings[j],
                    ),
            decreases self.substrings@.len() - i,
        {
            let sub = str_to_chars(self.substrings[i].as_str());
            proof {
                assert(self@.substrings[i as int] == self.substrings@[i as int]@);
            }
            if find_from(&lc, &sub, 0).is_some() {
                return true;
            }
            i += 1;
        }
        let mut k: usize = 0;
        while k < self.wildcards.len()
            invariant
                k <= self.wildcards@.len(),
                forall|j: int|
                    0 <= j < self@.substrings.len() ==> !crate::text::spec_contains(
                        lower@,
                        #[trigger] self@.substrings[j],
                    ),
                forall|j: int|
                    0 <= j < k ==> !wildcard_match_spec(#[trigger] self@.wildcards[j], lower@),
            decreases self.wildcards@.len() - k,
        {
            proof {
                assert(self@.wildcards[k as int] == self.wildcards@[k as int]@);
            }
            if wildcard_match(self.wildcards[k].as_str(), lower) {
                return true;
            }
            k += 1;
        }
        false
    }

    /// Whether `url` should be blocked: lowercase it, then match; an empty
    /// URL is never blocked.
    pub fn matches_url(&self, url: &str) -> (r: bool)
        ensures
            r == (url@.len() > 0 && hit_spec(self@, crate::text::lower_of(url@))),
    {
        if url.unicode_len() == 0 {
            return false;
        }
        let lower = crate::text::lowercase(url);
        self.matches_lowered(lower.as_str())
    }
}


/// The first position at or after `i` of the entry reading `x`.
pub open spec fn str_pos_from(s: Seq<Seq<char>>, x: Seq<char>, i: int) -> Option<int>
    decreases s.len() - i,
{
    if i < 0 || i >= s.len() {
        None
    } else if s[i] == x {
        Some(i)
    } else {
        str_pos_from(s, x, i + 1)
    }
}

pub open spec fn str_pos(s: Seq<Seq<char>>, x: Seq<char>) -> Option<int> {
    str_pos_from(s, x, 0)
}

pub proof fn lemma_str_pos_char(s: Seq<Seq<char>>, x: Seq<char>, i: int)
    requires
        0 <= i <= s.len(),
    ensures
        match str_pos_from(s, x, i) {
            Some(k) => i <= k < s.len() && s[k] == x,
            None => forall|j: int| i <= j < s.len() ==> s[j] != x,
        },
    decreases s.len() - i,
{
    if i < s.len() && s[i] != x {
        lemma_str_pos_char(s, x, i + 1);
    }
}

/// Every entry reading `x` removed.
pub open spec fn remove_str(s: Seq<Seq<char>>, x: Seq<char>) -> Seq<Seq<char>>
    decreases s.len(),
{
    if s.len() == 0 {
        Seq::empty()
    } else {
        (if s[0] == x {
            Seq::empty()
        } else {
            seq![s[0]]
        }) + remove_str(s.drop_first(), x)
    }
}

/// Removal shortens the list exactly when the entry was there.
pub proof fn lemma_remove_str_len(s: Seq<Seq<char>>, x: Seq<char>)
    ensures
        remove_str(s, x).len() <= s.len(),
        (remove_str(s, x).len() < s.len()) == s.contains(x),
    decreases s.len(),
{
    if s.len() > 0 {
        lemma_remove_str_len(s.drop_first(), x);
        if s[0] == x {
            assert(s.contains(x));
        } else {
            assert(s.drop_first().contains(x) ==> s.contains(x)) by {
                if s.drop_first().contains(x) {
                    let j = choose|j: int|
                        0 <= j < s.drop_first().len() && s.drop_first()[j] == x;
                    assert(s[j + 1] == x);
                }
            }
            assert(s.contains(x) ==> s.drop_first().contains(x)) by {
                if s.contains(x) {
                    let j = choose|j: int| 0 <= j < s.len() && s[j] == x;
                    assert(j != 0);
                    assert(s.drop_first()[j - 1] == x);
                }
            }
        }
    }
}

/// Remove every entry reading `x` from a string list, in place.
#[verifier::loop_isolation(false)]
fn remove_all_str(v: &mut Vec<String>, x: &str)
    ensures
        crate::strs(final(v)@) == remove_str(crate::strs(old(v)@), x@),
{
    let ghost orig = crate::strs(v@);
    let mut i: usize = 0;
    proof {
        assert(crate::strs(v@).take(0) =~= Seq::<Seq<char>>::empty());
        assert(crate::strs(v@).skip(0) =~= orig);
        assert(Seq::<Seq<char>>::empty() + remove_str(orig, x@) =~= remove_str(orig, x@));
    }
    while i < v.len()
        invariant
            i <= v@.len(),
            remove_str(orig, x@) == crate::strs(v@).take(i as int) + remove_str(
                crate::strs(v@).skip(i as int),
                x@,
            ),
        decreases v@.len() - i,
    {
        let ghost cur = crate::strs(v@);
        proof {
            assert(cur.skip(i as int)[0] == cur[i as int]);
            assert(cur.skip(i as int).drop_first() =~= cur.skip(i + 1));
        }
        if eq_str(v[i].as_str(), x) {
            v.remove(i);
            proof {
                assert(crate::strs(v@).take(i as int) =~= cur.take(i as int));
                assert(crate::strs(v@).skip(i as int) =~= cur.skip(i + 1));
            }
        } else {
            proof {
                assert(cur.take(i as int) + remove_str(cur.skip(i as int), x@) =~= cur.take(i + 1)
                    + remove_str(cur.skip(i + 1), x@));
            }
            i += 1;
        }
    }
    proof {
        let cur = crate::strs(v@);
        assert(cur.skip(i as int) =~= Seq::<Seq<char>>::empty());
        assert(remove_str(cur.skip(i as int), x@) =~= Seq::<Seq<char>>::empty());
        assert(cur.take(i as int) + Seq::<Seq<char>>::empty() =~= cur);
    }
}

/// The first position of the string reading `x` in `v`, if any.
fn find_str_index(v: &Vec<String>, x: &str) -> (r: Option<usize>)
    ensures
        ({
            let s = str_pos(crate::strs(v@), x@);
            match r {
                Some(i) => s == Some(i as int) && i < v@.len(),
                None => s is None,
            }
        }),
{
    let n = v.len();
    let mut i: usize = 0;
    while i < n
        invariant
            n == v@.len(),
            i <= n,
            str_pos(crate::strs(v@), x@) == str_pos_from(crate::strs(v@), x@, i as int),
        decreases n - i,
    {
        proof {
            assert(crate::strs(v@)[i as int] == v@[i as int]@);
        }
        if eq_str(v[i].as_str(), x) {
            return Some(i);
        }
        proof {
            assert(str_pos_from(crate::strs(v@), x@, i as int) == str_pos_from(
                crate::strs(v@),
                x@,
                i + 1,
            ));
        }
        i += 1;
    }
    None
}

/// One rule folded into the matcher: trim, lowercase, drop empties, and
/// deduplicate domains.
pub open spec fn apply_rule(v: AdBlockView, r: RuleView) -> AdBlockView {
    let t = crate::text::lower_of(crate::text::trim_ws(r.pattern));
    if t.len() == 0 {
        v
    } else {
        match r.kind {
            RuleKind::Domain => if v.domains.contains(t) {
                v
            } else {
                AdBlockView { domains: v.domains.push(t), ..v }
            },
            RuleKind::Substring => AdBlockView { substrings: v.substrings.push(t), ..v },
            RuleKind::Wildcard => AdBlockView { wildcards: v.wildcards.push(t), ..v },
        }
    }
}

/// Fold `apply_rule` over `rules[i..]`.
pub open spec fn absorb_rules(rules: Seq<RuleView>, i: int, v: AdBlockView) -> AdBlockView
    decreases rules.len() - i,
{
    if i < 0 || i >= rules.len() {
        v
    } else {
        absorb_rules(rules, i + 1, apply_rule(v, rules[i]))
    }
}

/// Absorbing rules keeps the domain list free of duplicates.
proof fn lemma_absorb_rules_wf(rules: Seq<RuleView>, i: int, v: AdBlockView)
    requires
        0 <= i <= rules.len(),
        adblock_wf(v),
    ensures
        adblock_wf(absorb_rules(rules, i, v)),
    decreases rules.len() - i,
{
    if i < rules.len() {
        let v2 = apply_rule(v, rules[i]);
        assert(adblock_wf(v2)) by {
            let t = crate::text::lower_of(crate::text::trim_ws(rules[i].pattern));
            if t.len() > 0 && rules[i].kind is Domain && !v.domains.contains(t) {
                assert(forall|j: int| 0 <= j < v.domains.len() ==> v.domains[j] != t);
                assert(forall|a: int, b: int|
                    0 <= a < b < v2.domains.len() ==> v2.domains[a] != v2.domains[b]);
            }
        }
        lemma_absorb_rules_wf(rules, i + 1, v2);
    }
}

impl AdBlock {
    /// Fold a persisted rule list into a fresh matcher: each pattern is
    /// trimmed and lowercased, empty patterns are dropped, and domains are
    /// deduplicated.
    #[verifier::loop_isolation(false)]
    pub fn from_persisted(p: PersistedRules) -> (r: AdBlock)
        ensures
            r@ == absorb_rules(rules_vw(p.rules@), 0, AdBlockView {
                domains: Seq::empty(),
                substrings: Seq::empty(),
                wildcards: Seq::empty(),
            }),
            adblock_wf(r@),
    {
        let ghost rv = rules_vw(p.rules@);
        let ghost v0 = AdBlockView {
            domains: Seq::<Seq<char>>::empty(),
            substrings: Seq::<Seq<char>>::empty(),
            wildcards: Seq::<Seq<char>>::empty(),
        };
        let mut ab = AdBlock::new();
        proof {
            assert(ab@ =~~= v0);
            lemma_absorb_rules_wf(rv, 0, v0);
        }
        let n = p.rules.len();
        let mut i: usize = 0;
        while i < n
            invariant
                i <= n,
                n == p.rules@.len(),
                rv == rules_vw(p.rules@),
                absorb_rules(rv, 0, v0) == absorb_rules(rv, i as int, ab@),
            decreases n - i,
        {
            let ghost before = ab@;
            proof {
                assert(rv[i as int] == p.rules@[i as int]@);
            }
            let rule = &p.rules[i];
            let tc = str_to_chars(rule.pattern.as_str());
            let tt = crate::text::trim_ws_chars(&tc);
            let ts = crate::text::chars_to_string(&tt);
            let low = crate::text::lowercase(ts.as_str());
            if low.unicode_len() > 0 {
                match &rule.kind {
                    RuleKind::Domain => {
                        match find_str_index(&ab.domains, low.as_str()) {
                            Some(_) => {
                                proof {
                                    lemma_str_pos_char(before.domains, low@, 0);
                                    assert(before.domains.contains(low@));
                                    assert(ab@ =~~= apply_rule(before, rv[i as int]));
                                }
                            },
                            None => {
                                proof {
                                    lemma_str_pos_char(before.domains, low@, 0);
                                    assert(!before.domains.contains(low@)) by {
                                        if before.domains.contains(low@) {
                                            let j = choose|j: int|
                                                0 <= j < before.domains.len()
                                                    && before.domains[j] == low@;
                                        }
                                    }
                                }
                                ab.domains.push(low);
                                proof {
                                    assert(ab@ =~~= apply_rule(before, rv[i as int]));
                                }
                            },
                        }
                    },
                    RuleKind::Substring => {
                        ab.substrings.push(low);
                        proof {
                            assert(ab@ =~~= apply_rule(before, rv[i as int]));
                        }
                    },
                    RuleKind::Wildcard => {
                        ab.wildcards.push(low);
                        proof {
                            assert(ab@ =~~= apply_rule(before, rv[i as int]));
                        }
                    },
                }
            } else {
                proof {
                    assert(ab@ == apply_rule(before, rv[i as int]));
                }
            }
            i += 1;
        }
        ab
    }

    /// Add one rule: the pattern is lowercased; a domain already present is
    /// not added twice.
    pub fn add_rule(&mut self, rule: RuleRecord)
        ensures
            ({
                let t = crate::text::lower_of(rule.pattern@);
                match rule.kind {
                    RuleKind::Domain => {
                        &&& final(self)@.substrings == old(self)@.substrings
                        &&& final(self)@.wildcards == old(self)@.wildcards
                        &&& final(self)@.domains == (if old(self)@.domains.contains(t) {
                            old(self)@.domains
                        } else {
                            old(self)@.domains.push(t)
                        })
                    },
                    RuleKind::Substring => {
                        &&& final(self)@.domains == old(self)@.domains
                        &&& final(self)@.wildcards == old(self)@.wildcards
                        &&& final(self)@.substrings == old(self)@.substrings.push(t)
                    },
                    RuleKind::Wildcard => {
                        &&& final(self)@.domains == old(self)@.domains
                        &&& final(self)@.substrings == old(self)@.substrings
                        &&& final(self)@.wildcards == old(self)@.wildcards.push(t)
                    },
                }
            }),
            adblock_wf(old(self)@) ==> adblock_wf(final(self)@),
    {
        let low = crate::text::lowercase(rule.pattern.as_str());
        match &rule.kind {
            RuleKind::Domain => {
                let ghost before = self@;
                match find_str_index(&self.domains, low.as_str()) {
                    Some(_) => {
                        proof {
                            lemma_str_pos_char(before.domains, low@, 0);
                            assert(before.domains.contains(low@));
                        }
                    },
                    None => {
                        proof {
                            lemma_str_pos_char(before.domains, low@, 0);
                            assert(!before.domains.contains(low@)) by {
                                if before.domains.contains(low@) {
                                    let j = choose|j: int|
                                        0 <= j < before.domains.len() && before.domains[j]
                                            == low@;
                                }
                            }
                        }
                        self.domains.push(low);
                        proof {
                            assert(self@.domains =~= before.domains.push(
                                crate::text::lower_of(rule.pattern@),
                            ));
                        }
                    },
                }
            },
            RuleKind::Substring => {
                self.substrings.push(low);
                proof {
                    assert(self@.substrings =~= old(self)@.substrings.push(
                        crate::text::lower_of(rule.pattern@),
                    ));
                }
            },
            RuleKind::Wildcard => {
                self.wildcards.push(low);
                proof {
                    assert(self@.wildcards =~= old(self)@.wildcards.push(
                        crate::text::lower_of(rule.pattern@),
                    ));
                }
            },
        }
    }

    /// Remove every rule of the kind whose pattern, trimmed and lowercased,
    /// reads `pattern`; reports whether any was removed.
    pub fn remove_rule(&mut self, kind: RuleKind, pattern: &str) -> (r: bool)
        ensures
            ({
                let t = crate::text::lower_of(crate::text::trim_ws(pattern@));
                match kind {
                    RuleKind::Domain => {
                        &&& final(self)@.substrings == old(self)@.substrings
                        &&& final(self)@.wildcards == old(self)@.wildcards
                        &&& final(self)@.domains == remove_str(old(self)@.domains, t)
                        &&& r == old(self)@.domains.contains(t)
                    },
                    RuleKind::Substring => {
                        &&& final(self)@.domains == old(self)@.domains
                        &&& final(self)@.wildcards == old(self)@.wildcards
                        &&& final(self)@.substrings == remove_str(old(self)@.substrings, t)
                        &&& r == old(self)@.substrings.contains(t)
                    },
                    RuleKind::Wildcard => {
                        &&& final(self)@.domains == old(self)@.domains
                        &&& final(self)@.substrings == old(self)@.substrings
                        &&& final(self)@.wildcards == remove_str(old(self)@.wildcards, t)
                        &&& r == old(self)@.wildcards.contains(t)
                    },
                }
            }),
    {
        let tc = str_to_chars(pattern);
        let tt = crate::text::trim_ws_chars(&tc);
        let ts = crate::text::chars_to_string(&tt);
        let low = crate::text::lowercase(ts.as_str());
        match &kind {
            RuleKind::Domain => {
                let before_len = self.domains.len();
                proof {
                    lemma_remove_str_len(self@.domains, low@);
                }
                remove_all_str(&mut self.domains, low.as_str());
                self.domains.len() != before_len
            },
            RuleKind::Substring => {
                let before_len = self.substrings.len();
                proof {
                    lemma_remove_str_len(self@.substrings, low@);
                }
                remove_all_str(&mut self.substrings, low.as_str());
                self.substrings.len() != before_len
            },
            RuleKind::Wildcard => {
                let before_len = self.wildcards.len();
                proof {
                    lemma_remove_str_len(self@.wildcards, low@);
                }
                remove_all_str(&mut self.wildcards, low.as_str());
                self.wildcards.len() != before_len
            },
        }
    }

    /// The rules as records: domains first, then substrings, then
    /// wildcards, each without a description.
    #[verifier::loop_isolation(false)]
    pub fn list_rules(&self) -> (r: Vec<RuleRecord>)
        ensures
            r@.len() == self@.domains.len() + self@.substrings.len() + self@.wildcards.len(),
            forall|i: int|
                0 <= i < self@.domains.len() ==> (#[trigger] r@[i]@).kind is Domain && r@[i]@.pattern
                    == self@.domains[i] && r@[i]@.description is None,
            forall|i: int|
                self@.domains.len() <= i < self@.domains.len() + self@.substrings.len() ==> (
                #[trigger] r@[i]@).kind is Substring && r@[i]@.pattern == self@.substrings[i
                    - self@.domains.len()] && r@[i]@.description is None,
            forall|i: int|
                self@.domains.len() + self@.substrings.len() <= i < r@.len() ==> (
                #[trigger] r@[i]@).kind is Wildcard && r@[i]@.pattern == self@.wildcards[i
                    - self@.domains.len() - self@.substrings.len()] && r@[i]@.description is None,
    {
        let mut out: Vec<RuleRecord> = Vec::new();
        let mut i: usize = 0;
        while i < self.domains.len()
            invariant
                i <= self@.domains.len(),
                out@.len() == i,
                forall|j: int|
                    0 <= j < i ==> (#[trigger] out@[j]@).kind is Domain && out@[j]@.pattern
                        == self@.domains[j] && out@[j]@.description is None,
            decreases self@.domains.len() - i,
        {
            proof {
                assert(self@.domains[i as int] == self.domains@[i as int]@);
            }
            out.push(
                RuleRecord {
                    kind: RuleKind::Domain,
                    pattern: self.domains[i].clone(),
                    description: None,
                },
            );
            i += 1;
        }
        let mut k: usize = 0;
        while k < self.substrings.len()
            invariant
                k <= self@.substrings.len(),
                out@.len() == self@.domains.len() + k,
                forall|j: int|
                    0 <= j < self@.domains.len() ==> (#[trigger] out@[j]@).kind is Domain
                        && out@[j]@.pattern == self@.domains[j] && out@[j]@.description is None,
                forall|j: int|
                    self@.domains.len() <= j < self@.domains.len() + k ==> (
                    #[trigger] out@[j]@).kind is Substring && out@[j]@.pattern == self@.substrings[j
                        - self@.domains.len()] && out@[j]@.description is None,
            decreases self@.substrings.len() - k,
        {
            proof {
                assert(self@.substrings[k as int] == self.substrings@[k as int]@);
            }
            out.push(
                RuleRecord {
                    kind: RuleKind::Substring,
                    pattern: self.substrings[k].clone(),
                    description: None,
                },
            );
            k += 1;
        }
        let mut w: usize = 0;
        while w < self.wildcards.len()
            invariant
                w <= self@.wildcards.len(),
                out@.len() == self@.domains.len() + self@.substrings.len() + w,
                forall|j: int|
                    0 <= j < self@.domains.len() ==> (#[trigger] out@[j]@).kind is Domain
                        && out@[j]@.pattern == self@.domains[j] && out@[j]@.description is None,
                forall|j: int|
                    self@.domains.len() <= j < self@.domains.len() + self@.substrings.len() ==> (
                    #[trigger] out@[j]@).kind is Substring && out@[j]@.pattern == self@.substrings[j
                        - self@.domains.len()] && out@[j]@.description is None,
                forall|j: int|
                    self@.domains.len() + self@.substrings.len() <= j < out@.len() ==> (
                    #[trigger] out@[j]@).kind is Wildcard && out@[j]@.pattern == self@.wildcards[j
                        - self@.domains.len() - self@.substrings.len()] && out@[j]@.description
                        is None,
            decreases self@.wildcards.len() - w,
        {
            proof {
                assert(self@.wildcards[w as int] == self.wildcards@[w as int]@);
            }
            out.push(
                RuleRecord {
                    kind: RuleKind::Wildcard,
                    pattern: self.wildcards[w].clone(),
                    description: None,
                },
            );
            w += 1;
        }
        out
    }

    /// Flatten the matcher into the persisted record list.
    pub fn to_persisted(&self) -> (r: PersistedRules)
        ensures
            r.rules@.len() == self@.domains.len() + self@.substrings.len()
                + self@.wildcards.len(),
            forall|i: int|
                0 <= i < self@.domains.len() ==> (#[trigger] r.rules@[i]@).kind is Domain
                    && r.rules@[i]@.pattern == self@.domains[i],
            forall|i: int|
                self@.domains.len() <= i < self@.domains.len() + self@.substrings.len() ==> (
                #[trigger] r.rules@[i]@).kind is Substring && r.rules@[i]@.pattern
                    == self@.substrings[i - self@.domains.len()],
            forall|i: int|
                self@.domains.len() + self@.substrings.len() <= i < r.rules@.len() ==> (
                #[trigger] r.rules@[i]@).kind is Wildcard && r.rules@[i]@.pattern
                    == self@.wildcards[i - self@.domains.len() - self@.substrings.len()],
    {
        PersistedRules { rules: self.list_rules() }
    }

    /// The built-in starter rules: ten domain suffixes, six substrings and
    /// three wildcard patterns.
    pub fn with_default_rules() -> (r: AdBlock)
        ensures
            r@.domains.len() == 10,
            r@.substrings.len() == 6,
            r@.wildcards.len() == 3,
            r@.domains[0] == "doubleclick.net"@,
            r@.substrings[0] == "/ads.js"@,
            r@.wildcards[0] == "*.doubleclick.net/*"@,
            adblock_wf(r@),
    {
        let mut ab = AdBlock::new();
        ab.domains.push("doubleclick.net".to_owned());
        ab.domains.push("googlesyndication.com".to_owned());
        ab.domains.push("adservice.google.com".to_owned());
        ab.domains.push("ads.google.com".to_owned());
        ab.domains.push("pagead2.googlesyndication.com".to_owned());
        ab.domains.push("googlesyndication".to_owned());
        ab.domains.push("adsystem.com".to_owned());
        ab.domains.push("adnxs.com".to_owned());
        ab.domains.push("ads.yahoo.com".to_owned());
        ab.domains.push("adserver".to_owned());
        ab.substrings.push("/ads.js".to_owned());
        ab.substrings.push("/ads/".to_owned());
        ab.substrings.push("/adframe".to_owned());
        ab.substrings.push("adclick".to_owned());
        ab.substrings.push("bannerad".to_owned());
        ab.substrings.push("clickad".to_owned());
        ab.wildcards.push("*.doubleclick.net/*".to_owned());
        ab.wildcards.push("*.googlesyndication.com/*".to_owned());
        ab.wildcards.push("*.adnxs.com/*".to_owned());
        proof {
            reveal_strlit("doubleclick.net");
            reveal_strlit("googlesyndication.com");
            reveal_strlit("adservice.google.com");
            reveal_strlit("ads.google.com");
            reveal_strlit("pagead2.googlesyndication.com");
            reveal_strlit("googlesyndication");
            reveal_strlit("adsystem.com");
            reveal_strlit("adnxs.com");
            reveal_strlit("ads.yahoo.com");
            reveal_strlit("adserver");
            assert(ab@.domains =~= seq![
                "doubleclick.net"@,
                "googlesyndication.com"@,
                "adservice.google.com"@,
                "ads.google.com"@,
                "pagead2.googlesyndication.com"@,
                "googlesyndication"@,
                "adsystem.com"@,
                "adnxs.com"@,
                "ads.yahoo.com"@,
                "adserver"@,
            ]);
            assert forall|a: int, b: int|
                0 <= a < b < ab@.domains.len() implies ab@.domains[a] != ab@.domains[b] by {
                assert(ab@.domains[a].len() != ab@.domains[b].len());
            }
            assert(adblock_wf(ab@));
        }
        ab
    }
}

} // verus!
