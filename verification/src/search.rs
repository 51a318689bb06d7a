//! The ranking engine: OR-semantics candidate gathering, fixed-point TF-IDF
//! scoring, and ordering by score with recency as the tie-break.

use vstd::prelude::*;

use crate::index::Index;
use crate::index::TermPostings;
use crate::index::IndexView;
use crate::index::TermView;
use crate::index::DocView;
use crate::index::inv_vw;
use crate::index::term_pos;
use crate::score::contribution;
use crate::score::contribution_micro;
use crate::score::sat_add128;
use crate::text::spec_rfind_char;
use crate::text::str_to_chars;
use crate::text::rfind_char_before;
use crate::tokenizer::tokenize;
use crate::tokenizer::tokenize_spec;

verus! {

/// One ranked hit: document metadata, a content snippet, and the score in
/// micro units.
pub struct SearchResult {
    pub id: u64,
    pub url: String,
    pub title: String,
    pub snippet: String,
    pub score: u128,
    pub created_at: u64,
}

/// Mathematical image of a ranked hit.
pub struct SearchResultView {
    pub id: u64,
    pub url: Seq<char>,
    pub title: Seq<char>,
    pub snippet: Seq<char>,
    pub score: u128,
    pub created_at: u64,
}

impl View for SearchResult {
    type V = SearchResultView;

    open spec fn view(&self) -> SearchResultView {
        SearchResultView {
            id: self.id,
            url: self.url@,
            title: self.title@,
            snippet: self.snippet@,
            score: self.score,
            created_at: self.created_at,
        }
    }
}

pub open spec fn res_vw(s: Seq<SearchResult>) -> Seq<SearchResultView> {
    s.map_values(|r: SearchResult| r@)
}

/// The snippet shown for a document: the first 200 characters, trimmed back
/// to the last space inside that window; short content is kept whole.
pub open spec fn snippet_spec(c: Seq<char>) -> Seq<char> {
    if c.len() > 200 {
        let w = c.take(200);
        match spec_rfind_char(w, ' ', 200) {
            Some(p) => w.take(p),
            None => w,
        }
    } else {
        c
    }
}

/// The term `t` has a posting for document `id`.
pub open spec fn token_hit(inv: Seq<TermView>, t: Seq<char>, id: u64) -> bool {
    match term_pos(inv, t) {
        Some(b) => exists|j: int|
            0 <= j < inv[b].posts.len() && (#[trigger] inv[b].posts[j]).0 == id,
        None => false,
    }
}

/// OR semantics: a document is a candidate when at least one query term has
/// a posting for it.
pub open spec fn is_candidate(inv: Seq<TermView>, toks: Seq<Seq<char>>, id: u64) -> bool {
    exists|i: int| 0 <= i < toks.len() && #[trigger] token_hit(inv, toks[i], id)
}

/// The score gathered from the first `j` postings of one term's list.
pub open spec fn posts_score_upto(
    posts: Seq<(u64, u32)>,
    n: nat,
    df: nat,
    id: u64,
    j: int,
) -> u128
    decreases j,
{
    if j <= 0 || j > posts.len() {
        0
    } else {
        let prev = posts_score_upto(posts, n, df, id, j - 1);
        if posts[j - 1].0 == id {
            sat_add128(prev, contribution_micro(posts[j - 1].1, n, df))
        } else {
            prev
        }
    }
}

/// What one occurrence of the query term `t` adds to the score of `id`.
pub open spec fn token_score(inv: Seq<TermView>, t: Seq<char>, n: nat, id: u64) -> u128 {
    match term_pos(inv, t) {
        Some(b) => posts_score_upto(inv[b].posts, n, inv[b].posts.len() as nat, id, inv[b].posts.len() as int),
        None => 0,
    }
}

/// The score gathered from the first `i` query terms.
pub open spec fn score_upto(
    inv: Seq<TermView>,
    toks: Seq<Seq<char>>,
    n: nat,
    id: u64,
    i: int,
) -> u128
    decreases i,
{
    if i <= 0 || i > toks.len() {
        0
    } else {
        sat_add128(score_upto(inv, toks, n, id, i - 1), token_score(inv, toks[i - 1], n, id))
    }
}

/// The accumulated TF-IDF score of document `id` against the query terms;
/// each occurrence of a query term counts.
pub open spec fn doc_score(inv: Seq<TermView>, toks: Seq<Seq<char>>, n: nat, id: u64) -> u128 {
    score_upto(inv, toks, n, id, toks.len() as int)
}

pub open spec fn mk_result(d: DocView, sc: u128) -> SearchResultView {
    SearchResultView {
        id: d.id,
        url: d.url,
        title: d.title,
        snippet: snippet_spec(d.content),
        score: sc,
        created_at: d.created_at,
    }
}

/// The candidate hits in store order from position `i` on.
pub open spec fn cand_from(
    docs: Seq<DocView>,
    inv: Seq<TermView>,
    toks: Seq<Seq<char>>,
    n: nat,
    i: int,
) -> Seq<SearchResultView>
    decreases docs.len() - i,
{
    if i < 0 || i >= docs.len() {
        Seq::empty()
    } else {
        (if is_candidate(inv, toks, docs[i].id) {
            seq![mk_result(docs[i], doc_score(inv, toks, n, docs[i].id))]
        } else {
            Seq::empty()
        }) + cand_from(docs, inv, toks, n, i + 1)
    }
}

/// All candidate hits of the index against the query terms.
pub open spec fn cand_results(v: IndexView, toks: Seq<Seq<char>>) -> Seq<SearchResultView> {
    cand_from(v.docs, v.inverted, toks, v.docs.len() as nat, 0)
}

/// Best-first order: higher score first, and more recent first on equal
/// scores.
pub open spec fn key_ge(a: SearchResultView, b: SearchResultView) -> bool {
    a.score > b.score || (a.score == b.score && a.created_at >= b.created_at)
}

pub open spec fn sorted_desc(rs: Seq<SearchResultView>) -> bool {
    forall|i: int, j: int| 0 <= i < j < rs.len() ==> key_ge(rs[i], rs[j])
}

/// What `search` returns: some best-first ordering of exactly the candidate
/// hits, cut to the limit.
pub open spec fn search_ok(
    v: IndexView,
    q: Seq<char>,
    limit: int,
    rs: Seq<SearchResultView>,
) -> bool {
    let cands = cand_results(v, tokenize_spec(q));
    exists|full: Seq<SearchResultView>|
        {
            &&& #[trigger] full.to_multiset() == cands.to_multiset()
            &&& sorted_desc(full)
            &&& rs == full.take(if limit < full.len() {
                limit
            } else {
                full.len() as int
            })
        }
}

/// Score one document against the query terms and report whether it is a
/// candidate at all.
#[verifier::loop_isolation(false)]
fn score_doc(inv: &Vec<TermPostings>, tokens: &Vec<String>, n_docs: usize, id: u64) -> (r: (
    u128,
    bool,
))
    ensures
        r.0 == doc_score(inv_vw(inv@), tokens.deep_view(), n_docs as nat, id),
        r.1 == is_candidate(inv_vw(inv@), tokens.deep_view(), id),
{
    let ghost iv = inv_vw(inv@);
    let ghost toks = tokens.deep_view();
    let mut acc: u128 = 0;
    let mut seen = false;
    let mut i: usize = 0;
    while i < tokens.len()
        invariant
            i <= toks.len(),
            acc == score_upto(iv, toks, n_docs as nat, id, i as int),
            seen == exists|i0: int| 0 <= i0 < i && #[trigger] token_hit(iv, toks[i0], id),
        decreases toks.len() - i,
    {
        proof {
            assert(toks[i as int] == tokens@[i as int]@);
        }
        match crate::index::find_term_index(inv, tokens[i].as_str()) {
            Some(b) => {
                let df = inv[b].postings.len();
                let ghost posts = iv[b as int].posts;
                let mut acc2: u128 = 0;
                let mut hit = false;
                let mut j: usize = 0;
                while j < inv[b].postings.len()
                    invariant
                        b < inv@.len(),
                        term_pos(iv, toks[i as int]) == Some(b as int),
                        df == posts.len(),
                        j <= posts.len(),
                        posts == iv[b as int].posts,
                        acc2 == posts_score_upto(posts, n_docs as nat, df as nat, id, j as int),
                        hit == exists|j0: int|
                            0 <= j0 < j && (#[trigger] posts[j0]).0 == id,
                    decreases posts.len() - j,
                {
                    let p = inv[b].postings[j];
                    proof {
                        assert(p@ == posts[j as int]);
                    }
                    if p.0 == id {
                        let c = contribution(p.1, n_docs, df);
                        acc2 = acc2.saturating_add(c);
                        hit = true;
                        proof {
                            assert((posts[j as int]).0 == id);
                        }
                    }
                    j += 1;
                }
                proof {
                    assert(token_score(iv, toks[i as int], n_docs as nat, id) == acc2);
                    if hit {
                        assert(token_hit(iv, toks[i as int], id));
                    } else {
                        assert(!token_hit(iv, toks[i as int], id));
                    }
                }
                acc = acc.saturating_add(acc2);
                seen = seen || hit;
            },
            None => {
                proof {
                    assert(token_score(iv, toks[i as int], n_docs as nat, id) == 0);
                    assert(sat_add128(acc, 0) == acc);
                    assert(!token_hit(iv, toks[i as int], id));
                }
            },
        }
        i += 1;
    }
    (acc, seen)
}

/// The first 200 characters of `content`, trimmed back to the last space in
/// that window; short content is returned whole.
pub fn make_snippet(content: &str) -> (r: String)
    ensures
        r@ == snippet_spec(content@),
{
    let n = content.unicode_len();
    if n > 200 {
        let w = content.substring_char(0, 200);
        let chars = str_to_chars(w);
        match rfind_char_before(&chars, ' ', 200) {
            Some(p) => {
                let s = w.substring_char(0, p);
                s.to_owned()
            },
            None => w.to_owned(),
        }
    } else {
        content.to_owned()
    }
}

impl Index {
    /// Rank the stored documents against `query`: every document with a
    /// posting for at least one query term is scored and listed best first,
    /// at most `limit` of them.
    #[verifier::loop_isolation(false)]
    pub fn search(&self, query: &str, limit: usize) -> (rs: Vec<SearchResult>)
        ensures
            search_ok(self@, query@, limit as int, res_vw(rs@)),
    {
        broadcast use vstd::seq_lib::to_multiset_insert;
        broadcast use vstd::seq_lib::to_multiset_build;
        broadcast use vstd::seq_lib::lemma_multiset_commutative;
        broadcast use vstd::multiset::group_multiset_axioms;

        let tokens = tokenize(query);
        let ghost toks = tokenize_spec(query@);
        let ghost dv = self@.docs;
        let ghost iv = self@.inverted;
        let n = self.docs.len();
        let ghost cands = cand_results(self@, toks);
        let mut out: Vec<SearchResult> = Vec::new();
        let mut i: usize = 0;
        proof {
            assert(res_vw(out@) =~= Seq::<SearchResultView>::empty());
            assert(res_vw(out@) + cand_from(dv, iv, toks, n as nat, 0) =~= cand_from(
                dv,
                iv,
                toks,
                n as nat,
                0,
            ));
            assert((res_vw(out@) + cand_from(dv, iv, toks, n as nat, 0)).to_multiset() =~= res_vw(
                out@,
            ).to_multiset().add(cand_from(dv, iv, toks, n as nat, 0).to_multiset()));
        }
        while i < n
            invariant
                i <= n,
                n == dv.len(),
                sorted_desc(res_vw(out@)),
                cands.to_multiset() == res_vw(out@).to_multiset().add(
                    cand_from(dv, iv, toks, n as nat, i as int).to_multiset(),
                ),
            decreases n - i,
        {
            let doc = &self.docs[i];
            let (sc, seen) = score_doc(&self.inverted, &tokens, n, doc.id);
            if seen {
                let r = SearchResult {
                    id: doc.id,
                    url: doc.url.clone(),
                    title: doc.title.clone(),
                    snippet: make_snippet(doc.content.as_str()),
                    score: sc,
                    created_at: doc.created_at,
                };
                proof {
                    assert(r@ == mk_result(dv[i as int], doc_score(iv, toks, n as nat, dv[i as int].id)));
                }
                let pos = sorted_insert_pos(&out, &r);
                let ghost before = res_vw(out@);
                let ghost rv = r@;
                out.insert(pos, r);
                proof {
                    assert(res_vw(out@) =~= before.insert(pos as int, rv));
                    assert(res_vw(out@).to_multiset() == before.to_multiset().insert(rv));
                    let tail = cand_from(dv, iv, toks, n as nat, i + 1);
                    assert(cand_from(dv, iv, toks, n as nat, i as int) =~= seq![rv] + tail);
                    vstd::seq_lib::lemma_multiset_commutative(seq![rv], tail);
                    assert(seq![rv] =~= Seq::<SearchResultView>::empty().push(rv));
                    assert(seq![rv].to_multiset() =~= Seq::<
                        SearchResultView,
                    >::empty().to_multiset().insert(rv));
                    assert(before.to_multiset().add(
                        cand_from(dv, iv, toks, n as nat, i as int).to_multiset(),
                    ) =~= res_vw(out@).to_multiset().add(tail.to_multiset()));
                }
            } else {
                proof {
                    assert(cand_from(dv, iv, toks, n as nat, i as int) =~= cand_from(
                        dv,
                        iv,
                        toks,
                        n as nat,
                        i + 1,
                    ));
                }
            }
            i += 1;
        }
        proof {
            assert(cand_from(dv, iv, toks, n as nat, n as int) =~= Seq::<
                SearchResultView,
            >::empty());
            assert(res_vw(out@) + cand_from(dv, iv, toks, n as nat, n as int) =~= res_vw(out@));
            assert((res_vw(out@) + cand_from(dv, iv, toks, n as nat, n as int)).to_multiset()
                =~= res_vw(out@).to_multiset().add(
                cand_from(dv, iv, toks, n as nat, n as int).to_multiset(),
            ));
            assert(cands.to_multiset() =~= res_vw(out@).to_multiset());
        }
        let ghost full = res_vw(out@);
        if out.len() > limit {
            out.truncate(limit);
        }
        proof {
            assert(res_vw(out@) =~= full.take(
                if (limit as int) < full.len() {
                    limit as int
                } else {
                    full.len() as int
                },
            ));
        }
        out
    }
}

/// The position where `r` belongs in the best-first list `out`: after every
/// entry at least as good, before the first strictly worse one.
#[verifier::loop_isolation(false)]
fn sorted_insert_pos(out: &Vec<SearchResult>, r: &SearchResult) -> (pos: usize)
    requires
        sorted_desc(res_vw(out@)),
    ensures
        pos <= out@.len(),
        sorted_desc(res_vw(out@).insert(pos as int, r@)),
{
    let n = out.len();
    let mut pos: usize = 0;
    while pos < n
        invariant
            pos <= n,
            n == out@.len(),
            forall|j: int| 0 <= j < pos ==> key_ge(res_vw(out@)[j], r@),
        decreases n - pos,
    {
        let worse = out[pos].score < r.score || (out[pos].score == r.score && out[pos].created_at
            < r.created_at);
        if worse {
            proof {
                lemma_insert_sorted(res_vw(out@), r@, pos as int);
            }
            return pos;
        }
        pos += 1;
    }
    proof {
        lemma_insert_sorted(res_vw(out@), r@, pos as int);
    }
    n
}

/// Inserting at a position whose predecessors are at least as good and
/// whose successor, if any, is strictly worse keeps the list sorted.
proof fn lemma_insert_sorted(s: Seq<SearchResultView>, r: SearchResultView, pos: int)
    requires
        sorted_desc(s),
        0 <= pos <= s.len(),
        forall|j: int| 0 <= j < pos ==> key_ge(s[j], r),
        pos < s.len() ==> !key_ge(s[pos], r),
    ensures
        sorted_desc(s.insert(pos, r)),
{
    let t = s.insert(pos, r);
    assert forall|a: int, b: int| 0 <= a < b < t.len() implies key_ge(t[a], t[b]) by {
        if b < pos {
            assert(t[a] == s[a] && t[b] == s[b]);
        } else if b == pos {
            assert(t[a] == s[a] && t[b] == r);
        } else if a == pos {
            assert(t[a] == r && t[b] == s[b - 1]);
            assert(!key_ge(s[pos], r));
            assert(key_ge(s[pos], s[b - 1]) || pos == b - 1);
        } else if a < pos {
            assert(t[a] == s[a] && t[b] == s[b - 1]);
        } else {
            assert(t[a] == s[a - 1] && t[b] == s[b - 1]);
        }
    }
}

} // verus!
