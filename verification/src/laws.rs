//! The laws the index keeps: replacing by URL leaves one document under the
//! URL, a removed document vanishes from the store, the postings and every
//! later search, and a query of nothing finds nothing.

use vstd::prelude::*;

use crate::index::DocView;
use crate::index::TermView;
use crate::index::IndexView;
use crate::index::has_doc_id;
use crate::index::url_pos;
use crate::index::url_pos_from;
use crate::index::mentions_doc;
use crate::index::remove_posts;
use crate::index::remove_docs;
use crate::index::prune_inv;
use crate::index::remove_doc_spec;
use crate::index::remove_by_url;
use crate::index::apply_count;
use crate::index::add_posts_from;
use crate::index::term_pos;
use crate::index::index_page_spec;
use crate::index::lemma_doc_pos_char;
use crate::index::lemma_prune_clean;
use crate::search::search_ok;
use crate::search::cand_from;
use crate::search::cand_results;
use crate::search::is_candidate;
use crate::search::token_hit;
use crate::search::SearchResultView;
use crate::tokenizer::tokenize_spec;

verus! {

/// How many documents carry the URL.
pub open spec fn url_count(docs: Seq<DocView>, url: Seq<char>) -> nat
    decreases docs.len(),
{
    if docs.len() == 0 {
        0
    } else {
        (if docs[0].url == url {
            1nat
        } else {
            0nat
        }) + url_count(docs.drop_first(), url)
    }
}

proof fn lemma_url_count_push(docs: Seq<DocView>, url: Seq<char>, d: DocView)
    ensures
        url_count(docs.push(d), url) == url_count(docs, url) + (if d.url == url {
            1nat
        } else {
            0nat
        }),
    decreases docs.len(),
{
    if docs.len() == 0 {
        assert(docs.push(d)[0] == d);
        assert(docs.push(d).drop_first() =~= Seq::<DocView>::empty());
        assert(url_count(Seq::<DocView>::empty(), url) == 0);
        assert(url_count(docs, url) == 0);
        assert(url_count(docs.push(d), url) == (if d.url == url {
            1nat
        } else {
            0nat
        }) + url_count(docs.push(d).drop_first(), url));
    } else {
        assert(docs.push(d).drop_first() =~= docs.drop_first().push(d));
        assert(docs.push(d)[0] == docs[0]);
        lemma_url_count_push(docs.drop_first(), url, d);
        assert(url_count(docs.push(d), url) == (if docs[0].url == url {
            1nat
        } else {
            0nat
        }) + url_count(docs.drop_first().push(d), url));
        assert(url_count(docs, url) == (if docs[0].url == url {
            1nat
        } else {
            0nat
        }) + url_count(docs.drop_first(), url));
    }
}

proof fn lemma_url_count_zero(docs: Seq<DocView>, url: Seq<char>)
    requires
        forall|j: int| 0 <= j < docs.len() ==> (#[trigger] docs[j]).url != url,
    ensures
        url_count(docs, url) == 0,
    decreases docs.len(),
{
    if docs.len() > 0 {
        assert(docs[0].url != url);
        assert(forall|j: int|
            0 <= j < docs.drop_first().len() ==> (#[trigger] docs.drop_first()[j]).url != url) by {
            assert(forall|j: int|
                0 <= j < docs.drop_first().len() ==> docs.drop_first()[j] == docs[j + 1]);
        }
        lemma_url_count_zero(docs.drop_first(), url);
    }
}

/// Two distinct documents under one URL force a count of at least two.
proof fn lemma_url_count_two(docs: Seq<DocView>, url: Seq<char>, a: int, b: int)
    requires
        0 <= a < b < docs.len(),
        docs[a].url == url,
        docs[b].url == url,
    ensures
        url_count(docs, url) >= 2,
    decreases docs.len(),
{
    if a == 0 {
        lemma_url_count_one(docs.drop_first(), url, b - 1);
    } else {
        lemma_url_count_two(docs.drop_first(), url, a - 1, b - 1);
    }
}

proof fn lemma_url_count_one(docs: Seq<DocView>, url: Seq<char>, a: int)
    requires
        0 <= a < docs.len(),
        docs[a].url == url,
    ensures
        url_count(docs, url) >= 1,
    decreases docs.len(),
{
    if a > 0 {
        lemma_url_count_one(docs.drop_first(), url, a - 1);
    }
}

/// Removing the id of the only document under a URL leaves none under it.
proof fn lemma_remove_url_doc(docs: Seq<DocView>, url: Seq<char>, oid: u64)
    requires
        forall|j: int| 0 <= j < docs.len() && (#[trigger] docs[j]).url == url ==> docs[j].id == oid,
    ensures
        url_count(remove_docs(docs, oid), url) == 0,
    decreases docs.len(),
{
    if docs.len() > 0 {
        assert(forall|j: int|
            0 <= j < docs.drop_first().len() && (#[trigger] docs.drop_first()[j]).url == url
                ==> docs.drop_first()[j].id == oid) by {
            assert(forall|j: int|
                0 <= j < docs.drop_first().len() ==> docs.drop_first()[j] == docs[j + 1]);
        }
        lemma_remove_url_doc(docs.drop_first(), url, oid);
        if docs[0].id == oid {
            assert(remove_docs(docs, oid) =~= remove_docs(docs.drop_first(), oid));
        } else {
            assert(docs[0].url != url);
            let rest = remove_docs(docs.drop_first(), oid);
            assert(remove_docs(docs, oid) =~= seq![docs[0]] + rest);
            assert((seq![docs[0]] + rest)[0] == docs[0]);
            assert((seq![docs[0]] + rest).drop_first() =~= rest);
        }
    }
}

/// Where `url_pos_from` finds a position, the document there carries the
/// URL; where it finds none, no document at or after `i` does.
pub proof fn lemma_url_pos_char(docs: Seq<DocView>, url: Seq<char>, i: int)
    requires
        0 <= i <= docs.len(),
    ensures
        match url_pos_from(docs, url, i) {
            Some(k) => i <= k < docs.len() && docs[k].url == url,
            None => forall|j: int| i <= j < docs.len() ==> (#[trigger] docs[j]).url != url,
        },
    decreases docs.len() - i,
{
    if i < docs.len() && docs[i].url != url {
        lemma_url_pos_char(docs, url, i + 1);
    }
}

/// No document carrying `id` survives `remove_docs`.
pub proof fn lemma_remove_docs_clean(docs: Seq<DocView>, id: u64)
    ensures
        !has_doc_id(remove_docs(docs, id), id),
    decreases docs.len(),
{
    if docs.len() == 0 {
        assert(remove_docs(docs, id) =~= Seq::<DocView>::empty());
    } else {
        lemma_remove_docs_clean(docs.drop_first(), id);
        let rest = remove_docs(docs.drop_first(), id);
        lemma_doc_pos_char(rest, id, 0);
        if docs[0].id == id {
            assert(remove_docs(docs, id) =~= rest);
        } else {
            assert(remove_docs(docs, id) =~= seq![docs[0]] + rest);
            let whole = seq![docs[0]] + rest;
            assert(forall|j: int| 0 <= j < rest.len() ==> whole[j + 1] == rest[j]);
            assert(forall|j: int| 0 <= j < whole.len() ==> (#[trigger] whole[j]).id != id);
            lemma_doc_pos_char(whole, id, 0);
        }
    }
}

/// Removal completeness for the state itself: after removing `id`, the store
/// has no document under it and no posting list names it.
pub proof fn lemma_removal_completeness(v: IndexView, id: u64)
    ensures
        !has_doc_id(remove_doc_spec(v, id).docs, id),
        !mentions_doc(remove_doc_spec(v, id).inverted, id),
{
    lemma_remove_docs_clean(v.docs, id);
    lemma_prune_clean(v.inverted, id);
}

/// Every candidate hit is a candidate by id.
proof fn lemma_cand_elems(
    docs: Seq<DocView>,
    inv: Seq<TermView>,
    toks: Seq<Seq<char>>,
    n: nat,
    i: int,
)
    ensures
        forall|k: int|
            0 <= k < cand_from(docs, inv, toks, n, i).len() ==> is_candidate(
                inv,
                toks,
                (#[trigger] cand_from(docs, inv, toks, n, i)[k]).id,
            ),
    decreases docs.len() - i,
{
    if 0 <= i < docs.len() {
        lemma_cand_elems(docs, inv, toks, n, i + 1);
        let rest = cand_from(docs, inv, toks, n, i + 1);
        if is_candidate(inv, toks, docs[i].id) {
            let whole = cand_from(docs, inv, toks, n, i);
            assert(whole =~= seq![
                crate::search::mk_result(docs[i], crate::search::doc_score(inv, toks, n, docs[i].id)),
            ] + rest);
            assert(forall|k: int| 0 <= k < rest.len() ==> whole[k + 1] == rest[k]);
        } else {
            assert(cand_from(docs, inv, toks, n, i) =~= rest);
        }
    }
}

/// A pruned index produces no candidate under the removed id.
proof fn lemma_no_candidate_after_prune(v: IndexView, id: u64, toks: Seq<Seq<char>>)
    ensures
        !is_candidate(remove_doc_spec(v, id).inverted, toks, id),
{
    let inv = remove_doc_spec(v, id).inverted;
    lemma_prune_clean(v.inverted, id);
    assert forall|i: int| 0 <= i < toks.len() implies !(#[trigger] token_hit(
        inv,
        toks[i],
        id,
    )) by {
        match term_pos(inv, toks[i]) {
            Some(b) => {
                crate::index::lemma_term_pos_char(inv, toks[i], 0);
                assert(forall|j: int|
                    0 <= j < inv[b].posts.len() ==> (#[trigger] inv[b].posts[j]).0 != id);
            },
            None => {},
        }
    }
}

/// Removal completeness for search: no later search on the state after
/// `remove_document` ever returns the removed id.
pub proof fn lemma_removed_never_found(
    v: IndexView,
    id: u64,
    q: Seq<char>,
    limit: int,
    rs: Seq<SearchResultView>,
)
    requires
        limit >= 0,
        search_ok(remove_doc_spec(v, id), q, limit, rs),
    ensures
        forall|k: int| 0 <= k < rs.len() ==> (#[trigger] rs[k]).id != id,
{
    broadcast use vstd::seq_lib::to_multiset_contains;

    let v1 = remove_doc_spec(v, id);
    let toks = tokenize_spec(q);
    let cands = cand_results(v1, toks);
    assert(exists|full: Seq<SearchResultView>|
        {
            &&& #[trigger] full.to_multiset() == cands.to_multiset()
            &&& crate::search::sorted_desc(full)
            &&& rs == full.take(if limit < full.len() {
                limit
            } else {
                full.len() as int
            })
        });
    let full = choose|full: Seq<SearchResultView>|
        {
            &&& #[trigger] full.to_multiset() == cands.to_multiset()
            &&& crate::search::sorted_desc(full)
            &&& rs == full.take(if limit < full.len() {
                limit
            } else {
                full.len() as int
            })
        };
    assert(full.to_multiset() == cands.to_multiset());
    assert(rs == full.take(if limit < full.len() {
        limit
    } else {
        full.len() as int
    }));
    lemma_cand_elems(v1.docs, v1.inverted, toks, v1.docs.len() as nat, 0);
    lemma_no_candidate_after_prune(v, id, toks);
    assert forall|k: int| 0 <= k < rs.len() implies (#[trigger] rs[k]).id != id by {
        assert(rs[k] == full[k]);
        assert(full.contains(full[k]));
        assert(full.to_multiset().contains(full[k]));
        assert(cands.to_multiset().contains(full[k]));
        assert(cands.contains(full[k]));
        let ci = choose|ci: int| 0 <= ci < cands.len() && cands[ci] == full[k];
        assert(is_candidate(v1.inverted, toks, cands[ci].id));
    }
}

/// An empty query, a query of stop words only, or an empty store yields an
/// empty result list.
pub proof fn lemma_nothing_to_find(v: IndexView, q: Seq<char>, limit: int, rs: Seq<
    SearchResultView,
>)
    requires
        limit >= 0,
        search_ok(v, q, limit, rs),
        tokenize_spec(q).len() == 0 || v.docs.len() == 0,
    ensures
        rs.len() == 0,
{
    broadcast use vstd::seq_lib::to_multiset_len;

    let toks = tokenize_spec(q);
    let cands = cand_results(v, toks);
    lemma_cand_empty(v.docs, v.inverted, toks, v.docs.len() as nat, 0);
    assert(cands.len() == 0);
    assert(exists|full: Seq<SearchResultView>|
        {
            &&& #[trigger] full.to_multiset() == cands.to_multiset()
            &&& crate::search::sorted_desc(full)
            &&& rs == full.take(if limit < full.len() {
                limit
            } else {
                full.len() as int
            })
        });
    let full = choose|full: Seq<SearchResultView>|
        {
            &&& #[trigger] full.to_multiset() == cands.to_multiset()
            &&& crate::search::sorted_desc(full)
            &&& rs == full.take(if limit < full.len() {
                limit
            } else {
                full.len() as int
            })
        };
    assert(full.to_multiset() == cands.to_multiset());
    assert(rs == full.take(if limit < full.len() {
        limit
    } else {
        full.len() as int
    }));
    assert(full.to_multiset().len() == full.len());
    assert(cands.to_multiset().len() == cands.len());
    assert(full.len() == 0);
}

proof fn lemma_cand_empty(
    docs: Seq<DocView>,
    inv: Seq<TermView>,
    toks: Seq<Seq<char>>,
    n: nat,
    i: int,
)
    requires
        toks.len() == 0 || docs.len() == 0,
    ensures
        cand_from(docs, inv, toks, n, i).len() == 0,
    decreases docs.len() - i,
{
    if 0 <= i < docs.len() {
        assert(!is_candidate(inv, toks, docs[i].id));
        lemma_cand_empty(docs, inv, toks, n, i + 1);
        assert(cand_from(docs, inv, toks, n, i) =~= cand_from(docs, inv, toks, n, i + 1));
    }
}

/// `add_posts_from` adds postings only for the document being indexed.
proof fn lemma_add_posts_mentions(
    inv: Seq<TermView>,
    id: u64,
    counts: Seq<(Seq<char>, u32)>,
    i: int,
    x: u64,
)
    requires
        !mentions_doc(inv, x),
        x != id,
    ensures
        !mentions_doc(add_posts_from(inv, id, counts, i), x),
    decreases counts.len() - i,
{
    if 0 <= i < counts.len() {
        let inv2 = apply_count(inv, id, counts[i]);
        assert(!mentions_doc(inv2, x)) by {
            crate::index::lemma_term_pos_char(inv, counts[i].0, 0);
            match term_pos(inv, counts[i].0) {
                Some(b) => {
                    assert forall|k: int, j: int|
                        0 <= k < inv2.len() && 0 <= j < inv2[k].posts.len() implies (
                    #[trigger] inv2[k].posts[j]).0 != x by {
                        if k == b {
                            if j < inv[b].posts.len() {
                                assert(inv2[k].posts[j] == inv[b].posts[j]);
                            } else {
                                assert(inv2[k].posts[j] == (id, counts[i].1));
                            }
                        } else {
                            assert(inv2[k] == inv[k]);
                        }
                    }
                },
                None => {
                    assert forall|k: int, j: int|
                        0 <= k < inv2.len() && 0 <= j < inv2[k].posts.len() implies (
                    #[trigger] inv2[k].posts[j]).0 != x by {
                        if k < inv.len() {
                            assert(inv2[k] == inv[k]);
                        } else {
                            assert(inv2[k].posts =~= seq![(id, counts[i].1)]);
                        }
                    }
                },
            }
        }
        lemma_add_posts_mentions(inv2, id, counts, i + 1, x);
    }
}

/// Replace-on-URL: with at most one document under a URL, indexing that URL
/// leaves exactly one document under it, and the replaced document's
/// postings are gone wherever its id differs from the fresh one.
pub proof fn lemma_replace_on_url(
    v: IndexView,
    url: Seq<char>,
    title: Seq<char>,
    content: Seq<char>,
    id: u64,
    t: u64,
)
    requires
        url_count(v.docs, url) <= 1,
        !has_doc_id(remove_by_url(v, url).docs, id),
    ensures
        url_count(index_page_spec(v, url, title, content, id, t).docs, url) == 1,
        match url_pos(v.docs, url) {
            Some(p) => v.docs[p].id != id ==> !mentions_doc(
                index_page_spec(v, url, title, content, id, t).inverted,
                v.docs[p].id,
            ),
            None => true,
        },
{
    let v2 = remove_by_url(v, url);
    let d = DocView { id, url, title, content, created_at: t };
    lemma_url_pos_char(v.docs, url, 0);
    match url_pos(v.docs, url) {
        Some(p) => {
            let oid = v.docs[p].id;
            assert(forall|j: int|
                0 <= j < v.docs.len() && (#[trigger] v.docs[j]).url == url ==> v.docs[j].id == oid)
                by {
                if exists|j: int|
                    0 <= j < v.docs.len() && (#[trigger] v.docs[j]).url == url && v.docs[j].id
                        != oid {
                    let j = choose|j: int|
                        0 <= j < v.docs.len() && (#[trigger] v.docs[j]).url == url && v.docs[j].id
                            != oid;
                    if j < p {
                        lemma_url_count_two(v.docs, url, j, p);
                    } else {
                        lemma_url_count_two(v.docs, url, p, j);
                    }
                }
            }
            lemma_remove_url_doc(v.docs, url, oid);
            lemma_url_count_push(v2.docs, url, d);
            if oid != id {
                lemma_prune_clean(v.inverted, oid);
                lemma_add_posts_mentions(
                    v2.inverted,
                    id,
                    crate::index::count_terms(tokenize_spec(crate::index::doc_text(d))),
                    0,
                    oid,
                );
            }
        },
        None => {
            lemma_url_count_zero(v.docs, url);
            lemma_url_count_push(v2.docs, url, d);
        },
    }
}

} // verus!
