//! The document store and inverted index: documents keyed by id, and for
//! each term the list of `(document id, term frequency)` postings.

use vstd::prelude::*;

use crate::tokenizer::tokenize;
use crate::tokenizer::tokenize_spec;
use crate::text::eq_str;
use vstd::string::StringExecFns;

verus! {

/// A document held by the index.
pub struct Doc {
    pub id: u64,
    pub url: String,
    pub title: String,
    pub content: String,
    pub created_at: u64,
}

/// One posting: the document id and how often the term occurs in it.
#[derive(Clone, Copy)]
pub struct Posting(pub u64, pub u32);

/// A term together with its posting list.
pub struct TermPostings {
    pub term: String,
    pub postings: Vec<Posting>,
}

/// The snapshot shape: the document list and the inverted index, exactly
/// what is persisted.
pub struct PersistedIndex {
    pub docs: Vec<Doc>,
    pub inverted: Vec<TermPostings>,
}

/// The in-memory index.
pub struct Index {
    pub docs: Vec<Doc>,
    pub inverted: Vec<TermPostings>,
}

/// Mathematical image of a document.
pub struct DocView {
    pub id: u64,
    pub url: Seq<char>,
    pub title: Seq<char>,
    pub content: Seq<char>,
    pub created_at: u64,
}

/// Mathematical image of a term's posting list.
pub struct TermView {
    pub term: Seq<char>,
    pub posts: Seq<(u64, u32)>,
}

/// Mathematical image of the whole index.
pub struct IndexView {
    pub docs: Seq<DocView>,
    pub inverted: Seq<TermView>,
}

impl View for Doc {
    type V = DocView;

    open spec fn view(&self) -> DocView {
        DocView {
            id: self.id,
            url: self.url@,
            title: self.title@,
            content: self.content@,
            created_at: self.created_at,
        }
    }
}

impl View for Posting {
    type V = (u64, u32);

    open spec fn view(&self) -> (u64, u32) {
        (self.0, self.1)
    }
}

impl View for TermPostings {
    type V = TermView;

    open spec fn view(&self) -> TermView {
        TermView { term: self.term@, posts: self.postings@.map_values(|p: Posting| p@) }
    }
}

impl View for Index {
    type V = IndexView;

    open spec fn view(&self) -> IndexView {
        IndexView { docs: docs_vw(self.docs@), inverted: inv_vw(self.inverted@) }
    }
}

impl View for PersistedIndex {
    type V = IndexView;

    open spec fn view(&self) -> IndexView {
        IndexView { docs: docs_vw(self.docs@), inverted: inv_vw(self.inverted@) }
    }
}

pub open spec fn docs_vw(docs: Seq<Doc>) -> Seq<DocView> {
    docs.map_values(|d: Doc| d@)
}

pub open spec fn inv_vw(inv: Seq<TermPostings>) -> Seq<TermView> {
    inv.map_values(|t: TermPostings| t@)
}

/// The first position at or after `i` of the document carrying `id`.
pub open spec fn doc_pos_from(docs: Seq<DocView>, id: u64, i: int) -> Option<int>
    decreases docs.len() - i,
{
    if i < 0 || i >= docs.len() {
        None
    } else if docs[i].id == id {
        Some(i)
    } else {
        doc_pos_from(docs, id, i + 1)
    }
}

/// The first position of the document carrying `id`.
pub open spec fn doc_pos(docs: Seq<DocView>, id: u64) -> Option<int> {
    doc_pos_from(docs, id, 0)
}

pub open spec fn has_doc_id(docs: Seq<DocView>, id: u64) -> bool {
    doc_pos(docs, id) is Some
}

/// The first position at or after `i` of the document whose URL reads `url`.
pub open spec fn url_pos_from(docs: Seq<DocView>, url: Seq<char>, i: int) -> Option<int>
    decreases docs.len() - i,
{
    if i < 0 || i >= docs.len() {
        None
    } else if docs[i].url == url {
        Some(i)
    } else {
        url_pos_from(docs, url, i + 1)
    }
}

/// The first position of the document whose URL reads `url`.
pub open spec fn url_pos(docs: Seq<DocView>, url: Seq<char>) -> Option<int> {
    url_pos_from(docs, url, 0)
}

/// The first position at or after `i` of the bucket for `term`.
pub open spec fn term_pos_from(inv: Seq<TermView>, term: Seq<char>, i: int) -> Option<int>
    decreases inv.len() - i,
{
    if i < 0 || i >= inv.len() {
        None
    } else if inv[i].term == term {
        Some(i)
    } else {
        term_pos_from(inv, term, i + 1)
    }
}

/// The first position of the bucket for `term`.
pub open spec fn term_pos(inv: Seq<TermView>, term: Seq<char>) -> Option<int> {
    term_pos_from(inv, term, 0)
}

/// Some posting anywhere in the inverted index names document `id`.
pub open spec fn mentions_doc(inv: Seq<TermView>, id: u64) -> bool {
    exists|k: int, j: int|
        0 <= k < inv.len() && 0 <= j < inv[k].posts.len() && (#[trigger] inv[k].posts[j]).0 == id
}

/// The empty index.
pub open spec fn empty_index() -> IndexView {
    IndexView { docs: Seq::empty(), inverted: Seq::empty() }
}

impl Index {
    pub fn new() -> (r: Index)
        ensures
            r@ == empty_index(),
    {
        let r = Index { docs: Vec::new(), inverted: Vec::new() };
        proof {
            assert(r@.docs =~= empty_index().docs);
            assert(r@.inverted =~= empty_index().inverted);
            assert(r@ == empty_index());
        }
        r
    }

    pub fn doc_count(&self) -> (r: usize)
        ensures
            r == self@.docs.len(),
    {
        self.docs.len()
    }

    /// The first position of the document carrying `id`, if present.
    pub fn find_doc_index(&self, id: u64) -> (r: Option<usize>)
        ensures
            ({
                let s = doc_pos(self@.docs, id);
                match r {
                    Some(i) => s == Some(i as int) && i < self@.docs.len(),
                    None => s is None,
                }
            }),
    {
        let n = self.docs.len();
        let mut i: usize = 0;
        while i < n
            invariant
                n == self@.docs.len(),
                i <= n,
                doc_pos(self@.docs, id) == doc_pos_from(self@.docs, id, i as int),
            decreases n - i,
        {
            if self.docs[i].id == id {
                return Some(i);
            }
            proof {
                assert(doc_pos_from(self@.docs, id, i as int) == doc_pos_from(
                    self@.docs,
                    id,
                    i + 1,
                ));
            }
            i += 1;
        }
        None
    }

    pub fn contains_id(&self, id: u64) -> (r: bool)
        ensures
            r == has_doc_id(self@.docs, id),
    {
        self.find_doc_index(id).is_some()
    }

    /// The document carrying `id`, if present.
    pub fn get_document(&self, id: u64) -> (r: Option<&Doc>)
        ensures
            match r {
                Some(d) => ({
                    let s = doc_pos(self@.docs, id);
                    s is Some && d@ == self@.docs[s->Some_0]
                }),
                None => !has_doc_id(self@.docs, id),
            },
    {
        match self.find_doc_index(id) {
            Some(i) => Some(&self.docs[i]),
            None => None,
        }
    }

    /// The first position of the document whose URL reads `url`, if any.
    pub fn find_url_index(&self, url: &str) -> (r: Option<usize>)
        ensures
            ({
                let s = url_pos(self@.docs, url@);
                match r {
                    Some(i) => s == Some(i as int) && i < self@.docs.len(),
                    None => s is None,
                }
            }),
    {
        let n = self.docs.len();
        let mut i: usize = 0;
        while i < n
            invariant
                n == self@.docs.len(),
                i <= n,
                url_pos(self@.docs, url@) == url_pos_from(self@.docs, url@, i as int),
            decreases n - i,
        {
            if eq_str(self.docs[i].url.as_str(), url) {
                return Some(i);
            }
            proof {
                assert(url_pos_from(self@.docs, url@, i as int) == url_pos_from(
                    self@.docs,
                    url@,
                    i + 1,
                ));
            }
            i += 1;
        }
        None
    }
}

pub open spec fn posts_vw(s: Seq<Posting>) -> Seq<(u64, u32)> {
    s.map_values(|p: Posting| p@)
}

pub open spec fn counts_vw(s: Seq<(String, u32)>) -> Seq<(Seq<char>, u32)> {
    s.map_values(|pr: (String, u32)| (pr.0@, pr.1))
}

/// `posts` with every posting for document `id` dropped.
pub open spec fn remove_posts(posts: Seq<(u64, u32)>, id: u64) -> Seq<(u64, u32)>
    decreases posts.len(),
{
    if posts.len() == 0 {
        Seq::empty()
    } else {
        (if posts[0].0 == id {
            Seq::empty()
        } else {
            seq![posts[0]]
        }) + remove_posts(posts.drop_first(), id)
    }
}

/// `docs` with every document carrying `id` dropped.
pub open spec fn remove_docs(docs: Seq<DocView>, id: u64) -> Seq<DocView>
    decreases docs.len(),
{
    if docs.len() == 0 {
        Seq::empty()
    } else {
        (if docs[0].id == id {
            Seq::empty()
        } else {
            seq![docs[0]]
        }) + remove_docs(docs.drop_first(), id)
    }
}

/// Every bucket with the postings for `id` dropped; buckets left empty are
/// pruned.
pub open spec fn prune_inv(inv: Seq<TermView>, id: u64) -> Seq<TermView>
    decreases inv.len(),
{
    if inv.len() == 0 {
        Seq::empty()
    } else {
        (if remove_posts(inv[0].posts, id).len() == 0 {
            Seq::empty()
        } else {
            seq![TermView { term: inv[0].term, posts: remove_posts(inv[0].posts, id) }]
        }) + prune_inv(inv.drop_first(), id)
    }
}

/// The index after removing document `id`: the document leaves the store and
/// every posting list, and emptied lists are pruned.
pub open spec fn remove_doc_spec(v: IndexView, id: u64) -> IndexView {
    IndexView { docs: remove_docs(v.docs, id), inverted: prune_inv(v.inverted, id) }
}

pub open spec fn sat_inc(x: u32) -> u32 {
    if x == u32::MAX {
        x
    } else {
        (x + 1) as u32
    }
}

/// The first position at or after `i` of the count entry for `t`.
pub open spec fn cnt_pos_from(acc: Seq<(Seq<char>, u32)>, t: Seq<char>, i: int) -> Option<int>
    decreases acc.len() - i,
{
    if i < 0 || i >= acc.len() {
        None
    } else if acc[i].0 == t {
        Some(i)
    } else {
        cnt_pos_from(acc, t, i + 1)
    }
}

pub open spec fn cnt_pos(acc: Seq<(Seq<char>, u32)>, t: Seq<char>) -> Option<int> {
    cnt_pos_from(acc, t, 0)
}

/// Record one occurrence of `t`: bump its count, or append it with count 1.
pub open spec fn bump(acc: Seq<(Seq<char>, u32)>, t: Seq<char>) -> Seq<(Seq<char>, u32)> {
    match cnt_pos(acc, t) {
        Some(k) => acc.update(k, (acc[k].0, sat_inc(acc[k].1))),
        None => acc.push((t, 1u32)),
    }
}

/// Term frequencies of `tokens[i..]`, folded onto `acc`: distinct terms in
/// first-appearance order, each with its occurrence count.
pub open spec fn count_from(
    tokens: Seq<Seq<char>>,
    i: int,
    acc: Seq<(Seq<char>, u32)>,
) -> Seq<(Seq<char>, u32)>
    decreases tokens.len() - i,
{
    if i < 0 || i >= tokens.len() {
        acc
    } else {
        count_from(tokens, i + 1, bump(acc, tokens[i]))
    }
}

/// Term frequencies of `tokens`.
pub open spec fn count_terms(tokens: Seq<Seq<char>>) -> Seq<(Seq<char>, u32)> {
    count_from(tokens, 0, Seq::empty())
}

/// Append the posting `(id, tf)` under term `t`, creating the bucket if it
/// is absent.
pub open spec fn apply_count(inv: Seq<TermView>, id: u64, c: (Seq<char>, u32)) -> Seq<TermView> {
    match term_pos(inv, c.0) {
        Some(k) => inv.update(k, TermView { term: inv[k].term, posts: inv[k].posts.push((id, c.1)) }),
        None => inv.push(TermView { term: c.0, posts: seq![(id, c.1)] }),
    }
}

/// Fold `apply_count` over `counts[i..]`.
pub open spec fn add_posts_from(
    inv: Seq<TermView>,
    id: u64,
    counts: Seq<(Seq<char>, u32)>,
    i: int,
) -> Seq<TermView>
    decreases counts.len() - i,
{
    if i < 0 || i >= counts.len() {
        inv
    } else {
        add_posts_from(apply_count(inv, id, counts[i]), id, counts, i + 1)
    }
}

/// The text a document is indexed under: title and content joined by one
/// space.
pub open spec fn doc_text(d: DocView) -> Seq<char> {
    d.title + " "@ + d.content
}

/// The index after `index_doc`: any document under the same id is first
/// removed in full, then the document's term frequencies are appended to the
/// inverted index and the document joins the store.
pub open spec fn index_doc_spec(v: IndexView, d: DocView) -> IndexView {
    let v1 = if has_doc_id(v.docs, d.id) {
        remove_doc_spec(v, d.id)
    } else {
        v
    };
    IndexView {
        docs: v1.docs.push(d),
        inverted: add_posts_from(
            v1.inverted,
            d.id,
            count_terms(tokenize_spec(doc_text(d))),
            0,
        ),
    }
}

/// The index after the replace-by-URL step: the first document whose URL
/// reads `url` is removed in full; without one the index is unchanged.
pub open spec fn remove_by_url(v: IndexView, url: Seq<char>) -> IndexView {
    match url_pos(v.docs, url) {
        Some(p) => remove_doc_spec(v, v.docs[p].id),
        None => v,
    }
}

/// The index after `index_page`: replace-by-URL, then `index_doc` of the new
/// document under the fresh id `id` at time `t`.
pub open spec fn index_page_spec(
    v: IndexView,
    url: Seq<char>,
    title: Seq<char>,
    content: Seq<char>,
    id: u64,
    t: u64,
) -> IndexView {
    index_doc_spec(
        remove_by_url(v, url),
        DocView { id, url, title, content, created_at: t },
    )
}

/// No two documents carry the same id.
pub open spec fn unique_doc_ids(docs: Seq<DocView>) -> bool {
    forall|a: int, b: int| 0 <= a < b < docs.len() ==> docs[a].id != docs[b].id
}

/// Insert `d`, replacing the document already carrying its id, if any.
pub open spec fn upsert_doc(acc: Seq<DocView>, d: DocView) -> Seq<DocView> {
    match doc_pos(acc, d.id) {
        Some(k) => acc.update(k, d),
        None => acc.push(d),
    }
}

/// Fold `upsert_doc` over `s[i..]`, as loading a persisted document list
/// does: a later document under an id replaces an earlier one.
pub open spec fn absorb_from(s: Seq<DocView>, i: int, acc: Seq<DocView>) -> Seq<DocView>
    decreases s.len() - i,
{
    if i < 0 || i >= s.len() {
        acc
    } else {
        absorb_from(s, i + 1, upsert_doc(acc, s[i]))
    }
}

pub open spec fn absorb_docs(s: Seq<DocView>) -> Seq<DocView> {
    absorb_from(s, 0, Seq::empty())
}

/// Fold `index_doc` over `s[i..]` starting from `v`.
pub open spec fn rebuild_from(s: Seq<DocView>, i: int, v: IndexView) -> IndexView
    decreases s.len() - i,
{
    if i < 0 || i >= s.len() {
        v
    } else {
        rebuild_from(s, i + 1, index_doc_spec(v, s[i]))
    }
}

/// The index derived from the document list alone, ignoring any persisted
/// inverted index: `index_doc` of every document into an empty index.
pub open spec fn rebuild_spec(s: Seq<DocView>) -> IndexView {
    rebuild_from(s, 0, empty_index())
}

/// Absorbing keeps document ids unique.
pub proof fn lemma_absorb_unique(s: Seq<DocView>, i: int, acc: Seq<DocView>)
    requires
        0 <= i <= s.len(),
        unique_doc_ids(acc),
    ensures
        unique_doc_ids(absorb_from(s, i, acc)),
    decreases s.len() - i,
{
    if i < s.len() {
        let acc2 = upsert_doc(acc, s[i]);
        assert(unique_doc_ids(acc2)) by {
            lemma_doc_pos_char(acc, s[i].id, 0);
            match doc_pos(acc, s[i].id) {
                Some(k) => {
                    assert(forall|a: int, b: int|
                        0 <= a < b < acc2.len() ==> acc2[a].id != acc2[b].id) by {
                        assert(forall|j: int|
                            0 <= j < acc.len() ==> #[trigger] acc2[j].id == acc[j].id);
                    }
                },
                None => {},
            }
        }
        lemma_absorb_unique(s, i + 1, acc2);
    }
}

/// Absorbing a list whose ids are already unique changes nothing.
pub proof fn lemma_absorb_identity_from(s: Seq<DocView>, i: int)
    requires
        0 <= i <= s.len(),
        unique_doc_ids(s),
    ensures
        absorb_from(s, i, s.take(i)) == s,
    decreases s.len() - i,
{
    if i == s.len() {
        assert(s.take(i) =~= s);
    } else {
        lemma_doc_pos_char(s.take(i), s[i].id, 0);
        match doc_pos(s.take(i), s[i].id) {
            Some(k) => {
                assert(s.take(i)[k].id == s[i].id);
                assert(false);
            },
            None => {},
        }
        assert(upsert_doc(s.take(i), s[i]) =~= s.take(i + 1));
        lemma_absorb_identity_from(s, i + 1);
    }
}

pub proof fn lemma_absorb_identity(s: Seq<DocView>)
    requires
        unique_doc_ids(s),
    ensures
        absorb_docs(s) == s,
{
    assert(s.take(0) =~= Seq::<DocView>::empty());
    lemma_absorb_identity_from(s, 0);
}

/// Where `doc_pos_from` finds a position, the document there carries the id;
/// where it finds none, no document at or after `i` does.
pub proof fn lemma_doc_pos_char(docs: Seq<DocView>, id: u64, i: int)
    requires
        0 <= i <= docs.len(),
    ensures
        match doc_pos_from(docs, id, i) {
            Some(k) => i <= k < docs.len() && docs[k].id == id,
            None => forall|j: int| i <= j < docs.len() ==> docs[j].id != id,
        },
    decreases docs.len() - i,
{
    if i < docs.len() && docs[i].id != id {
        lemma_doc_pos_char(docs, id, i + 1);
    }
}

/// Where `term_pos_from` finds a position, the bucket there carries the
/// term; where it finds none, no bucket at or after `i` does.
pub proof fn lemma_term_pos_char(inv: Seq<TermView>, term: Seq<char>, i: int)
    requires
        0 <= i <= inv.len(),
    ensures
        match term_pos_from(inv, term, i) {
            Some(k) => i <= k < inv.len() && inv[k].term == term,
            None => forall|j: int| i <= j < inv.len() ==> (#[trigger] inv[j]).term != term,
        },
    decreases inv.len() - i,
{
    if i < inv.len() && inv[i].term != term {
        lemma_term_pos_char(inv, term, i + 1);
    }
}

/// Pigeonhole: when every value below `n = docs.len()` is an id in use, the
/// value `n` itself is free.
proof fn lemma_len_id_free(docs: Seq<DocView>, n: usize)
    requires
        n == docs.len(),
        forall|x: int| 0 <= x < n ==> #[trigger] has_doc_id(docs, x as u64),
    ensures
        !has_doc_id(docs, n as u64),
{
    broadcast use vstd::seq_lib::seq_to_set_is_finite;

    if has_doc_id(docs, n as u64) {
        let ids = docs.map_values(|d: DocView| d.id as int);
        assert forall|v: int| 0 <= v <= n implies ids.to_set().contains(v) by {
            assert(has_doc_id(docs, v as u64));
            lemma_doc_pos_char(docs, v as u64, 0);
            let k = doc_pos(docs, v as u64)->Some_0;
            assert(docs[k].id == v as u64);
            assert(ids[k] == v);
            assert(ids.contains(v));
        }
        assert(vstd::set_lib::set_int_range(0, n + 1).subset_of(ids.to_set()));
        vstd::set_lib::lemma_int_range(0, n + 1);
        vstd::set_lib::lemma_len_subset(vstd::set_lib::set_int_range(0, n + 1), ids.to_set());
        ids.lemma_cardinality_of_set();
        assert(false);
    }
}

impl Index {
    /// An id not carried by any stored document: a clock-seeded value after
    /// bounded probing, else the smallest free value found by scanning.
    pub fn next_id(&self) -> (r: u64)
        ensures
            !has_doc_id(self@.docs, r),
    {
        let seed = crate::now_unix_millis();
        let mut k: usize = 0;
        while k < 1024
            invariant
                true,
            decreases 1024 - k,
        {
            let c = seed.saturating_add(k as u64);
            if !self.contains_id(c) {
                return c;
            }
            k += 1;
        }
        let n = self.docs.len();
        let mut c: usize = 0;
        while c < n
            invariant
                c <= n,
                n == self@.docs.len(),
                forall|x: int| 0 <= x < c ==> #[trigger] has_doc_id(self@.docs, x as u64),
            decreases n - c,
        {
            if !self.contains_id(c as u64) {
                return c as u64;
            }
            c += 1;
        }
        proof {
            lemma_len_id_free(self@.docs, n);
        }
        n as u64
    }

    /// Create or replace the document for `url`: the document already under
    /// that URL, if any, is removed in full, and the new one is indexed
    /// under a fresh id, which is returned.
    pub fn index_page(&mut self, url: String, title: String, content: String) -> (r: u64)
        ensures
            !has_doc_id(remove_by_url(old(self)@, url@).docs, r),
            exists|t: u64|
                final(self)@ == index_page_spec(old(self)@, url@, title@, content@, r, t),
    {
        let ghost uv = url@;
        let ghost tv = title@;
        let ghost cv = content@;
        match self.find_url_index(url.as_str()) {
            Some(pos) => {
                let eid = self.docs[pos].id;
                proof {
                    lemma_doc_pos_char(self@.docs, eid, 0);
                }
                self.remove_doc(eid);
                proof {
                    assert(self@ == remove_by_url(old(self)@, uv));
                }
            },
            None => {
                proof {
                    assert(self@ == remove_by_url(old(self)@, uv));
                }
            },
        }
        let id = self.next_id();
        let ghost mid = self@;
        let millis = crate::now_unix_millis();
        let created: u64 = millis / 1000;
        let doc = Doc { id, url, title, content, created_at: created };
        proof {
            assert(doc@ == DocView { id, url: uv, title: tv, content: cv, created_at: created });
        }
        self.index_doc(doc);
        proof {
            assert(self@ == index_page_spec(old(self)@, uv, tv, cv, id, created));
        }
        id
    }

    /// Load a snapshot into memory: documents are inserted in order, a later
    /// one replacing an earlier one under the same id; the persisted
    /// inverted index is taken as it stands.
    #[verifier::loop_isolation(false)]
    pub fn from_persisted(p: PersistedIndex) -> (r: Index)
        ensures
            r@.docs == absorb_docs(docs_vw(p.docs@)),
            r@.inverted == inv_vw(p.inverted@),
    {
        let PersistedIndex { docs, inverted } = p;
        let ghost s = docs_vw(docs@);
        let n = docs.len();
        let mut out: Vec<Doc> = Vec::new();
        let mut i: usize = 0;
        proof {
            assert(docs_vw(out@) =~= Seq::<DocView>::empty());
        }
        while i < n
            invariant
                i <= n,
                n == docs@.len(),
                s == docs_vw(docs@),
                absorb_docs(s) == absorb_from(s, i as int, docs_vw(out@)),
            decreases n - i,
        {
            let ghost acc = docs_vw(out@);
            let d = clone_doc(&docs[i]);
            proof {
                assert(d@ == s[i as int]);
            }
            match find_doc_at(&out, d.id) {
                Some(k) => {
                    out.remove(k);
                    out.insert(k, d);
                    proof {
                        assert(docs_vw(out@) =~= upsert_doc(acc, s[i as int]));
                    }
                },
                None => {
                    out.push(d);
                    proof {
                        assert(docs_vw(out@) =~= upsert_doc(acc, s[i as int]));
                    }
                },
            }
            i += 1;
        }
        Index { docs: out, inverted }
    }

    /// Flatten the in-memory index back into the snapshot shape.
    #[verifier::loop_isolation(false)]
    pub fn to_persisted(&self) -> (r: PersistedIndex)
        ensures
            r@ == self@,
    {
        let mut docs: Vec<Doc> = Vec::new();
        let mut i: usize = 0;
        while i < self.docs.len()
            invariant
                i <= self.docs@.len(),
                docs_vw(docs@) == docs_vw(self.docs@).take(i as int),
            decreases self.docs@.len() - i,
        {
            docs.push(clone_doc(&self.docs[i]));
            proof {
                assert(docs_vw(docs@) =~= docs_vw(self.docs@).take(i + 1));
            }
            i += 1;
        }
        let mut inverted: Vec<TermPostings> = Vec::new();
        let mut k: usize = 0;
        while k < self.inverted.len()
            invariant
                k <= self.inverted@.len(),
                docs_vw(docs@) == docs_vw(self.docs@).take(self.docs@.len() as int),
                inv_vw(inverted@) == inv_vw(self.inverted@).take(k as int),
            decreases self.inverted@.len() - k,
        {
            inverted.push(clone_bucket(&self.inverted[k]));
            proof {
                assert(inv_vw(inverted@) =~= inv_vw(self.inverted@).take(k + 1));
            }
            k += 1;
        }
        let r = PersistedIndex { docs, inverted };
        proof {
            assert(docs_vw(self.docs@).take(self.docs@.len() as int) =~= docs_vw(self.docs@));
            assert(inv_vw(self.inverted@).take(self.inverted@.len() as int) =~= inv_vw(
                self.inverted@,
            ));
        }
        r
    }

    /// Re-derive the whole index from the snapshot's document list alone,
    /// ignoring its persisted inverted index.
    #[verifier::loop_isolation(false)]
    pub fn rebuild(p: PersistedIndex) -> (r: Index)
        ensures
            r@ == rebuild_spec(docs_vw(p.docs@)),
    {
        let docs = p.docs;
        let ghost s = docs_vw(docs@);
        let mut idx = Index::new();
        let n = docs.len();
        let mut i: usize = 0;
        while i < n
            invariant
                i <= n,
                n == docs@.len(),
                s == docs_vw(docs@),
                rebuild_spec(s) == rebuild_from(s, i as int, idx@),
            decreases n - i,
        {
            let d = clone_doc(&docs[i]);
            proof {
                assert(d@ == s[i as int]);
            }
            idx.index_doc(d);
            i += 1;
        }
        idx
    }
}

/// The first position in `docs` of the document carrying `id`, if any.
pub fn find_doc_at(docs: &Vec<Doc>, id: u64) -> (r: Option<usize>)
    ensures
        ({
            let s = doc_pos(docs_vw(docs@), id);
            match r {
                Some(i) => s == Some(i as int) && i < docs@.len(),
                None => s is None,
            }
        }),
{
    let n = docs.len();
    let mut i: usize = 0;
    while i < n
        invariant
            n == docs@.len(),
            i <= n,
            doc_pos(docs_vw(docs@), id) == doc_pos_from(docs_vw(docs@), id, i as int),
        decreases n - i,
    {
        if docs[i].id == id {
            return Some(i);
        }
        proof {
            assert(doc_pos_from(docs_vw(docs@), id, i as int) == doc_pos_from(
                docs_vw(docs@),
                id,
                i + 1,
            ));
        }
        i += 1;
    }
    None
}

/// A field-by-field copy of a document; the copy reads the same.
pub fn clone_doc(d: &Doc) -> (r: Doc)
    ensures
        r@ == d@,
{
    Doc {
        id: d.id,
        url: d.url.clone(),
        title: d.title.clone(),
        content: d.content.clone(),
        created_at: d.created_at,
    }
}

/// A copy of one bucket; the copy reads the same.
pub fn clone_bucket(b: &TermPostings) -> (r: TermPostings)
    ensures
        r@ == b@,
{
    let n = b.postings.len();
    let mut postings: Vec<Posting> = Vec::new();
    let mut i: usize = 0;
    while i < n
        invariant
            n == b.postings@.len(),
            i <= n,
            postings@ == b.postings@.take(i as int),
        decreases n - i,
    {
        postings.push(b.postings[i]);
        proof {
            assert(b.postings@.take(i + 1) =~= b.postings@.take(i as int).push(
                b.postings@[i as int],
            ));
        }
        i += 1;
    }
    proof {
        assert(b.postings@.take(n as int) =~= b.postings@);
    }
    let r = TermPostings { term: b.term.clone(), postings };
    proof {
        assert(r@.posts =~= b@.posts);
    }
    r
}

/// Drop every posting for document `id` from `posts`.
#[verifier::loop_isolation(false)]
fn filter_posts(posts: &mut Vec<Posting>, id: u64)
    ensures
        posts_vw(final(posts)@) == remove_posts(posts_vw(old(posts)@), id),
{
    let ghost orig = posts_vw(posts@);
    let mut i: usize = 0;
    proof {
        assert(posts_vw(posts@).skip(0) =~= orig);
        assert(posts_vw(posts@).take(0) =~= Seq::<(u64, u32)>::empty());
        assert(Seq::<(u64, u32)>::empty() + remove_posts(orig, id) =~= remove_posts(orig, id));
    }
    while i < posts.len()
        invariant
            i <= posts@.len(),
            remove_posts(orig, id) == posts_vw(posts@).take(i as int) + remove_posts(
                posts_vw(posts@).skip(i as int),
                id,
            ),
        decreases posts@.len() - i,
    {
        let ghost cur = posts_vw(posts@);
        proof {
            assert(cur.skip(i as int)[0] == cur[i as int]);
            assert(cur.skip(i as int).drop_first() =~= cur.skip(i + 1));
        }
        if posts[i].0 == id {
            posts.remove(i);
            proof {
                assert(posts_vw(posts@).take(i as int) =~= cur.take(i as int));
                assert(posts_vw(posts@).skip(i as int) =~= cur.skip(i + 1));
            }
        } else {
            proof {
                assert(cur.take(i as int) + remove_posts(cur.skip(i as int), id) =~= cur.take(i + 1)
                    + remove_posts(cur.skip(i + 1), id));
            }
            i += 1;
        }
    }
    proof {
        let cur = posts_vw(posts@);
        assert(cur.skip(i as int) =~= Seq::<(u64, u32)>::empty());
        assert(remove_posts(cur.skip(i as int), id) =~= Seq::<(u64, u32)>::empty());
        assert(cur.take(i as int) + Seq::<(u64, u32)>::empty() =~= cur);
    }
}

/// The first position in `inv` of the bucket for `term`, if any.
pub fn find_term_index(inv: &Vec<TermPostings>, term: &str) -> (r: Option<usize>)
    ensures
        ({
            let s = term_pos(inv_vw(inv@), term@);
            match r {
                Some(i) => s == Some(i as int) && i < inv@.len(),
                None => s is None,
            }
        }),
{
    let n = inv.len();
    let mut i: usize = 0;
    while i < n
        invariant
            n == inv@.len(),
            i <= n,
            term_pos(inv_vw(inv@), term@) == term_pos_from(inv_vw(inv@), term@, i as int),
        decreases n - i,
    {
        if eq_str(inv[i].term.as_str(), term) {
            return Some(i);
        }
        proof {
            assert(term_pos_from(inv_vw(inv@), term@, i as int) == term_pos_from(
                inv_vw(inv@),
                term@,
                i + 1,
            ));
        }
        i += 1;
    }
    None
}

/// The first position in `counts` of the entry for `t`, if any.
fn find_count_index(counts: &Vec<(String, u32)>, t: &str) -> (r: Option<usize>)
    ensures
        ({
            let s = cnt_pos(counts_vw(counts@), t@);
            match r {
                Some(i) => s == Some(i as int) && i < counts@.len(),
                None => s is None,
            }
        }),
{
    let n = counts.len();
    let mut i: usize = 0;
    while i < n
        invariant
            n == counts@.len(),
            i <= n,
            cnt_pos(counts_vw(counts@), t@) == cnt_pos_from(counts_vw(counts@), t@, i as int),
        decreases n - i,
    {
        if eq_str(counts[i].0.as_str(), t) {
            return Some(i);
        }
        proof {
            assert(cnt_pos_from(counts_vw(counts@), t@, i as int) == cnt_pos_from(
                counts_vw(counts@),
                t@,
                i + 1,
            ));
        }
        i += 1;
    }
    None
}

impl Index {
    /// Remove the document carrying `id` from the store, drop its postings
    /// from every term, and prune posting lists left empty.  Reports whether
    /// the document existed; without it nothing changes.
    #[verifier::loop_isolation(false)]
    pub fn remove_doc(&mut self, id: u64) -> (r: bool)
        ensures
            r == has_doc_id(old(self)@.docs, id),
            r ==> final(self)@ == remove_doc_spec(old(self)@, id),
            !r ==> *final(self) == *old(self),
    {
        if !self.contains_id(id) {
            return false;
        }
        let ghost odocs = docs_vw(self.docs@);
        let ghost oinv = inv_vw(self.inverted@);
        let mut i: usize = 0;
        proof {
            assert(docs_vw(self.docs@).skip(0) =~= odocs);
            assert(docs_vw(self.docs@).take(0) =~= Seq::<DocView>::empty());
            assert(Seq::<DocView>::empty() + remove_docs(odocs, id) =~= remove_docs(odocs, id));
        }
        while i < self.docs.len()
            invariant
                i <= self.docs@.len(),
                self.inverted == old(self).inverted,
                remove_docs(odocs, id) == docs_vw(self.docs@).take(i as int) + remove_docs(
                    docs_vw(self.docs@).skip(i as int),
                    id,
                ),
            decreases self.docs@.len() - i,
        {
            let ghost cur = docs_vw(self.docs@);
            proof {
                assert(cur.skip(i as int)[0] == cur[i as int]);
                assert(cur.skip(i as int).drop_first() =~= cur.skip(i + 1));
            }
            if self.docs[i].id == id {
                self.docs.remove(i);
                proof {
                    assert(docs_vw(self.docs@).take(i as int) =~= cur.take(i as int));
                    assert(docs_vw(self.docs@).skip(i as int) =~= cur.skip(i + 1));
                }
            } else {
                proof {
                    assert(cur.take(i as int) + remove_docs(cur.skip(i as int), id) =~= cur.take(
                        i + 1,
                    ) + remove_docs(cur.skip(i + 1), id));
                }
                i += 1;
            }
        }
        proof {
            let cur = docs_vw(self.docs@);
            assert(cur.skip(i as int) =~= Seq::<DocView>::empty());
            assert(remove_docs(cur.skip(i as int), id) =~= Seq::<DocView>::empty());
            assert(cur.take(i as int) + Seq::<DocView>::empty() =~= cur);
            assert(docs_vw(self.docs@) == remove_docs(odocs, id));
        }
        let mut k: usize = 0;
        proof {
            assert(inv_vw(self.inverted@).skip(0) =~= oinv);
            assert(inv_vw(self.inverted@).take(0) =~= Seq::<TermView>::empty());
            assert(Seq::<TermView>::empty() + prune_inv(oinv, id) =~= prune_inv(oinv, id));
        }
        while k < self.inverted.len()
            invariant
                k <= self.inverted@.len(),
                docs_vw(self.docs@) == remove_docs(odocs, id),
                prune_inv(oinv, id) == inv_vw(self.inverted@).take(k as int) + prune_inv(
                    inv_vw(self.inverted@).skip(k as int),
                    id,
                ),
            decreases self.inverted@.len() - k,
        {
            let ghost cur = inv_vw(self.inverted@);
            proof {
                assert(cur.skip(k as int)[0] == cur[k as int]);
                assert(cur.skip(k as int).drop_first() =~= cur.skip(k + 1));
            }
            let mut b = self.inverted.remove(k);
            filter_posts(&mut b.postings, id);
            proof {
                assert(b@.posts == remove_posts(cur[k as int].posts, id));
            }
            if b.postings.len() > 0 {
                self.inverted.insert(k, b);
                proof {
                    assert(inv_vw(self.inverted@).take(k + 1) =~= cur.take(k as int).push(
                        inv_vw(self.inverted@)[k as int],
                    ));
                    assert(inv_vw(self.inverted@).skip(k + 1) =~= cur.skip(k + 1));
                    assert(inv_vw(self.inverted@)[k as int] == TermView {
                        term: cur[k as int].term,
                        posts: remove_posts(cur[k as int].posts, id),
                    });
                    assert(cur.take(k as int) + prune_inv(cur.skip(k as int), id) =~= inv_vw(
                        self.inverted@,
                    ).take(k + 1) + prune_inv(inv_vw(self.inverted@).skip(k + 1), id));
                }
                k += 1;
            } else {
                proof {
                    assert(inv_vw(self.inverted@).take(k as int) =~= cur.take(k as int));
                    assert(inv_vw(self.inverted@).skip(k as int) =~= cur.skip(k + 1));
                    assert(cur.take(k as int) + prune_inv(cur.skip(k as int), id) =~= inv_vw(
                        self.inverted@,
                    ).take(k as int) + prune_inv(inv_vw(self.inverted@).skip(k as int), id));
                }
            }
        }
        proof {
            let cur = inv_vw(self.inverted@);
            assert(cur.skip(k as int) =~= Seq::<TermView>::empty());
            assert(prune_inv(cur.skip(k as int), id) =~= Seq::<TermView>::empty());
            assert(cur.take(k as int) + Seq::<TermView>::empty() =~= cur);
        }
        true
    }

    /// Index `doc`: remove any document under the same id, tokenize its
    /// title and content, append one posting per distinct term, and insert
    /// the document into the store.
    #[verifier::loop_isolation(false)]
    pub fn index_doc(&mut self, doc: Doc)
        ensures
            final(self)@ == index_doc_spec(old(self)@, doc@),
    {
        if self.contains_id(doc.id) {
            self.remove_doc(doc.id);
        }
        let ghost v1 = self@;
        let mut text = doc.title.clone();
        text.append(" ");
        text.append(doc.content.as_str());
        proof {
            assert(text@ == doc_text(doc@));
        }
        let tokens = tokenize(text.as_str());
        let ghost toks = tokenize_spec(doc_text(doc@));
        let mut counts: Vec<(String, u32)> = Vec::new();
        let mut i: usize = 0;
        proof {
            assert(counts_vw(counts@) =~= Seq::<(Seq<char>, u32)>::empty());
        }
        while i < tokens.len()
            invariant
                i <= tokens@.len(),
                tokens.deep_view() == toks,
                count_terms(toks) == count_from(toks, i as int, counts_vw(counts@)),
            decreases tokens@.len() - i,
        {
            let ghost acc = counts_vw(counts@);
            proof {
                assert(tokens@[i as int]@ == toks[i as int]);
            }
            match find_count_index(&counts, tokens[i].as_str()) {
                Some(k) => {
                    let pair = counts.remove(k);
                    let c2 = if pair.1 == u32::MAX {
                        pair.1
                    } else {
                        pair.1 + 1
                    };
                    counts.insert(k, (pair.0, c2));
                    proof {
                        assert(counts_vw(counts@) =~= bump(acc, toks[i as int]));
                    }
                },
                None => {
                    counts.push((tokens[i].clone(), 1));
                    proof {
                        assert(counts_vw(counts@) =~= bump(acc, toks[i as int]));
                    }
                },
            }
            i += 1;
        }
        proof {
            assert(count_terms(toks) == counts_vw(counts@));
        }
        let ghost cseq = counts_vw(counts@);
        let mut j: usize = 0;
        while j < counts.len()
            invariant
                j <= counts@.len(),
                cseq == counts_vw(counts@),
                docs_vw(self.docs@) == v1.docs,
                add_posts_from(v1.inverted, doc.id, cseq, 0) == add_posts_from(
                    inv_vw(self.inverted@),
                    doc.id,
                    cseq,
                    j as int,
                ),
            decreases counts@.len() - j,
        {
            let ghost cur = inv_vw(self.inverted@);
            let tf = counts[j].1;
            proof {
                assert(cseq[j as int] == (counts@[j as int].0@, counts@[j as int].1));
            }
            match find_term_index(&self.inverted, counts[j].0.as_str()) {
                Some(k) => {
                    let mut b = self.inverted.remove(k);
                    b.postings.push(Posting(doc.id, tf));
                    self.inverted.insert(k, b);
                    proof {
                        assert(posts_vw(b.postings@) =~= cur[k as int].posts.push(
                            (doc.id, tf),
                        ));
                        assert(inv_vw(self.inverted@)[k as int] == b@);
                        assert(b@.term == cur[k as int].term);
                        assert(inv_vw(self.inverted@) =~~= apply_count(
                            cur,
                            doc.id,
                            cseq[j as int],
                        ));
                    }
                },
                None => {
                    let mut ps: Vec<Posting> = Vec::new();
                    ps.push(Posting(doc.id, tf));
                    proof {
                        assert(posts_vw(ps@) =~= seq![(doc.id, tf)]);
                    }
                    self.inverted.push(
                        TermPostings { term: counts[j].0.clone(), postings: ps },
                    );
                    proof {
                        assert(inv_vw(self.inverted@) =~~= apply_count(
                            cur,
                            doc.id,
                            cseq[j as int],
                        ));
                    }
                },
            }
            j += 1;
        }
        let ghost dv = doc@;
        self.docs.push(doc);
        proof {
            assert(docs_vw(self.docs@) =~= v1.docs.push(dv));
            assert(self@ == index_doc_spec(old(self)@, dv));
        }
    }
}


/// No posting for `id` survives `remove_posts`.
pub proof fn lemma_remove_posts_clean(posts: Seq<(u64, u32)>, id: u64)
    ensures
        forall|j: int|
            0 <= j < remove_posts(posts, id).len() ==> (#[trigger] remove_posts(posts, id)[j]).0
                != id,
    decreases posts.len(),
{
    if posts.len() > 0 {
        lemma_remove_posts_clean(posts.drop_first(), id);
        let rest = remove_posts(posts.drop_first(), id);
        if posts[0].0 == id {
            assert(remove_posts(posts, id) =~= rest);
        } else {
            assert(remove_posts(posts, id) =~= seq![posts[0]] + rest);
            assert(forall|j: int|
                0 <= j < rest.len() ==> (seq![posts[0]] + rest)[j + 1] == rest[j]);
        }
    }
}

/// No posting for `id` survives pruning.
pub proof fn lemma_prune_clean(inv: Seq<TermView>, id: u64)
    ensures
        !mentions_doc(prune_inv(inv, id), id),
    decreases inv.len(),
{
    if inv.len() > 0 {
        lemma_prune_clean(inv.drop_first(), id);
        let rest = prune_inv(inv.drop_first(), id);
        let cleaned = remove_posts(inv[0].posts, id);
        lemma_remove_posts_clean(inv[0].posts, id);
        if cleaned.len() == 0 {
            assert(prune_inv(inv, id) =~= rest);
        } else {
            let head = TermView { term: inv[0].term, posts: cleaned };
            assert(prune_inv(inv, id) =~= seq![head] + rest);
            assert forall|k: int, j: int|
                0 <= k < prune_inv(inv, id).len() && 0 <= j < prune_inv(inv, id)[k].posts.len()
                    implies (#[trigger] prune_inv(inv, id)[k].posts[j]).0 != id by {
                if k == 0 {
                    assert(prune_inv(inv, id)[0] == head);
                } else {
                    assert(prune_inv(inv, id)[k] == rest[k - 1]);
                    assert(!mentions_doc(rest, id));
                    assert(0 <= k - 1 < rest.len() && 0 <= j < rest[k - 1].posts.len() ==> !((
                    rest[k - 1].posts[j]).0 == id));
                }
            }
        }
    }
}

/// Some document in `docs` carries `id`, stated by position.
pub open spec fn id_in(docs: Seq<DocView>, x: u64) -> bool {
    exists|j: int| 0 <= j < docs.len() && (#[trigger] docs[j]).id == x
}

pub proof fn lemma_has_doc_id_alt(docs: Seq<DocView>, x: u64)
    ensures
        has_doc_id(docs, x) == id_in(docs, x),
{
    lemma_doc_pos_char(docs, x, 0);
    match doc_pos(docs, x) {
        Some(k) => {
            assert(docs[k].id == x);
        },
        None => {
            if id_in(docs, x) {
                let j = choose|j: int| 0 <= j < docs.len() && (#[trigger] docs[j]).id == x;
            }
        },
    }
}

/// Every term's posting list is non-empty, names each document at most
/// once, and names only documents present in the store.
pub open spec fn posts_wf(posts: Seq<(u64, u32)>, docs: Seq<DocView>) -> bool {
    &&& posts.len() > 0
    &&& forall|a: int, b: int|
        #![trigger posts[a], posts[b]]
        0 <= a < b < posts.len() ==> posts[a].0 != posts[b].0
    &&& forall|j: int| 0 <= j < posts.len() ==> id_in(docs, (#[trigger] posts[j]).0)
}

/// No two buckets carry the same term.
pub open spec fn unique_terms(inv: Seq<TermView>) -> bool {
    forall|a: int, b: int| 0 <= a < b < inv.len() ==> inv[a].term != inv[b].term
}

/// The store-and-index invariant: document ids are unique, terms are
/// unique, and every posting list is well-formed against the store.  The
/// empty index satisfies it, and indexing, removal, page replacement and
/// rebuilding each preserve it; an index loaded from a foreign snapshot may
/// break it until rebuilt.
pub open spec fn index_wf(v: IndexView) -> bool {
    &&& unique_doc_ids(v.docs)
    &&& unique_terms(v.inverted)
    &&& forall|k: int| 0 <= k < v.inverted.len() ==> posts_wf((#[trigger] v.inverted[k]).posts, v.docs)
}

/// A fresh index satisfies the invariant.
pub proof fn lemma_empty_index_wf()
    ensures
        index_wf(empty_index()),
{
}

/// Removing a document keeps ids unique and keeps every other id.
proof fn lemma_remove_docs_ids(docs: Seq<DocView>, id: u64)
    ensures
        forall|x: u64| #[trigger] id_in(remove_docs(docs, id), x) ==> x != id && id_in(docs, x),
        forall|x: u64| x != id && #[trigger] id_in(docs, x) ==> id_in(remove_docs(docs, id), x),
        unique_doc_ids(docs) ==> unique_doc_ids(remove_docs(docs, id)),
    decreases docs.len(),
{
    if docs.len() == 0 {
        assert(remove_docs(docs, id) =~= Seq::<DocView>::empty());
    } else {
        let rest = docs.drop_first();
        lemma_remove_docs_ids(rest, id);
        let rr = remove_docs(rest, id);
        assert(forall|j: int| 0 <= j < rest.len() ==> rest[j] == docs[j + 1]);
        assert(forall|x: u64| #[trigger] id_in(rest, x) ==> id_in(docs, x)) by {
            assert forall|x: u64| #[trigger] id_in(rest, x) implies id_in(docs, x) by {
                let j = choose|j: int| 0 <= j < rest.len() && (#[trigger] rest[j]).id == x;
                assert(docs[j + 1].id == x);
            }
        }
        if docs[0].id == id {
            assert(remove_docs(docs, id) =~= rr);
            assert forall|x: u64| x != id && #[trigger] id_in(docs, x) implies id_in(rr, x) by {
                let j = choose|j: int| 0 <= j < docs.len() && (#[trigger] docs[j]).id == x;
                assert(j != 0);
                assert(rest[j - 1].id == x);
                assert(id_in(rest, x));
            }
            if unique_doc_ids(docs) {
                assert(unique_doc_ids(rest)) by {
                    assert(forall|a: int, b: int|
                        0 <= a < b < rest.len() ==> rest[a].id != rest[b].id);
                }
            }
        } else {
            assert(remove_docs(docs, id) =~= seq![docs[0]] + rr);
            let whole = seq![docs[0]] + rr;
            assert(forall|j: int| 0 <= j < rr.len() ==> whole[j + 1] == rr[j]);
            assert(whole[0] == docs[0]);
            assert forall|x: u64| #[trigger] id_in(whole, x) implies x != id && id_in(docs, x) by {
                let j = choose|j: int| 0 <= j < whole.len() && (#[trigger] whole[j]).id == x;
                if j == 0 {
                    assert(docs[0].id == x);
                } else {
                    assert(id_in(rr, x));
                }
            }
            assert forall|x: u64| x != id && #[trigger] id_in(docs, x) implies id_in(whole, x) by {
                let j = choose|j: int| 0 <= j < docs.len() && (#[trigger] docs[j]).id == x;
                if j == 0 {
                    assert(whole[0].id == x);
                } else {
                    assert(rest[j - 1].id == x);
                    assert(id_in(rest, x));
                    assert(id_in(rr, x));
                    let j2 = choose|j2: int| 0 <= j2 < rr.len() && (#[trigger] rr[j2]).id == x;
                    assert(whole[j2 + 1].id == x);
                }
            }
            if unique_doc_ids(docs) {
                assert(unique_doc_ids(rest)) by {
                    assert(forall|a: int, b: int|
                        0 <= a < b < rest.len() ==> rest[a].id != rest[b].id);
                }
                assert(!id_in(rest, docs[0].id)) by {
                    if id_in(rest, docs[0].id) {
                        let j = choose|j: int|
                            0 <= j < rest.len() && (#[trigger] rest[j]).id == docs[0].id;
                        assert(docs[j + 1].id == docs[0].id);
                    }
                }
                assert forall|a: int, b: int| 0 <= a < b < whole.len() implies whole[a].id
                    != whole[b].id by {
                    if a == 0 {
                        assert(whole[b] == rr[b - 1]);
                        assert(id_in(rr, rr[b - 1].id));
                    }
                }
            }
        }
    }
}

/// Pruning keeps terms unique and presents no term that was absent.
proof fn lemma_prune_terms(inv: Seq<TermView>, id: u64)
    ensures
        forall|t: Seq<char>|
            #[trigger] term_in(prune_inv(inv, id), t) ==> term_in(inv, t),
        unique_terms(inv) ==> unique_terms(prune_inv(inv, id)),
    decreases inv.len(),
{
    if inv.len() == 0 {
        assert(prune_inv(inv, id) =~= Seq::<TermView>::empty());
    } else {
        let rest = inv.drop_first();
        lemma_prune_terms(rest, id);
        let rr = prune_inv(rest, id);
        assert(forall|j: int| 0 <= j < rest.len() ==> rest[j] == inv[j + 1]);
        assert forall|t: Seq<char>| #[trigger] term_in(rest, t) implies term_in(inv, t) by {
            let j = choose|j: int| 0 <= j < rest.len() && (#[trigger] rest[j]).term == t;
            assert(inv[j + 1].term == t);
        }
        let cleaned = remove_posts(inv[0].posts, id);
        if cleaned.len() == 0 {
            assert(prune_inv(inv, id) =~= rr);
            if unique_terms(inv) {
                assert(unique_terms(rest)) by {
                    assert(forall|a: int, b: int|
                        0 <= a < b < rest.len() ==> rest[a].term != rest[b].term);
                }
            }
        } else {
            let head = TermView { term: inv[0].term, posts: cleaned };
            assert(prune_inv(inv, id) =~= seq![head] + rr);
            let whole = seq![head] + rr;
            assert(forall|j: int| 0 <= j < rr.len() ==> whole[j + 1] == rr[j]);
            assert(whole[0] == head);
            assert forall|t: Seq<char>| #[trigger] term_in(whole, t) implies term_in(inv, t) by {
                let j = choose|j: int| 0 <= j < whole.len() && (#[trigger] whole[j]).term == t;
                if j == 0 {
                    assert(inv[0].term == t);
                } else {
                    assert(term_in(rr, t));
                }
            }
            if unique_terms(inv) {
                assert(unique_terms(rest)) by {
                    assert(forall|a: int, b: int|
                        0 <= a < b < rest.len() ==> rest[a].term != rest[b].term);
                }
                assert(!term_in(rest, inv[0].term)) by {
                    if term_in(rest, inv[0].term) {
                        let j = choose|j: int|
                            0 <= j < rest.len() && (#[trigger] rest[j]).term == inv[0].term;
                        assert(inv[j + 1].term == inv[0].term);
                    }
                }
                assert forall|a: int, b: int| 0 <= a < b < whole.len() implies whole[a].term
                    != whole[b].term by {
                    if a == 0 {
                        assert(whole[b] == rr[b - 1]);
                        assert(term_in(rr, rr[b - 1].term));
                    }
                }
            }
        }
    }
}

/// Some bucket in `inv` carries `t`, stated by position.
pub open spec fn term_in(inv: Seq<TermView>, t: Seq<char>) -> bool {
    exists|k: int| 0 <= k < inv.len() && (#[trigger] inv[k]).term == t
}


/// Some posting in `posts` names `x`.
pub open spec fn post_id_in(posts: Seq<(u64, u32)>, x: u64) -> bool {
    exists|j: int| 0 <= j < posts.len() && (#[trigger] posts[j]).0 == x
}

/// Filtering a posting list keeps its ids distinct and presents no id that
/// was absent.
proof fn lemma_remove_posts_props(posts: Seq<(u64, u32)>, id: u64)
    ensures
        forall|x: u64| #[trigger] post_id_in(remove_posts(posts, id), x) ==> post_id_in(posts, x),
        (forall|a: int, b: int|
            #![trigger posts[a], posts[b]]
            0 <= a < b < posts.len() ==> posts[a].0 != posts[b].0) ==> (forall|a: int, b: int|
            #![trigger remove_posts(posts, id)[a], remove_posts(posts, id)[b]]
            0 <= a < b < remove_posts(posts, id).len() ==> remove_posts(posts, id)[a].0
                != remove_posts(posts, id)[b].0),
    decreases posts.len(),
{
    if posts.len() == 0 {
        assert(remove_posts(posts, id) =~= Seq::<(u64, u32)>::empty());
    } else {
        let rest = posts.drop_first();
        lemma_remove_posts_props(rest, id);
        let rr = remove_posts(rest, id);
        assert(forall|j: int| 0 <= j < rest.len() ==> rest[j] == posts[j + 1]);
        assert forall|x: u64| #[trigger] post_id_in(rest, x) implies post_id_in(posts, x) by {
            let j = choose|j: int| 0 <= j < rest.len() && (#[trigger] rest[j]).0 == x;
            assert(posts[j + 1].0 == x);
        }
        if posts[0].0 == id {
            assert(remove_posts(posts, id) =~= rr);
            assert(forall|a: int, b: int|
                #![trigger rest[a], rest[b]]
                (forall|a2: int, b2: int|
                    #![trigger posts[a2], posts[b2]]
                    0 <= a2 < b2 < posts.len() ==> posts[a2].0 != posts[b2].0) && 0 <= a < b
                    < rest.len() ==> rest[a].0 != rest[b].0);
        } else {
            assert(remove_posts(posts, id) =~= seq![posts[0]] + rr);
            let whole = seq![posts[0]] + rr;
            assert(forall|j: int| 0 <= j < rr.len() ==> whole[j + 1] == rr[j]);
            assert(whole[0] == posts[0]);
            assert forall|x: u64| #[trigger] post_id_in(whole, x) implies post_id_in(posts, x) by {
                let j = choose|j: int| 0 <= j < whole.len() && (#[trigger] whole[j]).0 == x;
                if j == 0 {
                    assert(posts[0].0 == x);
                } else {
                    assert(post_id_in(rr, x));
                }
            }
            if forall|a: int, b: int|
                #![trigger posts[a], posts[b]]
                0 <= a < b < posts.len() ==> posts[a].0 != posts[b].0 {
                assert(forall|a: int, b: int|
                    #![trigger rest[a], rest[b]]
                    0 <= a < b < rest.len() ==> rest[a].0 != rest[b].0);
                assert(!post_id_in(rest, posts[0].0)) by {
                    if post_id_in(rest, posts[0].0) {
                        let j = choose|j: int|
                            0 <= j < rest.len() && (#[trigger] rest[j]).0 == posts[0].0;
                        assert(posts[j + 1].0 == posts[0].0);
                    }
                }
                assert forall|a: int, b: int|
                    #![trigger whole[a], whole[b]]
                    0 <= a < b < whole.len() implies whole[a].0 != whole[b].0 by {
                    if a == 0 {
                        assert(whole[b] == rr[b - 1]);
                        assert(post_id_in(rr, rr[b - 1].0));
                    }
                }
            }
        }
    }
}

/// Every bucket the pruning keeps is a kept bucket of the input with its
/// postings filtered, and non-empty.
proof fn lemma_prune_buckets(inv: Seq<TermView>, id: u64)
    ensures
        forall|k: int|
            0 <= k < prune_inv(inv, id).len() ==> exists|k0: int|
                0 <= k0 < inv.len() && #[trigger] prune_inv(inv, id)[k] == (TermView {
                    term: inv[k0].term,
                    posts: remove_posts(inv[k0].posts, id),
                }) && remove_posts(inv[k0].posts, id).len() > 0,
    decreases inv.len(),
{
    if inv.len() > 0 {
        let rest = inv.drop_first();
        lemma_prune_buckets(rest, id);
        let rr = prune_inv(rest, id);
        assert(forall|j: int| 0 <= j < rest.len() ==> rest[j] == inv[j + 1]);
        let cleaned = remove_posts(inv[0].posts, id);
        assert forall|k: int| 0 <= k < rr.len() implies exists|k0: int|
            0 <= k0 < inv.len() && #[trigger] rr[k] == (TermView {
                term: inv[k0].term,
                posts: remove_posts(inv[k0].posts, id),
            }) && remove_posts(inv[k0].posts, id).len() > 0 by {
            let k0 = choose|k0: int|
                0 <= k0 < rest.len() && #[trigger] rr[k] == (TermView {
                    term: rest[k0].term,
                    posts: remove_posts(rest[k0].posts, id),
                }) && remove_posts(rest[k0].posts, id).len() > 0;
            assert(rest[k0] == inv[k0 + 1]);
            assert(rr[k] == TermView {
                term: inv[k0 + 1].term,
                posts: remove_posts(inv[k0 + 1].posts, id),
            });
        }
        if cleaned.len() == 0 {
            assert(prune_inv(inv, id) =~= rr);
        } else {
            let head = TermView { term: inv[0].term, posts: cleaned };
            assert(prune_inv(inv, id) =~= seq![head] + rr);
            let whole = seq![head] + rr;
            assert(forall|j: int| 0 <= j < rr.len() ==> whole[j + 1] == rr[j]);
            assert(whole[0] == head);
        }
    }
}

/// Removing a document preserves the store-and-index invariant.
pub proof fn lemma_remove_doc_preserves_wf(v: IndexView, id: u64)
    requires
        index_wf(v),
    ensures
        index_wf(remove_doc_spec(v, id)),
{
    let v1 = remove_doc_spec(v, id);
    lemma_remove_docs_ids(v.docs, id);
    lemma_prune_terms(v.inverted, id);
    lemma_prune_buckets(v.inverted, id);
    assert forall|k: int| 0 <= k < v1.inverted.len() implies posts_wf(
        (#[trigger] v1.inverted[k]).posts,
        v1.docs,
    ) by {
        let k0 = choose|k0: int|
            0 <= k0 < v.inverted.len() && #[trigger] v1.inverted[k] == (TermView {
                term: v.inverted[k0].term,
                posts: remove_posts(v.inverted[k0].posts, id),
            }) && remove_posts(v.inverted[k0].posts, id).len() > 0;
        lemma_remove_posts_props(v.inverted[k0].posts, id);
        lemma_remove_posts_clean(v.inverted[k0].posts, id);
        assert forall|j: int| 0 <= j < v1.inverted[k].posts.len() implies id_in(
            v1.docs,
            (#[trigger] v1.inverted[k].posts[j]).0,
        ) by {
            let x = v1.inverted[k].posts[j].0;
            assert(post_id_in(remove_posts(v.inverted[k0].posts, id), x));
            assert(post_id_in(v.inverted[k0].posts, x));
            let j0 = choose|j0: int|
                0 <= j0 < v.inverted[k0].posts.len() && (#[trigger] v.inverted[k0].posts[j0]).0
                    == x;
            assert(id_in(v.docs, x));
            assert(x != id);
        }
    }
}


/// Some count entry carries term `t`.
pub open spec fn cnt_term_in(acc: Seq<(Seq<char>, u32)>, t: Seq<char>) -> bool {
    exists|j: int| 0 <= j < acc.len() && (#[trigger] acc[j]).0 == t
}

pub open spec fn cnt_terms_unique(acc: Seq<(Seq<char>, u32)>) -> bool {
    forall|a: int, b: int|
        #![trigger acc[a], acc[b]]
        0 <= a < b < acc.len() ==> acc[a].0 != acc[b].0
}

/// Where `cnt_pos_from` finds a position, the entry there carries the term;
/// where it finds none, no entry at or after `i` does.
proof fn lemma_cnt_pos_char(acc: Seq<(Seq<char>, u32)>, t: Seq<char>, i: int)
    requires
        0 <= i <= acc.len(),
    ensures
        match cnt_pos_from(acc, t, i) {
            Some(k) => i <= k < acc.len() && acc[k].0 == t,
            None => forall|j: int| i <= j < acc.len() ==> (#[trigger] acc[j]).0 != t,
        },
    decreases acc.len() - i,
{
    if i < acc.len() && acc[i].0 != t {
        lemma_cnt_pos_char(acc, t, i + 1);
    }
}

/// Recording an occurrence keeps the counted terms distinct.
proof fn lemma_bump_unique(acc: Seq<(Seq<char>, u32)>, t: Seq<char>)
    requires
        cnt_terms_unique(acc),
    ensures
        cnt_terms_unique(bump(acc, t)),
    decreases acc.len(),
{
    lemma_cnt_pos_char(acc, t, 0);
    match cnt_pos(acc, t) {
        Some(k) => {
            let acc2 = bump(acc, t);
            assert(forall|j: int| 0 <= j < acc.len() ==> (#[trigger] acc2[j]).0 == acc[j].0);
        },
        None => {
            let acc2 = acc.push((t, 1u32));
            assert forall|a: int, b: int|
                #![trigger acc2[a], acc2[b]]
                0 <= a < b < acc2.len() implies acc2[a].0 != acc2[b].0 by {
                if b == acc.len() {
                    assert(acc2[a] == acc[a]);
                    assert(acc2[b].0 == t);
                } else {
                    assert(acc2[a] == acc[a] && acc2[b] == acc[b]);
                }
            }
        },
    }
}

proof fn lemma_count_from_unique(tokens: Seq<Seq<char>>, i: int, acc: Seq<(Seq<char>, u32)>)
    requires
        cnt_terms_unique(acc),
    ensures
        cnt_terms_unique(count_from(tokens, i, acc)),
    decreases tokens.len() - i,
{
    if 0 <= i < tokens.len() {
        lemma_bump_unique(acc, tokens[i]);
        lemma_count_from_unique(tokens, i + 1, bump(acc, tokens[i]));
    }
}

/// The term frequencies of any token list carry each term once.
pub proof fn lemma_count_terms_unique(tokens: Seq<Seq<char>>)
    ensures
        cnt_terms_unique(count_terms(tokens)),
{
    lemma_count_from_unique(tokens, 0, Seq::empty());
}

/// Appending the postings of one freshly counted document preserves the
/// index invariant: terms stay unique, lists stay well-formed, and the new
/// document gains at most one posting per term.
#[verifier::rlimit(30)]
proof fn lemma_add_posts_wf(
    inv: Seq<TermView>,
    id: u64,
    counts: Seq<(Seq<char>, u32)>,
    i: int,
    docs2: Seq<DocView>,
)
    requires
        id_in(docs2, id),
        unique_terms(inv),
        forall|k: int| 0 <= k < inv.len() ==> posts_wf((#[trigger] inv[k]).posts, docs2),
        cnt_terms_unique(counts),
        forall|k: int|
            0 <= k < inv.len() && post_id_in((#[trigger] inv[k]).posts, id) ==> !(exists|m: int|
                i <= m < counts.len() && (#[trigger] counts[m]).0 == inv[k].term),
    ensures
        ({
            let r = add_posts_from(inv, id, counts, i);
            &&& unique_terms(r)
            &&& forall|k: int| 0 <= k < r.len() ==> posts_wf((#[trigger] r[k]).posts, docs2)
        }),
    decreases counts.len() - i,
{
    if 0 <= i < counts.len() {
        let inv2 = apply_count(inv, id, counts[i]);
        lemma_term_pos_char(inv, counts[i].0, 0);
        match term_pos(inv, counts[i].0) {
            Some(b) => {
                assert(!post_id_in(inv[b].posts, id)) by {
                    if post_id_in(inv[b].posts, id) {
                        assert(counts[i].0 == inv[b].term);
                    }
                }
                assert(forall|k: int| 0 <= k < inv.len() ==> (#[trigger] inv2[k]).term
                    == inv[k].term);
                assert(unique_terms(inv2));
                assert forall|k: int| 0 <= k < inv2.len() implies posts_wf(
                    (#[trigger] inv2[k]).posts,
                    docs2,
                ) by {
                    if k == b {
                        let np = inv2[b].posts;
                        assert(np == inv[b].posts.push((id, counts[i].1)));
                        assert forall|a: int, c: int|
                            #![trigger np[a], np[c]]
                            0 <= a < c < np.len() implies np[a].0 != np[c].0 by {
                            if c == np.len() - 1 {
                                assert(np[a] == inv[b].posts[a]);
                                assert(np[c].0 == id);
                                assert(post_id_in(inv[b].posts, np[a].0));
                            } else {
                                assert(np[a] == inv[b].posts[a] && np[c] == inv[b].posts[c]);
                            }
                        }
                        assert forall|j: int| 0 <= j < np.len() implies id_in(
                            docs2,
                            (#[trigger] np[j]).0,
                        ) by {
                            if j < np.len() - 1 {
                                assert(np[j] == inv[b].posts[j]);
                            } else {
                                assert(np[j].0 == id);
                            }
                        }
                    } else {
                        assert(inv2[k] == inv[k]);
                    }
                }
                assert forall|k: int|
                    0 <= k < inv2.len() && post_id_in((#[trigger] inv2[k]).posts, id) implies !(
                exists|m: int|
                    i + 1 <= m < counts.len() && (#[trigger] counts[m]).0 == inv2[k].term) by {
                    if exists|m: int|
                        i + 1 <= m < counts.len() && (#[trigger] counts[m]).0 == inv2[k].term {
                        let m = choose|m: int|
                            i + 1 <= m < counts.len() && (#[trigger] counts[m]).0
                                == inv2[k].term;
                        if k == b {
                            assert(counts[m].0 == counts[i].0);
                        } else {
                            assert(inv2[k] == inv[k]);
                            assert(post_id_in(inv[k].posts, id));
                        }
                    }
                }
                lemma_add_posts_wf(inv2, id, counts, i + 1, docs2);
            },
            None => {
                let nb = TermView { term: counts[i].0, posts: seq![(id, counts[i].1)] };
                assert(inv2 == inv.push(nb));
                assert(forall|k: int| 0 <= k < inv.len() ==> (#[trigger] inv2[k]) == inv[k]);
                assert forall|a: int, b2: int| 0 <= a < b2 < inv2.len() implies inv2[a].term
                    != inv2[b2].term by {
                    if b2 == inv.len() {
                        assert(inv2[a] == inv[a]);
                    }
                }
                assert forall|k: int| 0 <= k < inv2.len() implies posts_wf(
                    (#[trigger] inv2[k]).posts,
                    docs2,
                ) by {
                    if k == inv.len() {
                        assert(inv2[k].posts == seq![(id, counts[i].1)]);
                        assert(inv2[k].posts[0].0 == id);
                    } else {
                        assert(inv2[k] == inv[k]);
                    }
                }
                assert forall|k: int|
                    0 <= k < inv2.len() && post_id_in((#[trigger] inv2[k]).posts, id) implies !(
                exists|m: int|
                    i + 1 <= m < counts.len() && (#[trigger] counts[m]).0 == inv2[k].term) by {
                    if exists|m: int|
                        i + 1 <= m < counts.len() && (#[trigger] counts[m]).0 == inv2[k].term {
                        let m = choose|m: int|
                            i + 1 <= m < counts.len() && (#[trigger] counts[m]).0
                                == inv2[k].term;
                        if k == inv.len() {
                            assert(counts[m].0 == counts[i].0);
                        } else {
                            assert(post_id_in(inv[k].posts, id));
                        }
                    }
                }
                lemma_add_posts_wf(inv2, id, counts, i + 1, docs2);
            },
        }
    }
}

/// Indexing a document preserves the store-and-index invariant.
pub proof fn lemma_index_doc_preserves_wf(v: IndexView, d: DocView)
    requires
        index_wf(v),
    ensures
        index_wf(index_doc_spec(v, d)),
{
    let v1 = if has_doc_id(v.docs, d.id) {
        remove_doc_spec(v, d.id)
    } else {
        v
    };
    if has_doc_id(v.docs, d.id) {
        lemma_remove_doc_preserves_wf(v, d.id);
        lemma_prune_clean(v.inverted, d.id);
        lemma_remove_docs_ids(v.docs, d.id);
        assert(!id_in(v1.docs, d.id)) by {
            if id_in(v1.docs, d.id) {
            }
        }
    } else {
        lemma_has_doc_id_alt(v.docs, d.id);
    }
    assert(forall|k: int|
        0 <= k < v1.inverted.len() ==> !post_id_in((#[trigger] v1.inverted[k]).posts, d.id)) by {
        if has_doc_id(v.docs, d.id) {
            assert forall|k: int| 0 <= k < v1.inverted.len() implies !post_id_in(
                (#[trigger] v1.inverted[k]).posts,
                d.id,
            ) by {
                if post_id_in(v1.inverted[k].posts, d.id) {
                    let j = choose|j: int|
                        0 <= j < v1.inverted[k].posts.len() && (
                        #[trigger] v1.inverted[k].posts[j]).0 == d.id;
                    assert(mentions_doc(v1.inverted, d.id));
                }
            }
        } else {
            assert forall|k: int| 0 <= k < v1.inverted.len() implies !post_id_in(
                (#[trigger] v1.inverted[k]).posts,
                d.id,
            ) by {
                if post_id_in(v1.inverted[k].posts, d.id) {
                    assert(id_in(v1.docs, d.id));
                }
            }
        }
    }
    let docs2 = v1.docs.push(d);
    assert(unique_doc_ids(docs2)) by {
        assert forall|a: int, b: int| 0 <= a < b < docs2.len() implies docs2[a].id != docs2[b].id
            by {
            if b == v1.docs.len() {
                assert(docs2[a] == v1.docs[a]);
                assert(id_in(v1.docs, v1.docs[a].id));
            } else {
                assert(docs2[a] == v1.docs[a] && docs2[b] == v1.docs[b]);
            }
        }
    }
    assert(id_in(docs2, d.id)) by {
        assert(docs2[v1.docs.len() as int].id == d.id);
    }
    assert(forall|k: int|
        0 <= k < v1.inverted.len() ==> posts_wf((#[trigger] v1.inverted[k]).posts, docs2)) by {
        assert forall|k: int| 0 <= k < v1.inverted.len() implies posts_wf(
            (#[trigger] v1.inverted[k]).posts,
            docs2,
        ) by {
            assert(posts_wf(v1.inverted[k].posts, v1.docs));
            assert forall|j: int| 0 <= j < v1.inverted[k].posts.len() implies id_in(
                docs2,
                (#[trigger] v1.inverted[k].posts[j]).0,
            ) by {
                let x = v1.inverted[k].posts[j].0;
                assert(id_in(v1.docs, x));
                let j0 = choose|j0: int| 0 <= j0 < v1.docs.len() && (#[trigger] v1.docs[j0]).id == x;
                assert(docs2[j0].id == x);
            }
        }
    }
    let counts = count_terms(tokenize_spec(doc_text(d)));
    lemma_count_terms_unique(tokenize_spec(doc_text(d)));
    lemma_add_posts_wf(v1.inverted, d.id, counts, 0, docs2);
}

/// Replacing a page preserves the store-and-index invariant.
pub proof fn lemma_index_page_preserves_wf(
    v: IndexView,
    url: Seq<char>,
    title: Seq<char>,
    content: Seq<char>,
    id: u64,
    t: u64,
)
    requires
        index_wf(v),
    ensures
        index_wf(index_page_spec(v, url, title, content, id, t)),
{
    match url_pos(v.docs, url) {
        Some(p) => {
            lemma_remove_doc_preserves_wf(v, v.docs[p].id);
        },
        None => {},
    }
    lemma_index_doc_preserves_wf(
        remove_by_url(v, url),
        DocView { id, url, title, content, created_at: t },
    );
}

/// A rebuilt index is well-formed whatever document list it was derived
/// from: this is what makes the rebuild a repair.
pub proof fn lemma_rebuild_wf(docs: Seq<DocView>)
    ensures
        index_wf(rebuild_spec(docs)),
{
    lemma_rebuild_from_wf(docs, 0, empty_index());
}

proof fn lemma_rebuild_from_wf(docs: Seq<DocView>, i: int, v: IndexView)
    requires
        index_wf(v),
    ensures
        index_wf(rebuild_from(docs, i, v)),
    decreases docs.len() - i,
{
    if 0 <= i < docs.len() {
        lemma_index_doc_preserves_wf(v, docs[i]);
        lemma_rebuild_from_wf(docs, i + 1, index_doc_spec(v, docs[i]));
    }
}

} // verus!
