use zed_browser::index::Index;
use zed_browser::tokenizer::tokenize;

fn token_strings(text: &str) -> Vec<String> {
    tokenize(text)
}

#[test]
fn tokenizer_normalization() {
    let toks = token_strings("The Rust-Lang Guide!");
    assert_eq!(toks, vec!["rust".to_owned(), "lang".to_owned(), "guide".to_owned()]);
}

#[test]
fn tokenizer_drops_stop_words_and_short_terms() {
    assert!(token_strings("").is_empty());
    assert!(token_strings("the a is of").is_empty());
    assert!(token_strings("x y z").is_empty());
    assert_eq!(token_strings("an IT system"), vec!["system".to_owned()]);
    let toks = token_strings("rust rust RUST");
    assert_eq!(toks, vec!["rust".to_owned(), "rust".to_owned(), "rust".to_owned()]);
}

#[test]
fn index_and_get_document() {
    let mut idx = Index::new();
    let id = idx.index_page(
        "https://example.com/a".to_owned(),
        "Alpha".to_owned(),
        "first page about rust".to_owned(),
    );
    assert_eq!(idx.doc_count(), 1);
    let doc = idx.get_document(id).expect("document present");
    assert_eq!(doc.url, "https://example.com/a");
    assert_eq!(doc.title, "Alpha");
    assert!(idx.get_document(id.wrapping_add(1)).is_none() || id.wrapping_add(1) != id);
}

#[test]
fn replace_on_url_keeps_one_document() {
    let mut idx = Index::new();
    let first = idx.index_page(
        "https://example.com/x".to_owned(),
        "Old".to_owned(),
        "ancient walrus content".to_owned(),
    );
    let second = idx.index_page(
        "https://example.com/x".to_owned(),
        "New".to_owned(),
        "fresh penguin content".to_owned(),
    );
    assert_eq!(idx.doc_count(), 1);
    assert!(idx.get_document(first).is_none() || first == second);
    let hits = idx.search("walrus", 10);
    assert!(hits.is_empty());
    let hits = idx.search("penguin", 10);
    assert_eq!(hits.len(), 1);
    assert_eq!(hits[0].id, second);
    assert_eq!(hits[0].title, "New");
}

#[test]
fn removal_completeness() {
    let mut idx = Index::new();
    let id = idx.index_page(
        "https://example.com/y".to_owned(),
        "Yak".to_owned(),
        "a page about yaks".to_owned(),
    );
    assert!(idx.remove_doc(id));
    assert!(!idx.remove_doc(id));
    assert!(idx.get_document(id).is_none());
    assert_eq!(idx.doc_count(), 0);
    assert!(idx.search("yaks", 10).is_empty());
    for bucket in &idx.inverted {
        for p in &bucket.postings {
            assert_ne!(p.0, id);
        }
    }
}

#[test]
fn scoring_single_document() {
    let mut idx = Index::new();
    idx.index_page(
        "https://example.com/rust".to_owned(),
        "Rust Guide".to_owned(),
        "rust is a systems language".to_owned(),
    );
    // tf("rust") = 2: weight 1 + ln 2; idf = ln(1 + 1/2); all in micro units
    let rust_hits = idx.search("rust", 10);
    assert_eq!(rust_hits.len(), 1);
    assert_eq!(rust_hits[0].score, 686_506);
    // tf("guide") = 1: weight 1; same idf
    let guide_hits = idx.search("guide", 10);
    assert_eq!(guide_hits.len(), 1);
    assert_eq!(guide_hits[0].score, 405_462);
    assert!(rust_hits[0].score >= guide_hits[0].score);
}

#[test]
fn search_orders_by_score_then_recency() {
    let mut idx = Index::new();
    idx.index_doc(zed_browser::index::Doc {
        id: 1,
        url: "https://a".to_owned(),
        title: "fox".to_owned(),
        content: "fox fox fox".to_owned(),
        created_at: 50,
    });
    idx.index_doc(zed_browser::index::Doc {
        id: 2,
        url: "https://b".to_owned(),
        title: "fox".to_owned(),
        content: "just one fox mention here".to_owned(),
        created_at: 99,
    });
    idx.index_doc(zed_browser::index::Doc {
        id: 3,
        url: "https://c".to_owned(),
        title: "unrelated".to_owned(),
        content: "nothing to see".to_owned(),
        created_at: 70,
    });
    let hits = idx.search("fox", 10);
    assert_eq!(hits.len(), 2);
    assert_eq!(hits[0].id, 1);
    assert_eq!(hits[1].id, 2);
    // equal scores fall back to recency
    let mut idx2 = Index::new();
    idx2.index_doc(zed_browser::index::Doc {
        id: 10,
        url: "https://old".to_owned(),
        title: "same words".to_owned(),
        content: String::new(),
        created_at: 5,
    });
    idx2.index_doc(zed_browser::index::Doc {
        id: 11,
        url: "https://newer".to_owned(),
        title: "same words".to_owned(),
        content: String::new(),
        created_at: 9,
    });
    let hits2 = idx2.search("words", 10);
    assert_eq!(hits2.len(), 2);
    assert_eq!(hits2[0].id, 11);
    assert_eq!(hits2[1].id, 10);
}

#[test]
fn empty_query_and_empty_index() {
    let mut idx = Index::new();
    assert!(idx.search("anything at all", 10).is_empty());
    idx.index_page(
        "https://example.com".to_owned(),
        "Title".to_owned(),
        "content words".to_owned(),
    );
    assert!(idx.search("", 10).is_empty());
    assert!(idx.search("the a", 10).is_empty());
    assert!(idx.search("the a is of", 10).is_empty());
}

#[test]
fn search_respects_limit() {
    let mut idx = Index::new();
    for k in 0..5u64 {
        idx.index_doc(zed_browser::index::Doc {
            id: k,
            url: format!("https://example.com/{}", k),
            title: "shared keyword".to_owned(),
            content: String::new(),
            created_at: k,
        });
    }
    assert_eq!(idx.search("keyword", 10).len(), 5);
    assert_eq!(idx.search("keyword", 3).len(), 3);
    assert_eq!(idx.search("keyword", 0).len(), 0);
}

#[test]
fn snippet_cuts_at_word_boundary() {
    let mut idx = Index::new();
    let mut long = String::new();
    for _ in 0..60 {
        long.push_str("word ");
    }
    // 300 characters, so the snippet window cuts inside it
    idx.index_page("https://long".to_owned(), "Long".to_owned(), long.clone());
    let hits = idx.search("word", 1);
    assert_eq!(hits.len(), 1);
    assert!(hits[0].snippet.chars().count() < 200);
    assert!(!hits[0].snippet.ends_with(' '));
    assert!(hits[0].snippet.ends_with("word"));
    // short content is returned whole
    let mut idx2 = Index::new();
    idx2.index_page("https://short".to_owned(), "Short".to_owned(), "tiny body".to_owned(),
    );
    let hits2 = idx2.search("tiny", 1);
    assert_eq!(hits2[0].snippet, "tiny body");
}

#[test]
fn next_id_is_fresh() {
    let mut idx = Index::new();
    let a = idx.index_page("https://1".to_owned(), "A".to_owned(), "alpha".to_owned());
    let b = idx.index_page("https://2".to_owned(), "B".to_owned(), "beta".to_owned());
    assert_ne!(a, b);
    let fresh = idx.next_id();
    assert!(idx.get_document(fresh).is_none());
}
