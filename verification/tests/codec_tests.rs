use zed_browser::codec::load_snapshot;
use zed_browser::codec::parse_snapshot;
use zed_browser::codec::save_snapshot;
use zed_browser::codec::snapshot_to_json;
use zed_browser::index::Doc;
use zed_browser::index::Index;
use zed_browser::index::PersistedIndex;

fn sample_index() -> Index {
    let mut idx = Index::new();
    idx.index_doc(Doc {
        id: 7,
        url: "https://example.com/one".to_owned(),
        title: "One \"quoted\" title".to_owned(),
        content: "line\nbreak and back\\slash rust".to_owned(),
        created_at: 1700000000,
    });
    idx.index_doc(Doc {
        id: 9,
        url: "https://example.com/two".to_owned(),
        title: "Two".to_owned(),
        content: "plain rust text".to_owned(),
        created_at: 1700000005,
    });
    idx
}

#[test]
fn round_trip_persistence() {
    let idx = sample_index();
    let text = save_snapshot(&idx);
    let reloaded = load_snapshot(&text);
    assert_eq!(reloaded.doc_count(), 2);
    let d = reloaded.get_document(7).expect("doc 7");
    assert_eq!(d.url, "https://example.com/one");
    assert_eq!(d.title, "One \"quoted\" title");
    assert_eq!(d.content, "line\nbreak and back\\slash rust");
    assert_eq!(d.created_at, 1700000000);
    // saving what was loaded gives the same text again
    let text2 = save_snapshot(&reloaded);
    assert_eq!(text, text2);
    let reloaded2 = load_snapshot(&text2);
    assert_eq!(reloaded2.doc_count(), 2);
    // the inverted index survives byte for byte
    assert_eq!(reloaded.inverted.len(), reloaded2.inverted.len());
    let hits = reloaded2.search("rust", 10);
    assert_eq!(hits.len(), 2);
}

#[test]
fn corrupt_snapshot_loads_empty() {
    assert!(parse_snapshot("").is_none());
    assert!(parse_snapshot("{\"docs\":[").is_none());
    assert!(parse_snapshot("not json at all").is_none());
    assert!(parse_snapshot("{\"docs\":[],\"inverted\":{}} trailing").is_none());
    let idx = load_snapshot("garbage");
    assert_eq!(idx.doc_count(), 0);
    assert!(idx.search("anything", 5).is_empty());
}

#[test]
fn empty_snapshot_round_trips() {
    let idx = Index::new();
    let text = save_snapshot(&idx);
    assert_eq!(text, "{\"docs\":[],\"inverted\":{}}");
    let back = load_snapshot(&text);
    assert_eq!(back.doc_count(), 0);
}

#[test]
fn snapshot_text_is_valid_json() {
    let idx = sample_index();
    let text = save_snapshot(&idx);
    let value: serde_json::Value = serde_json::from_str(&text).expect("well-formed JSON");
    let docs = value.get("docs").and_then(|d| d.as_array()).expect("docs array");
    assert_eq!(docs.len(), 2);
    assert_eq!(docs[0]["id"].as_u64(), Some(7));
    assert_eq!(docs[0]["url"].as_str(), Some("https://example.com/one"));
    assert_eq!(docs[0]["title"].as_str(), Some("One \"quoted\" title"));
    assert_eq!(docs[0]["content"].as_str(), Some("line\nbreak and back\\slash rust"));
    let inverted = value.get("inverted").and_then(|d| d.as_object()).expect("inverted object");
    let rust = inverted.get("rust").and_then(|d| d.as_array()).expect("rust postings");
    assert_eq!(rust.len(), 2);
}

#[test]
fn rebuild_repairs_emptied_inverted_section() {
    let idx = sample_index();
    let persisted = idx.to_persisted();
    // deliberately drop the inverted section, keeping the documents
    let damaged = PersistedIndex { docs: persisted.docs, inverted: Vec::new() };
    let damaged_text = snapshot_to_json(&damaged);
    let broken = load_snapshot(&damaged_text);
    assert!(broken.search("rust", 10).is_empty());
    let parsed = parse_snapshot(&damaged_text).expect("parses");
    let repaired = Index::rebuild(parsed);
    assert_eq!(repaired.doc_count(), 2);
    let hits = repaired.search("rust", 10);
    assert_eq!(hits.len(), 2);
}

#[test]
fn numbers_round_trip_in_snapshots() {
    let mut idx = Index::new();
    idx.index_doc(Doc {
        id: u64::MAX,
        url: "https://edge".to_owned(),
        title: "edge".to_owned(),
        content: "boundary".to_owned(),
        created_at: 0,
    });
    let text = save_snapshot(&idx);
    let back = load_snapshot(&text);
    let d = back.get_document(u64::MAX).expect("largest id kept");
    assert_eq!(d.created_at, 0);
}

#[test]
fn duplicate_ids_in_snapshot_keep_the_later_document() {
    // a hand-edited snapshot may repeat an id; loading lets the later
    // document replace the earlier one, as a keyed store would
    let text = "{\"docs\":[\
{\"id\":1,\"url\":\"https://a\",\"title\":\"first\",\"content\":\"x\",\"created_at\":1},\
{\"id\":1,\"url\":\"https://b\",\"title\":\"second\",\"content\":\"y\",\"created_at\":2}\
],\"inverted\":{}}";
    let idx = load_snapshot(text);
    assert_eq!(idx.doc_count(), 1);
    let d = idx.get_document(1).expect("doc 1");
    assert_eq!(d.title, "second");
    assert_eq!(d.url, "https://b");
}
