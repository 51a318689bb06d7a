use zed_browser::browser::Bookmark;
use zed_browser::browser::Browser;
use zed_browser::browser::BookmarkManager;
use zed_browser::browser::Tab;
use zed_browser::tabs::BrowserEngine;
use zed_browser::tabs::BrowserState;
use zed_browser::tabs::TabInfo;
use zed_browser::tabs::build_search_url;
use zed_browser::tabs::build_search_url_for;

#[test]
fn tab_history_navigation() {
    let mut tab = Tab::new(1, "https://start".to_owned());
    assert!(!tab.can_go_back());
    assert!(!tab.can_go_forward());
    tab.navigate("https://second".to_owned());
    tab.navigate("https://third".to_owned());
    assert_eq!(tab.url, "https://third");
    assert_eq!(tab.go_back().as_deref(), Some("https://second"));
    assert_eq!(tab.go_back().as_deref(), Some("https://start"));
    assert!(tab.go_back().is_none());
    assert_eq!(tab.go_forward().as_deref(), Some("https://second"));
    // navigating mid-history discards the forward entries
    tab.navigate("https://fork".to_owned());
    assert!(!tab.can_go_forward());
    assert_eq!(tab.history.len(), 3);
}

#[test]
fn browser_tab_management() {
    let mut b = Browser::new();
    assert_eq!(b.tab_count(), 1);
    assert!(!b.close_tab(0), "the last tab never closes");
    let id = b.add_tab("https://two".to_owned());
    assert_eq!(b.tab_count(), 2);
    assert_eq!(b.active_tab_id, id);
    assert!(b.set_active_tab(0));
    assert!(!b.set_active_tab(99));
    assert!(b.close_tab(id));
    assert_eq!(b.tab_count(), 1);
    let active = b.get_active_tab().expect("active tab");
    assert_eq!(active.id, 0);
}

#[test]
fn bookmark_folders() {
    let mut m = BookmarkManager::new();
    assert!(m.get_folder("favorites").is_some());
    assert!(m.get_folder("none").is_none());
    assert!(m.add_bookmark("work", Bookmark {
        name: "Docs".to_owned(),
        url: "https://docs.example".to_owned(),
    }));
    assert!(!m.add_bookmark("missing", Bookmark {
        name: "X".to_owned(),
        url: "https://x".to_owned(),
    }));
    assert_eq!(m.get_folder("work").unwrap().bookmarks.len(), 2);
    assert!(m.remove_bookmark("work", "https://docs.example"));
    assert!(!m.remove_bookmark("work", "https://docs.example"));
    assert_eq!(m.get_folder("work").unwrap().bookmarks.len(), 1);
    let before = m.get_folder("favorites").unwrap().expanded;
    assert_eq!(m.toggle_folder("favorites"), true);
    assert_eq!(m.get_folder("favorites").unwrap().expanded, !before);
}

#[test]
fn tabinfo_history_stays_bounded() {
    let mut tab = TabInfo::new(0, "https://0".to_owned());
    for k in 1..=150u32 {
        tab.navigate(format!("https://{}", k));
    }
    assert_eq!(tab.history.len(), 100);
    assert_eq!(tab.url, "https://150");
    assert_eq!(tab.history_index, 99);
}

#[test]
fn browser_state_defaults() {
    let s = BrowserState::new();
    assert_eq!(s.tab_count(), 1);
    assert_eq!(s.tabs[0].url, "about:blank");
    assert_eq!(s.folders.len(), 2);
    assert_eq!(s.selected_engine.as_deref(), Some("chromium"));
    assert_eq!(s.ad_blocking_enabled, Some(true));
    assert_eq!(s.find_tab_pos(0), Some(0));
    assert_eq!(s.find_tab_pos(5), None);
}

#[test]
fn search_urls_per_engine() {
    assert_eq!(
        build_search_url_for("DuckDuckGo", "hello world"),
        "https://duckduckgo.com/?q=hello%20world",
    );
    assert_eq!(
        build_search_url_for("bing", "a+b"),
        "https://www.bing.com/search?q=a%2Bb",
    );
    assert_eq!(
        build_search_url_for("brave", "x"),
        "https://search.brave.com/search?q=x",
    );
    assert_eq!(
        build_search_url_for("bingnoredirect", "x"),
        "https://www.bing.com/search?q=x&FORM=ANNTH1",
    );
    assert_eq!(
        build_search_url_for("chromium", "rust lang"),
        "https://www.google.com/search?q=rust%20lang",
    );
    let s = BrowserState::new();
    assert_eq!(build_search_url(&s, "q"), "https://www.google.com/search?q=q");
}

#[test]
fn engine_catalogue() {
    let engines = BrowserEngine::all();
    assert_eq!(engines.len(), 4);
    assert_eq!(engines[0].id, "chromium");
    assert_eq!(engines[3].id, "edge");
    assert!(engines[1].user_agent.contains("Firefox"));
}
