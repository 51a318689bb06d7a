//! The file-backed browser state: tabs with bounded history, bookmark
//! folders, preferences, the engine catalogue, and search-URL building.

use vstd::prelude::*;

use crate::strs;
use crate::browser::Bookmark;
use crate::browser::BookmarkFolder;
use crate::text::eq_str;
use vstd::string::StringExecFns;
use vstd::string::StringSliceAdditionalSpecFns;

verus! {

/// One tab as persisted: URL, title, bounded history and creation time.
pub struct TabInfo {
    pub id: u32,
    pub url: String,
    pub title: String,
    pub history: Vec<String>,
    pub history_index: usize,
    pub created_at: u64,
}

/// Histories longer than this are trimmed from the front on navigation.
pub const MAX_HISTORY: usize = 100;

impl TabInfo {
    /// The history cursor always points at an entry.
    pub open spec fn wf(self) -> bool {
        self.history_index < self.history@.len()
    }

    pub open spec fn spec_can_go_back(self) -> bool {
        self.history_index > 0
    }

    pub open spec fn spec_can_go_forward(self) -> bool {
        self.history_index + 1 < self.history@.len()
    }

    /// A fresh tab on `url`; its creation time comes from the clock.
    pub fn new(id: u32, url: String) -> (t: TabInfo)
        ensures
            t.id == id,
            t.url@ == url@,
            t.title@ == Seq::<char>::empty(),
            strs(t.history@) =~= seq![url@],
            t.history_index == 0,
            t.wf(),
    {
        let millis = crate::now_unix_millis();
        let now = millis / 1000;
        let u = url.clone();
        let mut history: Vec<String> = Vec::new();
        history.push(url);
        proof {
            assert(strs(history@) =~= seq![u@]);
        }
        TabInfo { id, url: u, title: String::new(), history, history_index: 0, created_at: now }
    }

    /// Append `url` to the history: forward entries are discarded, and past
    /// the bound the oldest entries are dropped with the cursor adjusted.
    #[verifier::loop_isolation(false)]
    pub fn navigate(&mut self, url: String)
        requires
            old(self).wf(),
        ensures
            ({
                let h0 = strs(old(self).history@);
                let i0 = old(self).history_index as int;
                let h1 = if i0 + 1 < h0.len() {
                    h0.take(i0 + 1)
                } else {
                    h0
                };
                let rm: int = if h1.len() >= MAX_HISTORY {
                    h1.len() + 1 - MAX_HISTORY
                } else {
                    0
                };
                let h2 = h1.skip(rm);
                strs(final(self).history@) == h2.push(url@) && final(self).history_index
                    == h2.len() && final(self).url@ == url@
            }),
            final(self).id == old(self).id,
            final(self).title == old(self).title,
            final(self).created_at == old(self).created_at,
            final(self).wf(),
    {
        if self.history.len() > 0 && self.history_index < self.history.len() - 1 {
            self.history.truncate(self.history_index + 1);
            proof {
                assert(strs(self.history@) =~= strs(old(self).history@).take(
                    old(self).history_index + 1,
                ));
            }
        }
        let ghost h1 = strs(self.history@);
        if self.history.len() >= MAX_HISTORY {
            let to_remove = self.history.len() - (MAX_HISTORY - 1);
            let mut k: usize = 0;
            while k < to_remove
                invariant
                    k <= to_remove,
                    to_remove <= h1.len(),
                    strs(self.history@) == h1.skip(k as int),
                    self.id == old(self).id,
                    self.title == old(self).title,
                    self.created_at == old(self).created_at,
                    self.url == old(self).url,
                    self.history_index == old(self).history_index,
                decreases to_remove - k,
            {
                let ghost cur = strs(self.history@);
                self.history.remove(0);
                proof {
                    assert(strs(self.history@) =~= cur.skip(1));
                    assert(cur.skip(1) =~= h1.skip(k + 1));
                }
                k += 1;
            }
            if self.history_index >= to_remove {
                self.history_index = self.history_index - to_remove;
            } else {
                self.history_index = 0;
            }
        }
        let ghost h2 = strs(self.history@);
        let u = url.clone();
        self.history.push(url);
        self.history_index = self.history.len() - 1;
        self.url = u;
        proof {
            assert(strs(self.history@) =~= h2.push(self.url@));
        }
    }

    pub fn can_go_back(&self) -> (r: bool)
        ensures
            r == self.spec_can_go_back(),
    {
        self.history_index > 0
    }

    pub fn can_go_forward(&self) -> (r: bool)
        ensures
            r == self.spec_can_go_forward(),
    {
        self.history.len() > 0 && self.history_index < self.history.len() - 1
    }

    /// Move the cursor one entry back and return the URL there, or `None`.
    pub fn go_back(&mut self) -> (r: Option<String>)
        requires
            old(self).wf(),
        ensures
            final(self).wf(),
            final(self).history == old(self).history,
            final(self).id == old(self).id,
            final(self).title == old(self).title,
            final(self).created_at == old(self).created_at,
            old(self).spec_can_go_back() ==> {
                &&& final(self).history_index == old(self).history_index - 1
                &&& final(self).url@ == strs(old(self).history@)[old(self).history_index - 1]
                &&& r matches Some(u) && u@ == final(self).url@
            },
            !old(self).spec_can_go_back() ==> r is None && *final(self) == *old(self),
    {
        if self.history_index > 0 {
            self.history_index = self.history_index - 1;
            self.url = self.history[self.history_index].clone();
            Some(self.url.clone())
        } else {
            None
        }
    }

    /// Move the cursor one entry forward and return the URL there, or
    /// `None`.
    pub fn go_forward(&mut self) -> (r: Option<String>)
        requires
            old(self).wf(),
        ensures
            final(self).wf(),
            final(self).history == old(self).history,
            final(self).id == old(self).id,
            final(self).title == old(self).title,
            final(self).created_at == old(self).created_at,
            old(self).spec_can_go_forward() ==> {
                &&& final(self).history_index == old(self).history_index + 1
                &&& final(self).url@ == strs(old(self).history@)[old(self).history_index + 1]
                &&& r matches Some(u) && u@ == final(self).url@
            },
            !old(self).spec_can_go_forward() ==> r is None && *final(self) == *old(self),
    {
        if self.history.len() > 0 && self.history_index < self.history.len() - 1 {
            self.history_index = self.history_index + 1;
            self.url = self.history[self.history_index].clone();
            Some(self.url.clone())
        } else {
            None
        }
    }
}

/// The whole persisted browser state.
pub struct BrowserState {
    pub tabs: Vec<TabInfo>,
    pub active_tab_id: u32,
    pub next_tab_id: u32,
    pub folders: Vec<BookmarkFolder>,
    pub selected_engine: Option<String>,
    pub ad_blocking_enabled: Option<bool>,
    pub center_search_on_new_tab: Option<bool>,
}

/// The first position at or after `i` of the tab carrying `id`.
pub open spec fn tabinfo_pos_from(tabs: Seq<TabInfo>, id: u32, i: int) -> Option<int>
    decreases tabs.len() - i,
{
    if i < 0 || i >= tabs.len() {
        None
    } else if tabs[i].id == id {
        Some(i)
    } else {
        tabinfo_pos_from(tabs, id, i + 1)
    }
}

pub open spec fn tabinfo_pos(tabs: Seq<TabInfo>, id: u32) -> Option<int> {
    tabinfo_pos_from(tabs, id, 0)
}

impl BrowserState {
    /// The starter state: one blank tab, two bookmark folders, and the
    /// default preferences.
    pub fn new() -> (s: BrowserState)
        ensures
            s.tabs@.len() == 1,
            s.tabs@[0].id == 0,
            s.tabs@[0].url@ == "about:blank"@,
            s.tabs@[0].wf(),
            s.active_tab_id == 0,
            s.next_tab_id == 1,
            s.folders@.len() == 2,
            s.folders@[0].id@ == "favorites"@,
            s.folders@[0].expanded,
            s.folders@[0].bookmarks@.len() == 2,
            s.folders@[1].id@ == "work"@,
            !s.folders@[1].expanded,
            s.folders@[1].bookmarks@.len() == 1,
            s.selected_engine matches Some(e) && e@ == "chromium"@,
            s.ad_blocking_enabled == Some(true),
            s.center_search_on_new_tab == Some(true),
    {
        let mut folders: Vec<BookmarkFolder> = Vec::new();
        let mut favorites: Vec<Bookmark> = Vec::new();
        favorites.push(
            Bookmark {
                name: "GitHub".to_owned(),
                url: "https://github.com".to_owned(),
            },
        );
        favorites.push(
            Bookmark {
                name: "Zed Editor".to_owned(),
                url: "https://zed.dev".to_owned(),
            },
        );
        folders.push(
            BookmarkFolder {
                id: "favorites".to_owned(),
                name: "Favorites".to_owned(),
                expanded: true,
                bookmarks: favorites,
            },
        );
        let mut work: Vec<Bookmark> = Vec::new();
        work.push(
            Bookmark {
                name: "Stack Overflow".to_owned(),
                url: "https://stackoverflow.com".to_owned(),
            },
        );
        folders.push(
            BookmarkFolder {
                id: "work".to_owned(),
                name: "Work".to_owned(),
                expanded: false,
                bookmarks: work,
            },
        );
        let initial_tab = TabInfo::new(0, "about:blank".to_owned());
        let mut tabs: Vec<TabInfo> = Vec::new();
        tabs.push(initial_tab);
        BrowserState {
            tabs,
            active_tab_id: 0,
            next_tab_id: 1,
            folders,
            selected_engine: Some("chromium".to_owned()),
            ad_blocking_enabled: Some(true),
            center_search_on_new_tab: Some(true),
        }
    }

    pub fn tab_count(&self) -> (r: usize)
        ensures
            r == self.tabs@.len(),
    {
        self.tabs.len()
    }

    /// The first position of the tab carrying `id`, if present.
    pub fn find_tab_pos(&self, id: u32) -> (r: Option<usize>)
        ensures
            ({
                let s = tabinfo_pos(self.tabs@, id);
                match r {
                    Some(i) => s == Some(i as int) && i < self.tabs@.len(),
                    None => s is None,
                }
            }),
    {
        let n = self.tabs.len();
        let mut i: usize = 0;
        while i < n
            invariant
                n == self.tabs@.len(),
                i <= n,
                tabinfo_pos(self.tabs@, id) == tabinfo_pos_from(self.tabs@, id, i as int),
            decreases n - i,
        {
            if self.tabs[i].id == id {
                return Some(i);
            }
            proof {
                assert(tabinfo_pos_from(self.tabs@, id, i as int) == tabinfo_pos_from(
                    self.tabs@,
                    id,
                    i + 1,
                ));
            }
            i += 1;
        }
        None
    }
}

/// One selectable rendering engine.
pub struct BrowserEngine {
    pub id: String,
    pub name: String,
    pub user_agent: String,
    pub description: String,
}

impl BrowserEngine {
    /// The catalogue of selectable engines.
    pub fn all() -> (r: Vec<BrowserEngine>)
        ensures
            r@.len() == 4,
            r@[0].id@ == "chromium"@,
            r@[1].id@ == "firefox"@,
            r@[2].id@ == "webkit"@,
            r@[3].id@ == "edge"@,
    {
        let mut out: Vec<BrowserEngine> = Vec::new();
        out.push(
            BrowserEngine {
                id: "chromium".to_owned(),
                name: "Chromium".to_owned(),
                user_agent:
                    "Mozilla/5.0 (Windows NT 10.0; Win64; x64) AppleWebKit/537.36 (KHTML, like Gecko) Chrome/120.0.0.0 Safari/537.36".to_owned(),
                description: "Fast and modern, used by Chrome and Edge".to_owned(),
            },
        );
        out.push(
            BrowserEngine {
                id: "firefox".to_owned(),
                name: "Firefox (Gecko)".to_owned(),
                user_agent:
                    "Mozilla/5.0 (Windows NT 10.0; Win64; x64; rv:121.0) Gecko/20100101 Firefox/121.0".to_owned(),
                description: "Privacy-focused, used by Firefox".to_owned(),
            },
        );
        out.push(
            BrowserEngine {
                id: "webkit".to_owned(),
                name: "WebKit".to_owned(),
                user_agent:
                    "Mozilla/5.0 (Windows NT 10.0; Win64; x64) AppleWebKit/605.1.15 (KHTML, like Gecko) Version/17.0 Safari/605.1.15".to_owned(),
                description: "Lightweight, used by Safari".to_owned(),
            },
        );
        out.push(
            BrowserEngine {
                id: "edge".to_owned(),
                name: "Microsoft Edge".to_owned(),
                user_agent:
                    "Mozilla/5.0 (Windows NT 10.0; Win64; x64) AppleWebKit/537.36 (KHTML, like Gecko) Chrome/120.0.0.0 Safari/537.36 Edg/120.0.0.0".to_owned(),
                description: "Microsoft Edge engine".to_owned(),
            },
        );
        out
    }
}

/// Whether percent encoding keeps the byte as it stands: ASCII letters,
/// digits, and `-`, `.`, `_`, `~`.
pub open spec fn pct_keep(b: u8) -> bool {
    (48 <= b && b <= 57) || (65 <= b && b <= 90) || (97 <= b && b <= 122) || b == 45 || b == 46
        || b == 95 || b == 126
}

pub open spec fn hex_upper(d: nat) -> char {
    if d < 10 {
        (((48 + d) as u8) as char)
    } else {
        (((55 + d) as u8) as char)
    }
}

/// The percent encoding of a byte string: kept bytes stand as themselves,
/// every other byte becomes `%` and two uppercase hex digits.
pub open spec fn pct_encode(bytes: Seq<u8>) -> Seq<char>
    decreases bytes.len(),
{
    if bytes.len() == 0 {
        Seq::empty()
    } else {
        (if pct_keep(bytes[0]) {
            seq![(bytes[0] as char)]
        } else {
            seq!['%', hex_upper((bytes[0] / 16) as nat), hex_upper((bytes[0] % 16) as nat)]
        }) + pct_encode(bytes.drop_first())
    }
}

/// Relies on urlencoding::encode: every byte except the ASCII alphanumerics
/// and `-`, `.`, `_`, `~` becomes `%` and two uppercase hex digits.
#[verifier::external_body]
fn urlencode(s: &str) -> (r: String)
    ensures
        r@ == pct_encode(s.spec_bytes()),
{
    urlencoding::encode(s).into_owned()
}

/// The search URL for a lowercased engine id and an encoded query.
pub open spec fn search_url_spec(engine_lower: Seq<char>, q: Seq<char>) -> Seq<char> {
    if engine_lower == "duckduckgo"@ {
        "https://duckduckgo.com/?q="@ + q
    } else if engine_lower == "bing"@ {
        "https://www.bing.com/search?q="@ + q
    } else if engine_lower == "brave"@ {
        "https://search.brave.com/search?q="@ + q
    } else if engine_lower == "bingnoredirect"@ {
        "https://www.bing.com/search?q="@ + q + "&FORM=ANNTH1"@
    } else {
        "https://www.google.com/search?q="@ + q
    }
}

/// Build the search URL for `query` under the engine id `engine`: the id is
/// lowercased, the query percent-encoded, and the engine's query URL
/// prefixed; unknown engines fall back to the default engine.
pub fn build_search_url_for(engine: &str, query: &str) -> (r: String)
    ensures
        r@ == search_url_spec(
            crate::text::lower_of(engine@),
            pct_encode(query.spec_bytes()),
        ),
{
    let e = crate::text::lowercase(engine);
    let enc = urlencode(query);
    let mut out: String;
    if eq_str(e.as_str(), "duckduckgo") {
        out = "https://duckduckgo.com/?q=".to_owned();
        out.append(enc.as_str());
    } else if eq_str(e.as_str(), "bing") {
        out = "https://www.bing.com/search?q=".to_owned();
        out.append(enc.as_str());
    } else if eq_str(e.as_str(), "brave") {
        out = "https://search.brave.com/search?q=".to_owned();
        out.append(enc.as_str());
    } else if eq_str(e.as_str(), "bingnoredirect") {
        out = "https://www.bing.com/search?q=".to_owned();
        out.append(enc.as_str());
        out.append("&FORM=ANNTH1");
    } else {
        out = "https://www.google.com/search?q=".to_owned();
        out.append(enc.as_str());
    }
    out
}

/// Build the search URL from the persisted state's selected engine; without
/// a selection the default engine is used.
pub fn build_search_url(state: &BrowserState, query: &str) -> (r: String)
    ensures
        ({
            let q = pct_encode(query.spec_bytes());
            match state.selected_engine {
                Some(e) => r@ == search_url_spec(crate::text::lower_of(e@), q),
                None => r@ == search_url_spec(crate::text::lower_of("chromium"@), q),
            }
        }),
{
    match &state.selected_engine {
        Some(e) => build_search_url_for(e.as_str(), query),
        None => build_search_url_for("chromium", query),
    }
}

} // verus!
