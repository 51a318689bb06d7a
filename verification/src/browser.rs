//! In-process browser core: tabs with bounded navigation history, and
//! bookmark folders.

use vstd::prelude::*;

use crate::strs;

verus! {

/// A single tab: current URL, title, and a bounded navigation history.
pub struct Tab {
    pub id: u32,
    pub url: String,
    pub title: String,
    pub history: std::collections::VecDeque<String>,
    pub history_index: usize,
}

/// Histories longer than this are trimmed from the front on navigation.
pub const MAX_TAB_HISTORY: usize = 100;

impl Tab {
    /// The history cursor always points at an entry.
    pub open spec fn wf(self) -> bool {
        self.history_index < self.history@.len()
    }

    pub open spec fn spec_can_go_back(self) -> bool {
        self.history_index > 0
    }

    pub open spec fn spec_can_go_forward(self) -> bool {
        self.history_index + 1 < self.history@.len()
    }

    pub fn new(id: u32, url: String) -> (t: Tab)
        ensures
            t.id == id,
            t.url@ == url@,
            t.title@ == Seq::<char>::empty(),
            strs(t.history@) =~= seq![url@],
            t.history_index == 0,
            t.wf(),
    {
        let mut history: std::collections::VecDeque<String> = std::collections::VecDeque::new();
        let u = url.clone();
        history.push_back(url);
        proof {
            assert(strs(history@) =~= seq![u@]);
        }
        Tab { id, url: u, title: String::new(), history, history_index: 0 }
    }

    /// Append `url` to the history, discarding any forward entries and, past
    /// the bound, the oldest entry; the cursor moves to the new entry.
    pub fn navigate(&mut self, url: String)
        requires
            old(self).wf(),
        ensures
            ({
                let h0 = strs(old(self).history@);
                let h1 = if old(self).history_index + 1 < h0.len() {
                    h0.take(old(self).history_index + 1)
                } else {
                    h0
                };
                let h2 = if h1.len() >= MAX_TAB_HISTORY {
                    h1.skip(1)
                } else {
                    h1
                };
                strs(final(self).history@) == h2.push(url@) && final(self).history_index == h2.len()
                    && final(self).url@ == url@
            }),
            final(self).id == old(self).id,
            final(self).title == old(self).title,
            final(self).wf(),
    {
        let ghost h0 = strs(self.history@);
        if self.history_index < self.history.len() - 1 {
            self.history.truncate(self.history_index + 1);
            proof {
                assert(strs(self.history@) =~= h0.take(old(self).history_index + 1));
            }
        }
        let ghost h1 = strs(self.history@);
        if self.history.len() >= MAX_TAB_HISTORY {
            self.history.pop_front();
            self.history_index = self.history_index - 1;
            proof {
                assert(strs(self.history@) =~= h1.skip(1));
            }
        }
        let ghost h2 = strs(self.history@);
        let u = url.clone();
        self.history.push_back(url);
        self.history_index = self.history.len() - 1;
        self.url = u;
        proof {
            assert(strs(self.history@) =~= h2.push(self.url@));
        }
    }

    pub fn can_go_back(&self) -> (r: bool)
        ensures
            r == self.spec_can_go_back(),
    {
        self.history_index > 0
    }

    pub fn can_go_forward(&self) -> (r: bool)
        requires
            self.history@.len() >= 1,
        ensures
            r == self.spec_can_go_forward(),
    {
        self.history_index < self.history.len() - 1
    }

    /// Move the cursor one entry back and return the URL there, or `None` at
    /// the start of the history.
    pub fn go_back(&mut self) -> (r: Option<String>)
        requires
            old(self).wf(),
        ensures
            final(self).wf(),
            final(self).history == old(self).history,
            final(self).id == old(self).id,
            final(self).title == old(self).title,
            old(self).spec_can_go_back() ==> {
                &&& final(self).history_index == old(self).history_index - 1
                &&& final(self).url@ == strs(old(self).history@)[old(self).history_index - 1]
                &&& r matches Some(u) && u@ == final(self).url@
            },
            !old(self).spec_can_go_back() ==> r is None && *final(self) == *old(self),
    {
        if self.history_index > 0 {
            self.history_index = self.history_index - 1;
            self.url = self.history[self.history_index].clone();
            Some(self.url.clone())
        } else {
            None
        }
    }

    /// Move the cursor one entry forward and return the URL there, or `None`
    /// at the end of the history.
    pub fn go_forward(&mut self) -> (r: Option<String>)
        requires
            old(self).wf(),
        ensures
            final(self).wf(),
            final(self).history == old(self).history,
            final(self).id == old(self).id,
            final(self).title == old(self).title,
            old(self).spec_can_go_forward() ==> {
                &&& final(self).history_index == old(self).history_index + 1
                &&& final(self).url@ == strs(old(self).history@)[old(self).history_index + 1]
                &&& r matches Some(u) && u@ == final(self).url@
            },
            !old(self).spec_can_go_forward() ==> r is None && *final(self) == *old(self),
    {
        if self.history_index < self.history.len() - 1 {
            self.history_index = self.history_index + 1;
            self.url = self.history[self.history_index].clone();
            Some(self.url.clone())
        } else {
            None
        }
    }
}

/// Tab collection with one active tab and a monotone id allocator.
pub struct Browser {
    pub tabs: Vec<Tab>,
    pub active_tab_id: u32,
    pub next_tab_id: u32,
}

/// The first position at or after `i` of the tab carrying `id`.
pub open spec fn tab_pos_from(tabs: Seq<Tab>, id: u32, i: int) -> Option<int>
    decreases tabs.len() - i,
{
    if i < 0 || i >= tabs.len() {
        None
    } else if tabs[i].id == id {
        Some(i)
    } else {
        tab_pos_from(tabs, id, i + 1)
    }
}

/// The first position of the tab carrying `id`.
pub open spec fn tab_pos(tabs: Seq<Tab>, id: u32) -> Option<int> {
    tab_pos_from(tabs, id, 0)
}

impl Browser {
    pub fn new() -> (b: Browser)
        ensures
            b.tabs@.len() == 1,
            b.tabs@[0].id == 0,
            b.tabs@[0].url@ == "about:blank"@,
            b.tabs@[0].wf(),
            b.active_tab_id == 0,
            b.next_tab_id == 1,
    {
        let initial_tab = Tab::new(0, "about:blank".to_owned());
        let mut tabs: Vec<Tab> = Vec::new();
        tabs.push(initial_tab);
        Browser { tabs, active_tab_id: 0, next_tab_id: 1 }
    }

    /// Open a new tab on `url`, make it active, and return its id.
    pub fn add_tab(&mut self, url: String) -> (r: u32)
        requires
            old(self).next_tab_id < u32::MAX,
        ensures
            r == old(self).next_tab_id,
            final(self).next_tab_id == old(self).next_tab_id + 1,
            final(self).active_tab_id == r,
            final(self).tabs@.len() == old(self).tabs@.len() + 1,
            final(self).tabs@.take(old(self).tabs@.len() as int) == old(self).tabs@,
            ({
                let t = final(self).tabs@.last();
                t.id == r && t.url@ == url@ && t.history_index == 0 && t.wf()
            }),
    {
        let id = self.next_tab_id;
        self.next_tab_id = self.next_tab_id + 1;
        let tab = Tab::new(id, url);
        self.tabs.push(tab);
        self.active_tab_id = id;
        proof {
            assert(final(self).tabs@.take(old(self).tabs@.len() as int) =~= old(self).tabs@);
        }
        id
    }

    /// Close the tab carrying `id`; the last remaining tab is never closed.
    /// When the active tab is closed the first remaining tab becomes active.
    pub fn close_tab(&mut self, id: u32) -> (r: bool)
        ensures
            old(self).tabs@.len() <= 1 ==> !r && *final(self) == *old(self),
            old(self).tabs@.len() > 1 ==> match tab_pos(old(self).tabs@, id) {
                Some(pos) => {
                    &&& r
                    &&& final(self).tabs@ == old(self).tabs@.remove(pos)
                    &&& final(self).next_tab_id == old(self).next_tab_id
                    &&& final(self).active_tab_id == (if old(self).active_tab_id == id {
                        final(self).tabs@[0].id
                    } else {
                        old(self).active_tab_id
                    })
                },
                None => !r && *final(self) == *old(self),
            },
    {
        if self.tabs.len() <= 1 {
            return false;
        }
        if let Some(pos) = self.find_tab_index(id) {
            self.tabs.remove(pos);
            if self.active_tab_id == id {
                self.active_tab_id = self.tabs[0].id;
            }
            true
        } else {
            false
        }
    }

    /// The first position of the tab carrying `id`, if present.
    pub fn find_tab_index(&self, id: u32) -> (r: Option<usize>)
        ensures
            ({
                let s = tab_pos(self.tabs@, id);
                match r {
                    Some(i) => s == Some(i as int) && i < self.tabs@.len(),
                    None => s is None,
                }
            }),
    {
        let n = self.tabs.len();
        let mut i: usize = 0;
        while i < n
            invariant
                n == self.tabs@.len(),
                i <= n,
                tab_pos(self.tabs@, id) == tab_pos_from(self.tabs@, id, i as int),
            decreases n - i,
        {
            if self.tabs[i].id == id {
                return Some(i);
            }
            proof {
                assert(tab_pos_from(self.tabs@, id, i as int) == tab_pos_from(
                    self.tabs@,
                    id,
                    i + 1,
                ));
            }
            i += 1;
        }
        None
    }

    /// The active tab, when a tab carries the active id.
    pub fn get_active_tab(&self) -> (r: Option<&Tab>)
        ensures
            match r {
                Some(t) => ({
                    let s = tab_pos(self.tabs@, self.active_tab_id);
                    s is Some && *t == self.tabs@[s->Some_0]
                }),
                None => tab_pos(self.tabs@, self.active_tab_id) is None,
            },
    {
        match self.find_tab_index(self.active_tab_id) {
            Some(i) => Some(&self.tabs[i]),
            None => None,
        }
    }

    /// The active tab, mutably: callers may edit it in place; any tab the
    /// active id does not name leaves the browser unchanged.
    pub fn get_active_tab_mut(&mut self) -> (r: Option<&mut Tab>)
        ensures
            match r {
                Some(t) => ({
                    let s = tab_pos(old(self).tabs@, old(self).active_tab_id);
                    &&& s is Some
                    &&& *t == old(self).tabs@[s->Some_0]
                    &&& final(self).tabs@ == old(self).tabs@.update(s->Some_0, *final(t))
                    &&& final(self).active_tab_id == old(self).active_tab_id
                    &&& final(self).next_tab_id == old(self).next_tab_id
                }),
                None => {
                    &&& tab_pos(old(self).tabs@, old(self).active_tab_id) is None
                    &&& *final(self) == *old(self)
                },
            },
    {
        match self.find_tab_index(self.active_tab_id) {
            Some(i) => Some(&mut self.tabs[i]),
            None => None,
        }
    }

    /// Make the tab carrying `id` active; reports whether it exists.
    pub fn set_active_tab(&mut self, id: u32) -> (r: bool)
        ensures
            r == (tab_pos(old(self).tabs@, id) is Some),
            final(self).tabs == old(self).tabs,
            final(self).next_tab_id == old(self).next_tab_id,
            final(self).active_tab_id == (if r {
                id
            } else {
                old(self).active_tab_id
            }),
    {
        if self.find_tab_index(id).is_some() {
            self.active_tab_id = id;
            true
        } else {
            false
        }
    }

    pub fn tab_count(&self) -> (r: usize)
        ensures
            r == self.tabs@.len(),
    {
        self.tabs.len()
    }
}

/// A named link stored in a folder.
pub struct Bookmark {
    pub name: String,
    pub url: String,
}

/// A folder of bookmarks, expandable in the UI.
pub struct BookmarkFolder {
    pub id: String,
    pub name: String,
    pub expanded: bool,
    pub bookmarks: Vec<Bookmark>,
}

/// Bookmark folders keyed by their id.
pub struct BookmarkManager {
    pub folders: Vec<BookmarkFolder>,
}

/// The first position at or after `i` of the folder whose id reads `id`.
pub open spec fn folder_pos_from(folders: Seq<BookmarkFolder>, id: Seq<char>, i: int) -> Option<
    int,
>
    decreases folders.len() - i,
{
    if i < 0 || i >= folders.len() {
        None
    } else if folders[i].id@ == id {
        Some(i)
    } else {
        folder_pos_from(folders, id, i + 1)
    }
}

/// The first position of the folder whose id reads `id`.
pub open spec fn folder_pos(folders: Seq<BookmarkFolder>, id: Seq<char>) -> Option<int> {
    folder_pos_from(folders, id, 0)
}

/// The first position at or after `i` of the bookmark whose URL reads `url`.
pub open spec fn bookmark_pos_from(bs: Seq<Bookmark>, url: Seq<char>, i: int) -> Option<int>
    decreases bs.len() - i,
{
    if i < 0 || i >= bs.len() {
        None
    } else if bs[i].url@ == url {
        Some(i)
    } else {
        bookmark_pos_from(bs, url, i + 1)
    }
}

/// The first position of the bookmark whose URL reads `url`.
pub open spec fn bookmark_pos(bs: Seq<Bookmark>, url: Seq<char>) -> Option<int> {
    bookmark_pos_from(bs, url, 0)
}

/// The first position in `f` of the bookmark whose URL reads `url`, if any.
pub fn find_bookmark_index(f: &BookmarkFolder, url: &str) -> (r: Option<usize>)
    ensures
        ({
            let s = bookmark_pos(f.bookmarks@, url@);
            match r {
                Some(i) => s == Some(i as int) && i < f.bookmarks@.len(),
                None => s is None,
            }
        }),
{
    let n = f.bookmarks.len();
    let mut i: usize = 0;
    while i < n
        invariant
            n == f.bookmarks@.len(),
            i <= n,
            bookmark_pos(f.bookmarks@, url@) == bookmark_pos_from(f.bookmarks@, url@, i as int),
        decreases n - i,
    {
        if crate::text::eq_str(f.bookmarks[i].url.as_str(), url) {
            return Some(i);
        }
        proof {
            assert(bookmark_pos_from(f.bookmarks@, url@, i as int) == bookmark_pos_from(
                f.bookmarks@,
                url@,
                i + 1,
            ));
        }
        i += 1;
    }
    None
}

impl BookmarkManager {
    /// Two starter folders: an expanded "Favorites" and a collapsed "Work".
    pub fn new() -> (m: BookmarkManager)
        ensures
            m.folders@.len() == 2,
            m.folders@[0].id@ == "favorites"@,
            m.folders@[0].expanded,
            m.folders@[0].bookmarks@.len() == 2,
            m.folders@[1].id@ == "work"@,
            !m.folders@[1].expanded,
            m.folders@[1].bookmarks@.len() == 1,
    {
        proof {
            reveal_strlit("favorites");
            reveal_strlit("work");
        }
        let mut manager = BookmarkManager { folders: Vec::new() };
        let mut favorites: Vec<Bookmark> = Vec::new();
        favorites.push(
            Bookmark {
                name: "GitHub".to_owned(),
                url: "https://github.com".to_owned(),
            },
        );
        favorites.push(
            Bookmark {
                name: "Zed Editor".to_owned(),
                url: "https://zed.dev".to_owned(),
            },
        );
        let fav_id = "favorites".to_owned();
        manager.add_folder(
            BookmarkFolder {
                id: fav_id,
                name: "Favorites".to_owned(),
                expanded: true,
                bookmarks: favorites,
            },
        );
        assert(manager.folders@.len() == 1);
        assert(manager.folders@[0].id@ == "favorites"@);
        assert("favorites"@ != "work"@);
        assert(folder_pos_from(manager.folders@, "work"@, 1) is None);
        assert(folder_pos(manager.folders@, "work"@) is None);
        let mut work: Vec<Bookmark> = Vec::new();
        work.push(
            Bookmark {
                name: "Stack Overflow".to_owned(),
                url: "https://stackoverflow.com".to_owned(),
            },
        );
        manager.add_folder(
            BookmarkFolder {
                id: "work".to_owned(),
                name: "Work".to_owned(),
                expanded: false,
                bookmarks: work,
            },
        );
        manager
    }

    /// Insert `folder`, replacing any folder already carrying its id.
    pub fn add_folder(&mut self, folder: BookmarkFolder)
        ensures
            match folder_pos(old(self).folders@, folder.id@) {
                Some(pos) => final(self).folders@ == old(self).folders@.update(pos, folder),
                None => final(self).folders@ == old(self).folders@.push(folder),
            },
    {
        match self.find_folder_index(folder.id.as_str()) {
            Some(pos) => {
                self.folders.remove(pos);
                self.folders.insert(pos, folder);
                proof {
                    assert(final(self).folders@ =~= old(self).folders@.update(
                        folder_pos(old(self).folders@, folder.id@)->Some_0,
                        folder,
                    ));
                }
            },
            None => {
                self.folders.push(folder);
            },
        }
    }

    /// The first position of the folder whose id reads `id`, if any.
    pub fn find_folder_index(&self, id: &str) -> (r: Option<usize>)
        ensures
            ({
                let s = folder_pos(self.folders@, id@);
                match r {
                    Some(i) => s == Some(i as int) && i < self.folders@.len(),
                    None => s is None,
                }
            }),
    {
        let n = self.folders.len();
        let mut i: usize = 0;
        while i < n
            invariant
                n == self.folders@.len(),
                i <= n,
                folder_pos(self.folders@, id@) == folder_pos_from(self.folders@, id@, i as int),
            decreases n - i,
        {
            if crate::text::eq_str(self.folders[i].id.as_str(), id) {
                return Some(i);
            }
            proof {
                assert(folder_pos_from(self.folders@, id@, i as int) == folder_pos_from(
                    self.folders@,
                    id@,
                    i + 1,
                ));
            }
            i += 1;
        }
        None
    }

    pub fn get_folder(&self, id: &str) -> (r: Option<&BookmarkFolder>)
        ensures
            match r {
                Some(f) => ({
                    let s = folder_pos(self.folders@, id@);
                    s is Some && *f == self.folders@[s->Some_0]
                }),
                None => folder_pos(self.folders@, id@) is None,
            },
    {
        match self.find_folder_index(id) {
            Some(i) => Some(&self.folders[i]),
            None => None,
        }
    }

    pub fn get_all_folders(&self) -> (r: &Vec<BookmarkFolder>)
        ensures
            r == &self.folders,
    {
        &self.folders
    }

    /// Append `bookmark` to the folder carrying `folder_id`; reports whether
    /// the folder exists.
    pub fn add_bookmark(&mut self, folder_id: &str, bookmark: Bookmark) -> (r: bool)
        ensures
            match folder_pos(old(self).folders@, folder_id@) {
                Some(pos) => r && final(self).folders@.len() == old(self).folders@.len() && (
                forall|j: int|
                    0 <= j < old(self).folders@.len() && j != pos ==> final(self).folders@[j] == old(self).folders@[j]) && ({
                    let f0 = old(self).folders@[pos];
                    let f1 = final(self).folders@[pos];
                    f1.id == f0.id && f1.name == f0.name && f1.expanded == f0.expanded
                        && f1.bookmarks@ == f0.bookmarks@.push(bookmark)
                }),
                None => !r && *final(self) == *old(self),
            },
    {
        match self.find_folder_index(folder_id) {
            Some(pos) => {
                let mut f = self.folders.remove(pos);
                f.bookmarks.push(bookmark);
                self.folders.insert(pos, f);
                true
            },
            None => false,
        }
    }

    /// Remove the first bookmark whose URL reads `bookmark_url` from the
    /// folder carrying `folder_id`; reports whether one was removed.
    pub fn remove_bookmark(&mut self, folder_id: &str, bookmark_url: &str) -> (r: bool)
        ensures
            match folder_pos(old(self).folders@, folder_id@) {
                Some(pos) => ({
                    let f0 = old(self).folders@[pos];
                    match bookmark_pos(f0.bookmarks@, bookmark_url@) {
                        Some(bpos) => r && final(self).folders@.len() == old(self).folders@.len() && (forall|j: int|
                            0 <= j < old(self).folders@.len() && j != pos ==> final(self).folders@[j] == old(self).folders@[j]) && ({
                            let f1 = final(self).folders@[pos];
                            f1.id == f0.id && f1.name == f0.name && f1.expanded == f0.expanded
                                && f1.bookmarks@ == f0.bookmarks@.remove(bpos)
                        }),
                        None => !r && *final(self) == *old(self),
                    }
                }),
                None => !r && *final(self) == *old(self),
            },
    {
        match self.find_folder_index(folder_id) {
            Some(pos) => {
                let found = find_bookmark_index(&self.folders[pos], bookmark_url);
                match found {
                    Some(bpos) => {
                        let mut f = self.folders.remove(pos);
                        f.bookmarks.remove(bpos);
                        self.folders.insert(pos, f);
                        true
                    },
                    None => false,
                }
            },
            None => false,
        }
    }

    /// Flip the expanded flag of the folder carrying `folder_id`; reports
    /// whether the folder exists.
    pub fn toggle_folder(&mut self, folder_id: &str) -> (r: bool)
        ensures
            match folder_pos(old(self).folders@, folder_id@) {
                Some(pos) => r && final(self).folders@.len() == old(self).folders@.len() && (
                forall|j: int|
                    0 <= j < old(self).folders@.len() && j != pos ==> final(self).folders@[j] == old(self).folders@[j]) && ({
                    let f0 = old(self).folders@[pos];
                    let f1 = final(self).folders@[pos];
                    f1.id == f0.id && f1.name == f0.name && f1.expanded == !f0.expanded
                        && f1.bookmarks == f0.bookmarks
                }),
                None => !r && *final(self) == *old(self),
            },
    {
        match self.find_folder_index(folder_id) {
            Some(pos) => {
                let mut f = self.folders.remove(pos);
                f.expanded = !f.expanded;
                self.folders.insert(pos, f);
                true
            },
            None => false,
        }
    }
}

} // verus!
