//! Sidebar navigation: a tree of links, folders and separators.

use vstd::prelude::*;

verus! {

/// One sidebar entry; folders carry their children recursively.
pub struct SidebarItem {
    pub id: String,
    pub name: String,
    pub item_type: SidebarItemType,
    pub url: Option<String>,
    pub children: Vec<SidebarItem>,
}

pub enum SidebarItemType {
    Folder,
    Link,
    Bookmark,
    Separator,
}

/// The sidebar: a list of top-level items.
pub struct SidebarManager {
    pub items: Vec<SidebarItem>,
}

/// The top-level items with id `id` removed (children are not touched).
pub open spec fn remove_items_spec(items: Seq<SidebarItem>, id: Seq<char>) -> Seq<SidebarItem>
    decreases items.len(),
{
    if items.len() == 0 {
        Seq::empty()
    } else {
        (if items[0].id@ == id {
            Seq::empty()
        } else {
            seq![items[0]]
        }) + remove_items_spec(items.drop_first(), id)
    }
}

/// Depth-first search for the first item with id `id`: each item is visited
/// before its children, children before later siblings.
pub open spec fn find_in_items(items: Seq<SidebarItem>, id: Seq<char>) -> Option<SidebarItem>
    decreases items,
{
    if items.len() == 0 {
        None
    } else if items[0].id@ == id {
        Some(items[0])
    } else {
        match find_in_items(items[0].children@, id) {
            Some(x) => Some(x),
            None => find_in_items(items.drop_first(), id),
        }
    }
}

/// Depth-first search through `items` for the item with id `id`.
pub fn find_recursive<'a>(items: &'a Vec<SidebarItem>, id: &str) -> (r: Option<&'a SidebarItem>)
    ensures
        match r {
            Some(it) => find_in_items(items@, id@) == Some(*it),
            None => find_in_items(items@, id@) is None,
        },
    decreases items@,
{
    let n = items.len();
    let mut i: usize = 0;
    proof {
        assert(items@.skip(0) =~= items@);
    }
    while i < n
        invariant
            n == items@.len(),
            i <= n,
            find_in_items(items@, id@) == find_in_items(items@.skip(i as int), id@),
        decreases n - i,
    {
        proof {
            assert(items@.skip(i as int)[0] == items@[i as int]);
            assert(items@.skip(i as int).drop_first() =~= items@.skip(i + 1));
        }
        if crate::text::eq_str(items[i].id.as_str(), id) {
            return Some(&items[i]);
        }
        let sub = find_recursive(&items[i].children, id);
        if sub.is_some() {
            return sub;
        }
        i += 1;
    }
    None
}

impl SidebarManager {
    /// The starter sidebar: a home link and two folders of links.
    pub fn new() -> (m: SidebarManager)
        ensures
            m.items@.len() == 3,
            m.items@[0].id@ == "home"@,
            m.items@[1].id@ == "bookmarks"@,
            m.items@[1].children@.len() == 2,
            m.items@[2].id@ == "work"@,
            m.items@[2].children@.len() == 1,
    {
        SidebarManager { items: Self::default_items() }
    }

    /// The built-in entries: Home, a Bookmarks folder with two links, and a
    /// Work folder with one.
    pub fn default_items() -> (r: Vec<SidebarItem>)
        ensures
            r@.len() == 3,
            r@[0].id@ == "home"@,
            r@[0].url matches Some(u) && u@ == "https://www.example.com"@,
            r@[1].id@ == "bookmarks"@,
            r@[1].children@.len() == 2,
            r@[1].children@[0].id@ == "github"@,
            r@[1].children@[1].id@ == "rust"@,
            r@[2].id@ == "work"@,
            r@[2].children@.len() == 1,
            r@[2].children@[0].id@ == "projects"@,
    {
        let mut out: Vec<SidebarItem> = Vec::new();
        out.push(
            SidebarItem {
                id: "home".to_owned(),
                name: " Home".to_owned(),
                item_type: SidebarItemType::Link,
                url: Some("https://www.example.com".to_owned()),
                children: Vec::new(),
            },
        );
        let mut bookmark_children: Vec<SidebarItem> = Vec::new();
        bookmark_children.push(
            SidebarItem {
                id: "github".to_owned(),
                name: "GitHub".to_owned(),
                item_type: SidebarItemType::Link,
                url: Some("https://github.com".to_owned()),
                children: Vec::new(),
            },
        );
        bookmark_children.push(
            SidebarItem {
                id: "rust".to_owned(),
                name: "Rust Docs".to_owned(),
                item_type: SidebarItemType::Link,
                url: Some("https://doc.rust-lang.org".to_owned()),
                children: Vec::new(),
            },
        );
        out.push(
            SidebarItem {
                id: "bookmarks".to_owned(),
                name: " Bookmarks".to_owned(),
                item_type: SidebarItemType::Folder,
                url: None,
                children: bookmark_children,
            },
        );
        let mut work_children: Vec<SidebarItem> = Vec::new();
        work_children.push(
            SidebarItem {
                id: "projects".to_owned(),
                name: "Projects".to_owned(),
                item_type: SidebarItemType::Link,
                url: Some("https://github.com/tasks".to_owned()),
                children: Vec::new(),
            },
        );
        out.push(
            SidebarItem {
                id: "work".to_owned(),
                name: " Work".to_owned(),
                item_type: SidebarItemType::Folder,
                url: None,
                children: work_children,
            },
        );
        out
    }

    /// Append `item` at the end of the top level.
    pub fn add_item(&mut self, item: SidebarItem)
        ensures
            final(self).items@ == old(self).items@.push(item),
    {
        self.items.push(item);
    }

    /// Remove every top-level item whose id reads `id`.
    pub fn remove_item(&mut self, id: &str)
        ensures
            final(self).items@ == remove_items_spec(old(self).items@, id@),
    {
        let mut i: usize = 0;
        proof {
            assert(self.items@.take(0) =~= Seq::<SidebarItem>::empty());
            assert(self.items@.skip(0) =~= self.items@);
            assert(Seq::<SidebarItem>::empty() + remove_items_spec(self.items@, id@)
                =~= remove_items_spec(self.items@, id@));
        }
        while i < self.items.len()
            invariant
                i <= self.items@.len(),
                forall|j: int| 0 <= j < i ==> self.items@[j].id@ != id@,
                remove_items_spec(old(self).items@, id@) == self.items@.take(i as int)
                    + remove_items_spec(self.items@.skip(i as int), id@),
            decreases self.items@.len() - i,
        {
            proof {
                assert(self.items@.skip(i as int)[0] == self.items@[i as int]);
                assert(self.items@.skip(i as int).drop_first() =~= self.items@.skip(i + 1));
            }
            if crate::text::eq_str(self.items[i].id.as_str(), id) {
                let ghost before = self.items@;
                self.items.remove(i);
                proof {
                    assert(self.items@.take(i as int) =~= before.take(i as int));
                    assert(self.items@.skip(i as int) =~= before.skip(i + 1));
                    assert(remove_items_spec(before.skip(i as int), id@) == remove_items_spec(
                        before.skip(i + 1),
                        id@,
                    ));
                }
            } else {
                proof {
                    assert(self.items@.take(i + 1) =~= self.items@.take(i as int).push(
                        self.items@[i as int],
                    ));
                    assert(self.items@.take(i as int) + remove_items_spec(
                        self.items@.skip(i as int),
                        id@,
                    ) =~= self.items@.take(i + 1) + remove_items_spec(self.items@.skip(i + 1), id@));
                }
                i += 1;
            }
        }
        proof {
            assert(self.items@.skip(i as int) =~= Seq::<SidebarItem>::empty());
            assert(remove_items_spec(self.items@.skip(i as int), id@) =~= Seq::<
                SidebarItem,
            >::empty());
            assert(self.items@.take(i as int) =~= self.items@);
            assert(self.items@ + Seq::<SidebarItem>::empty() =~= self.items@);
        }
    }

    /// The first item with id `id`, in depth-first order.
    pub fn find_item(&self, id: &str) -> (r: Option<&SidebarItem>)
        ensures
            match r {
                Some(it) => find_in_items(self.items@, id@) == Some(*it),
                None => find_in_items(self.items@, id@) is None,
            },
    {
        find_recursive(&self.items, id)
    }
}

} // verus!
