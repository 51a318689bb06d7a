use zed_browser::sidebar::SidebarItem;
use zed_browser::sidebar::SidebarItemType;
use zed_browser::sidebar::SidebarManager;

#[test]
fn test_sidebar_creation() {
    let sidebar = SidebarManager::new();
    assert!(!sidebar.items.is_empty());
}

#[test]
fn test_find_item() {
    let sidebar = SidebarManager::new();
    let home = sidebar.find_item("home");
    assert!(home.is_some());
}

#[test]
fn find_item_in_children() {
    let sidebar = SidebarManager::new();
    let github = sidebar.find_item("github");
    assert!(github.is_some());
    assert_eq!(github.unwrap().name, "GitHub");
    let projects = sidebar.find_item("projects");
    assert!(projects.is_some());
    assert!(sidebar.find_item("nowhere").is_none());
}

#[test]
fn add_and_remove_items() {
    let mut sidebar = SidebarManager::new();
    sidebar.add_item(SidebarItem {
        id: "notes".to_owned(),
        name: "Notes".to_owned(),
        item_type: SidebarItemType::Bookmark,
        url: Some("https://example.org/notes".to_owned()),
        children: Vec::new(),
    });
    assert_eq!(sidebar.items.len(), 4);
    assert!(sidebar.find_item("notes").is_some());
    sidebar.remove_item("notes");
    assert_eq!(sidebar.items.len(), 3);
    assert!(sidebar.find_item("notes").is_none());
    // removing a nested id leaves the top level alone
    sidebar.remove_item("github");
    assert_eq!(sidebar.items.len(), 3);
    assert!(sidebar.find_item("github").is_some());
}
