use gpro::nav::{
    entry_matches, name_comes_first, text_contains, AppState, FileType, FolderEntry, StatefulList,
};

fn list(n: usize) -> StatefulList {
    StatefulList::with_items((0..n).map(|i| FolderEntry::Song(format!("song {}", i))).collect())
}

#[test]
fn entries_give_their_names() {
    assert_eq!(FolderEntry::Folder("hymns".to_string()).get(), "hymns");
    assert_eq!(FolderEntry::Song("Yesterday".to_string()).get(), "Yesterday");
    assert_eq!(FolderEntry::Playlist("Sunday".to_string()).get(), "Sunday");
    assert_eq!(FolderEntry::default(), FolderEntry::Song(String::new()));
    let e = FolderEntry::Song("x".to_string());
    assert_eq!(e.clone(), e);
}

#[test]
fn state_starts_as_default() {
    assert_eq!(AppState::default(), AppState::Default);
    assert_ne!(AppState::Searching, AppState::Transposing);
}

#[test]
fn new_list_selects_nothing() {
    let l = StatefulList::new();
    assert_eq!(l.selected(), None);
    assert_eq!(l.items.len(), 0);
    assert_eq!(StatefulList::default(), l);
    let l = list(3);
    assert_eq!(l.selected(), None);
    assert_eq!(l.items.len(), 3);
}

#[test]
fn first_move_selects_the_first_entry() {
    let mut l = list(3);
    l.forward(1);
    assert_eq!(l.selected(), Some(0));
    let mut l = list(3);
    l.back(20);
    assert_eq!(l.selected(), Some(0));
    let mut l = list(0);
    l.forward(1);
    assert_eq!(l.selected(), None);
    l.back(1);
    assert_eq!(l.selected(), None);
}

#[test]
fn forward_goes_around_the_end() {
    let mut l = list(3);
    l.select(Some(0));
    l.forward(1);
    assert_eq!(l.selected(), Some(1));
    l.forward(1);
    assert_eq!(l.selected(), Some(2));
    l.forward(1);
    assert_eq!(l.selected(), Some(0));
    l.forward(2);
    assert_eq!(l.selected(), Some(2));
    l.forward(3);
    assert_eq!(l.selected(), Some(2));
    l.forward(20);
    assert_eq!(l.selected(), Some(19));
    assert_eq!(l.items.len(), 3);
}

#[test]
fn back_goes_around_the_start() {
    let mut l = list(3);
    l.select(Some(2));
    l.back(1);
    assert_eq!(l.selected(), Some(1));
    l.back(1);
    assert_eq!(l.selected(), Some(0));
    l.back(1);
    assert_eq!(l.selected(), Some(2));
    l.back(3);
    assert_eq!(l.selected(), Some(2));
    l.select(Some(1));
    l.back(3);
    assert_eq!(l.selected(), Some(1));
    l.back(0);
    assert_eq!(l.selected(), Some(1));
}

#[test]
fn moves_that_cannot_be_made_are_told() {
    let mut l = list(3);
    l.select(Some(1));
    assert!(l.can_back(4));
    assert!(!l.can_back(5));
    assert!(l.can_forward(usize::MAX));
    l.select(Some(usize::MAX));
    assert!(l.can_forward(3));
    assert!(!l.can_forward(4));
    l.forward(3);
    assert_eq!(l.selected(), Some(usize::MAX));
    let mut l = list(0);
    l.select(Some(2));
    assert!(l.can_forward(5));
    l.forward(5);
    assert_eq!(l.selected(), Some(7));
    assert!(!l.can_back(8));
    assert!(l.can_back(7));
}

#[test]
fn forward_then_back_returns() {
    for n in 1..6 {
        for i in 0..n {
            let mut l = list(n);
            l.select(Some(i));
            l.forward(1);
            assert!(l.selected().unwrap() < n);
            l.back(1);
            assert_eq!(l.selected(), Some(i));
        }
    }
}

#[test]
fn texts_contain_their_parts() {
    assert!(text_contains("amazing grace", "grace"));
    assert!(text_contains("amazing grace", "amazing"));
    assert!(text_contains("amazing grace", "g g"));
    assert!(text_contains("amazing grace", ""));
    assert!(text_contains("", ""));
    assert!(text_contains("aab", "ab"));
    assert!(text_contains("h\u{e9}llo", "\u{e9}l"));
    assert!(!text_contains("amazing grace", "Grace"));
    assert!(!text_contains("amazing grace", "graces"));
    assert!(!text_contains("", "a"));
    assert!(!text_contains("ab", "abc"));
    assert!(!text_contains("abab", "bb"));
}

#[test]
fn containing_agrees_with_std() {
    let texts = ["", "a", "b", "ab", "ba", "aa", "aab", "aba", "abab", "bbaab"];
    for hay in texts {
        for needle in texts {
            assert_eq!(text_contains(hay, needle), hay.contains(needle), "{:?} {:?}", hay, needle);
        }
    }
}

#[test]
fn search_ignores_case() {
    assert!(entry_matches("Amazing Grace", "", "AMAZ"));
    assert!(entry_matches("Amazing Grace", "", "grace"));
    assert!(entry_matches("x", "{t:Amazing Grace}\n[C]How sweet", "how SWEET"));
    assert!(entry_matches("\u{c9}t\u{e9}", "", "\u{e9}T\u{c9}"));
    assert!(entry_matches("anything", "at all", ""));
    assert!(!entry_matches("Amazing Grace", "how sweet", "sound"));
    assert!(!entry_matches("", "", "a"));
}

#[test]
fn files_give_their_names() {
    assert_eq!(FileType::Folder("hymns".to_string()).name(), "hymns");
    assert_eq!(FileType::Song("Yesterday".to_string()).name(), "Yesterday");
    assert_eq!(FileType::Playlist("Sunday".to_string()).name(), "Sunday");
    assert_eq!(FileType::Song(String::new()).name(), "");
    let f = FileType::Playlist("x".to_string());
    assert_eq!(f.clone(), f);
    assert_ne!(FileType::Song("x".to_string()), FileType::Playlist("x".to_string()));
}

#[test]
fn names_are_ordered_like_strings() {
    let names = [
        "", "a", "A", "ab", "aa", "b", "B", "Zebra", "apple", "Apple", "\u{e9}t\u{e9}", "z",
        "a b", "a-b", "10", "9", "\u{4f60}\u{597d}", "\u{1f3b5}", "\u{ffff}", "ab\u{0}",
    ];
    for a in names {
        for b in names {
            let x: Vec<char> = a.chars().collect();
            let y: Vec<char> = b.chars().collect();
            assert_eq!(name_comes_first(&x, &y), a <= b, "{:?} {:?}", a, b);
        }
    }
}

#[test]
fn sorted_list_is_in_ascending_order_of_name() {
    let items = vec![
        FolderEntry::Song("Yesterday".to_string()),
        FolderEntry::Folder("hymns".to_string()),
        FolderEntry::Playlist("Amazing".to_string()),
        FolderEntry::Song("Amazing".to_string()),
        FolderEntry::Song("".to_string()),
        FolderEntry::Song("Amazing Grace".to_string()),
        FolderEntry::Folder("Amazing".to_string()),
        FolderEntry::Song("\u{e9}t\u{e9}".to_string()),
        FolderEntry::Song("Zoo".to_string()),
    ];
    let mut expected = items.clone();
    expected.sort_by_key(|f| f.get());
    let list = StatefulList::with_items_sorted(items);
    assert_eq!(list.items, expected);
    assert_eq!(list.selected(), None);
    let names: Vec<String> = list.items.iter().map(|f| f.get()).collect();
    assert_eq!(
        names,
        vec!["", "Amazing", "Amazing", "Amazing", "Amazing Grace", "Yesterday", "Zoo", "hymns", "\u{e9}t\u{e9}"]
    );
    assert_eq!(list.items[1], FolderEntry::Playlist("Amazing".to_string()));
    assert_eq!(list.items[2], FolderEntry::Song("Amazing".to_string()));
    assert_eq!(list.items[3], FolderEntry::Folder("Amazing".to_string()));
    assert_eq!(StatefulList::with_items_sorted(vec![]).items.len(), 0);
}
