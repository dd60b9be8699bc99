use directory_scanner::listing::{weight_of, ListedEntry};
use directory_scanner::{DirectoryScanner, EntryKind};

fn file(name: &str) -> ListedEntry {
    ListedEntry::new(name.to_string(), EntryKind::File, false, Vec::new())
}

fn dir(name: &str, entries: Vec<ListedEntry>) -> ListedEntry {
    ListedEntry::new(name.to_string(), EntryKind::Directory, false, entries)
}

/// Nine files in nested directories, and what a scan passes over.
fn nine_files() -> Vec<ListedEntry> {
    vec![
        dir("a", vec![file("1"), dir("b", vec![file("2"), dir("c", vec![file("3")])])]),
        dir("d", vec![file("4"), dir("e", vec![file("5")]), dir("f", vec![file("6")])]),
        dir("g", vec![file("7"), dir("h", vec![file("8"), dir("i", vec![file("9")])])]),
        file(".hidden"),
        dir(".git", vec![file("config")]),
        ListedEntry::new("target".to_string(), EntryKind::Directory, true, vec![file("out")]),
        ListedEntry::new("notes".to_string(), EntryKind::File, true, Vec::new()),
        ListedEntry::new("link".to_string(), EntryKind::Symlink, false, vec![file("x")]),
    ]
}

fn scanned(limit: usize) -> (DirectoryScanner, Vec<String>) {
    let mut scanner = DirectoryScanner::new("./r".to_string(), "/work".to_string());
    scanner.set_concurrency_limit(limit);
    let root = scanner.scan_at(scanner.relative_base(), &nine_files(), None, 7);
    let mut paths = scanner.snapshot(root.node()).flatten();
    paths.sort();
    (scanner, paths)
}

#[test]
fn a_whole_scan_finds_the_files_that_are_listed() {
    let (scanner, paths) = scanned(0);
    assert_eq!(
        paths,
        vec!["r/a/1", "r/a/b/2", "r/a/b/c/3", "r/d/4", "r/d/e/5", "r/d/f/6", "r/g/7", "r/g/h/8",
            "r/g/h/i/9"]
    );
    assert_eq!(scanner.running_scanners(), 0);
    assert_eq!(scanner.current_concurrency(), 0);
    assert_eq!(scanner.max_concurrency_reached(), 0);
    assert_eq!(scanner.last_event(), 7);
    assert!(scanner.is_complete_at(9));
}

#[test]
fn a_whole_scan_finds_the_same_files_under_every_limit() {
    let (_, expected) = scanned(0);
    for limit in [1, 2, 3, 9, 100] {
        let (scanner, paths) = scanned(limit);
        assert_eq!(paths, expected);
        assert_eq!(paths.len(), 9);
        assert!(scanner.max_concurrency_reached() <= limit);
        assert!(scanner.max_concurrency_reached() >= 1);
        assert_eq!(scanner.current_concurrency(), 0);
        assert_eq!(scanner.running_scanners(), 0);
    }
}

#[test]
fn a_whole_scan_sends_a_handle_for_every_directory() {
    let (mut scanner, _) = scanned(2);
    let mut received = 0;
    while let Ok(handle) = scanner.event_broker().recv() {
        assert!(scanner.knows(handle));
        received += 1;
    }
    assert_eq!(received, 10);
}

#[test]
fn a_whole_scan_of_an_empty_listing_makes_one_empty_node() {
    let mut scanner = DirectoryScanner::new("r".to_string(), "/work".to_string());
    let root = scanner.scan_at("r".to_string(), &Vec::new(), None, 1);
    assert_eq!(scanner.snapshot(root.node()).len(), 0);
    assert_eq!(scanner.snapshot(root.node()).path(), "r");
}

#[test]
fn a_whole_scan_by_the_clock() {
    let mut scanner = DirectoryScanner::new("r".to_string(), "/work".to_string());
    let root = scanner.scan("r".to_string(), &nine_files(), None);
    assert_eq!(scanner.snapshot(root.node()).len(), 9);
    assert!(scanner.last_event() > 1_500_000_000);
    assert!(!scanner.is_complete());
}

#[test]
fn tasks_of_a_whole_scan_attach_to_the_node_handed_down() {
    let mut scanner = DirectoryScanner::new("r".to_string(), "/work".to_string());
    scanner.set_concurrency_limit(5);
    let listing = vec![dir("a", vec![file("1"), dir("b", vec![file("2")])]), file("top")];
    let root = scanner.scan_at("r".to_string(), &listing, None, 1);
    let below = scanner.sub_directories(root.node());
    assert_eq!(below.len(), 2);
    assert_eq!(scanner.snapshot(below[0]).path(), "r/a");
    assert_eq!(scanner.snapshot(below[1]).path(), "r/a/b");
    assert_eq!(scanner.max_concurrency_reached(), 2);
    let mut paths = scanner.snapshot(root.node()).flatten();
    paths.sort();
    assert_eq!(paths, vec!["r/a/1", "r/a/b/2", "r/top"]);
}

#[test]
fn a_directory_listed_twice_is_attached_once() {
    let mut scanner = DirectoryScanner::new("r".to_string(), "/work".to_string());
    scanner.set_concurrency_limit(0);
    let listing = vec![dir("a", vec![file("1")]), dir("a", vec![file("2")])];
    let root = scanner.scan_at("r".to_string(), &listing, None, 1);
    assert_eq!(scanner.snapshot(root.node()).flatten(), vec!["r/a/1"]);
    assert_eq!(scanner.sub_directories(root.node()).len(), 1);
}

#[test]
fn weight_counts_the_entries_at_every_depth() {
    assert_eq!(weight_of(&Vec::new()), Some(0));
    assert_eq!(weight_of(&vec![file("a"), dir("b", vec![file("c"), file("d")])]), Some(4));
    assert_eq!(weight_of(&nine_files()), Some(26));
    let scanner = DirectoryScanner::new("r".to_string(), "/work".to_string());
    assert!(scanner.can_scan(&nine_files()));
}
