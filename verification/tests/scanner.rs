use directory_scanner::scanner::{breakdown_dir_parts, hidden};
use directory_scanner::{
    Directory, DirectoryHandle, DirectoryScan, DirectoryScanner, EntryAction, EntryKind,
    RecvError,
};

/// A directory of a file system that exists in the test only.
struct Tree {
    name: &'static str,
    files: Vec<&'static str>,
    ignored: Vec<&'static str>,
    dirs: Vec<Tree>,
}

fn tree(name: &'static str, files: &[&'static str], dirs: Vec<Tree>) -> Tree {
    Tree { name, files: files.to_vec(), ignored: Vec::new(), dirs }
}

/// What a run of the scans of one tree leaves behind.
struct Run {
    scanner: DirectoryScanner,
    clock: i64,
    waiting: Vec<(String, Vec<usize>, DirectoryHandle)>,
    root: Option<DirectoryScan>,
}

fn at<'a>(root: &'a Tree, place: &[usize]) -> &'a Tree {
    let mut here = root;
    for index in place {
        here = &here.dirs[*index];
    }
    here
}

/// Scans the directory at `place`, inline directories at once; those for
/// tasks are put aside.
fn scan(
    run: &mut Run,
    root: &Tree,
    place: &[usize],
    path: String,
    handed_down: Option<DirectoryHandle>,
) -> DirectoryScan {
    let here = at(root, place);
    run.clock += 1;
    let scan_here = run.scanner.start_scan_at(path, handed_down, run.clock);
    let mut entries: Vec<(&str, EntryKind, Option<usize>)> = Vec::new();
    for file in &here.files {
        entries.push((*file, EntryKind::File, None));
    }
    for (index, dir) in here.dirs.iter().enumerate() {
        entries.push((dir.name, EntryKind::Directory, Some(index)));
    }
    entries.sort_by(|one, other| one.0.cmp(other.0));
    for (name, kind, index) in entries {
        let name = name.to_string();
        let excluded = if DirectoryScanner::asks_ignore_rules(&name, kind) {
            DirectoryScanner::is_ignored_by_git(
                !here.ignored.is_empty(),
                Some(here.ignored.contains(&name.as_str())),
            )
        } else {
            false
        };
        let child = run.scanner.child_path(scan_here, &name);
        match run.scanner.visit(scan_here, name, kind, excluded) {
            EntryAction::Skipped | EntryAction::FileAdded => {}
            EntryAction::ScanInline => {
                let mut below = place.to_vec();
                below.push(index.unwrap());
                let sub = scan(run, root, &below, child, None);
                assert!(run.scanner.can_attach(scan_here, sub));
                run.scanner.attach(scan_here, sub);
            }
            EntryAction::ScanConcurrently => {
                let mut below = place.to_vec();
                below.push(index.unwrap());
                run.waiting.push((child, below, scan_here.hands_down()));
            }
        }
    }
    run.clock += 1;
    run.scanner.finish_scan_at(scan_here, run.clock);
    scan_here
}

/// Scans the whole tree with at most `limit` tasks at a time. A task runs
/// when the scan that started it has ended.
fn run_scan(root: &Tree, limit: usize) -> Run {
    let mut scanner = DirectoryScanner::new(root.name.to_string(), "/work".to_string());
    scanner.set_concurrency_limit(limit);
    let mut run = Run { scanner, clock: 100, waiting: Vec::new(), root: None };
    let start = run.scanner.relative_base();
    let scan_of_root = scan(&mut run, root, &[], start, None);
    run.root = Some(scan_of_root);
    while !run.waiting.is_empty() {
        let (path, place, handed_down) = run.waiting.remove(0);
        scan(&mut run, root, &place, path, Some(handed_down));
        run.scanner.finish_task();
    }
    run
}

fn found(run: &Run) -> Directory {
    run.scanner.snapshot(run.root.unwrap().node())
}

fn all_paths(run: &Run) -> Vec<String> {
    let mut paths = found(run).flatten();
    paths.sort();
    paths
}

fn eleven_files() -> Tree {
    tree(
        "./tests/fixtures/dir-with-11-files/",
        &[
            "file-01", "file-02", "file-03", "file-04", "file-05", "file-06", "file-07",
            "file-08", "file-09", "file-10", "file-11",
        ],
        Vec::new(),
    )
}

fn nine_files_in_sub_dirs() -> Tree {
    tree(
        "tests/fixtures/dir-with-9-files-in-sub-dirs",
        &[],
        vec![
            tree("a", &["1"], vec![tree("b", &["2"], vec![tree("c", &["3"], Vec::new())])]),
            tree("d", &["4"], vec![tree("e", &["5"], Vec::new()), tree("f", &["6"], Vec::new())]),
            tree("g", &["7"], vec![tree("h", &["8"], vec![tree("i", &["9"], Vec::new())])]),
        ],
    )
}

fn ten_sub_dirs() -> Tree {
    let names = ["d0", "d1", "d2", "d3", "d4", "d5", "d6", "d7", "d8", "d9"];
    tree(
        "tests/fixtures/dir-with-10-sub-dirs",
        &[],
        names.iter().map(|name| tree(name, &["file"], Vec::new())).collect(),
    )
}

#[test]
fn scan_of_eleven_files_finds_them_in_order() {
    let run = run_scan(&eleven_files(), 0);
    let root = found(&run);
    assert_eq!(root.len(), 11);
    let paths = root.flatten();
    assert_eq!(paths.len(), 11);
    assert_eq!(paths[0], "tests/fixtures/dir-with-11-files/file-01");
    assert_eq!(paths.last().unwrap(), "tests/fixtures/dir-with-11-files/file-11");
    let mut sorted = paths.clone();
    sorted.sort();
    assert_eq!(paths, sorted);
}

#[test]
fn sequential_scan_finds_the_files_in_sub_directories() {
    let mut run = run_scan(&nine_files_in_sub_dirs(), 0);
    assert_eq!(found(&run).len(), 9);
    assert_eq!(run.scanner.max_concurrency_reached(), 0);
    assert_eq!(run.scanner.current_concurrency(), 0);
    assert_eq!(run.scanner.running_scanners(), 0);
    let last = run.scanner.last_event();
    assert_eq!(last, run.clock);
    assert!(!run.scanner.is_complete_at(last));
    assert!(!run.scanner.is_complete_at(last + 1));
    assert!(run.scanner.is_complete_at(last + 2));
    assert!(run.scanner.is_complete());
    assert_eq!(
        found(&run).flatten(),
        vec![
            "tests/fixtures/dir-with-9-files-in-sub-dirs/a/1".to_string(),
            "tests/fixtures/dir-with-9-files-in-sub-dirs/a/b/2".to_string(),
            "tests/fixtures/dir-with-9-files-in-sub-dirs/a/b/c/3".to_string(),
            "tests/fixtures/dir-with-9-files-in-sub-dirs/d/4".to_string(),
            "tests/fixtures/dir-with-9-files-in-sub-dirs/d/e/5".to_string(),
            "tests/fixtures/dir-with-9-files-in-sub-dirs/d/f/6".to_string(),
            "tests/fixtures/dir-with-9-files-in-sub-dirs/g/7".to_string(),
            "tests/fixtures/dir-with-9-files-in-sub-dirs/g/h/8".to_string(),
            "tests/fixtures/dir-with-9-files-in-sub-dirs/g/h/i/9".to_string(),
        ]
    );
    let newest = run.scanner.event_broker().try_recv().unwrap();
    assert_eq!(newest, run.root.unwrap().node());
    assert_eq!(run.scanner.snapshot(newest).len(), 9);
}

#[test]
fn every_limit_finds_the_same_files() {
    let expected = all_paths(&run_scan(&nine_files_in_sub_dirs(), 0));
    assert_eq!(expected.len(), 9);
    for limit in [1, 2, 3, 5, 9, 100] {
        let run = run_scan(&nine_files_in_sub_dirs(), limit);
        assert_eq!(all_paths(&run), expected);
        assert_eq!(run.scanner.current_concurrency(), 0);
        assert_eq!(run.scanner.running_scanners(), 0);
    }
}

#[test]
fn concurrency_limit_defaults_to_nine() {
    let scanner = DirectoryScanner::new("root".to_string(), "/work".to_string());
    assert_eq!(scanner.concurrency_limit(), 9);
    let mut scanner = scanner;
    let root = scanner.start_scan_at("root".to_string(), None, 1);
    let mut tasks = 0;
    for name in ["d0", "d1", "d2", "d3", "d4", "d5", "d6", "d7", "d8", "d9"] {
        let action = scanner.visit(root, name.to_string(), EntryKind::Directory, false);
        if action == EntryAction::ScanConcurrently {
            tasks += 1;
        } else {
            assert_eq!(action, EntryAction::ScanInline);
        }
    }
    assert_eq!(tasks, 9);
    assert_eq!(scanner.max_concurrency_reached(), 9);
    assert_eq!(scanner.current_concurrency(), 9);
    assert!(scanner.concurrency_limit_reached());
}

#[test]
fn high_water_mark_stays_within_the_limit() {
    for limit in [0, 1, 2, 3, 9, 10, 11] {
        let run = run_scan(&ten_sub_dirs(), limit);
        let expected = if limit < 10 { limit } else { 10 };
        assert_eq!(run.scanner.max_concurrency_reached(), expected);
        assert!(run.scanner.max_concurrency_reached() <= limit);
        assert_eq!(all_paths(&run).len(), 10);
    }
}

#[test]
fn a_finished_task_makes_room_for_another() {
    let mut scanner = DirectoryScanner::new("root".to_string(), "/work".to_string());
    scanner.set_concurrency_limit(1);
    let root = scanner.start_scan_at("root".to_string(), None, 1);
    assert_eq!(
        scanner.visit(root, "a".to_string(), EntryKind::Directory, false),
        EntryAction::ScanConcurrently
    );
    assert_eq!(
        scanner.visit(root, "b".to_string(), EntryKind::Directory, false),
        EntryAction::ScanInline
    );
    scanner.finish_task();
    assert!(!scanner.concurrency_limit_reached());
    assert_eq!(
        scanner.visit(root, "c".to_string(), EntryKind::Directory, false),
        EntryAction::ScanConcurrently
    );
    assert_eq!(scanner.max_concurrency_reached(), 1);
    assert_eq!(scanner.current_concurrency(), 1);
    assert_eq!(scanner.snapshot(root.node()).len(), 0);
}

#[test]
fn visit_skips_hidden_excluded_and_other_entries() {
    let mut scanner = DirectoryScanner::new("root".to_string(), "/work".to_string());
    let root = scanner.start_scan_at("root".to_string(), None, 1);
    let skipped = [
        (".hidden", EntryKind::File, false),
        (".git", EntryKind::Directory, false),
        ("target", EntryKind::Directory, true),
        ("notes.txt", EntryKind::File, true),
        ("link", EntryKind::Symlink, false),
        ("socket", EntryKind::Other, false),
    ];
    for (name, kind, excluded) in skipped {
        let action = scanner.visit(root, name.to_string(), kind, excluded);
        assert_eq!(action, EntryAction::Skipped);
    }
    assert_eq!(scanner.snapshot(root.node()).len(), 0);
    assert_eq!(scanner.current_concurrency(), 0);
    assert_eq!(scanner.max_concurrency_reached(), 0);
}

#[test]
fn visit_adds_a_file_once() {
    let mut scanner = DirectoryScanner::new("./root".to_string(), "/work".to_string());
    let root = scanner.start_scan_at(scanner.relative_base(), None, 1);
    assert_eq!(
        scanner.visit(root, "a".to_string(), EntryKind::File, false),
        EntryAction::FileAdded
    );
    assert_eq!(
        scanner.visit(root, "a".to_string(), EntryKind::File, false),
        EntryAction::FileAdded
    );
    assert_eq!(scanner.snapshot(root.node()).flatten(), vec!["root/a".to_string()]);
}

#[test]
fn ignored_entries_are_left_out_of_a_scan() {
    let mut fixture = tree("./project", &["Cargo.toml", "main.rs", ".gitignore"], Vec::new());
    fixture.ignored = vec!["target", "main.rs"];
    fixture.dirs = vec![tree("src", &["lib.rs"], Vec::new()), tree("target", &["out"], Vec::new())];
    let run = run_scan(&fixture, 0);
    assert_eq!(
        found(&run).flatten(),
        vec!["project/Cargo.toml".to_string(), "project/src/lib.rs".to_string()]
    );
}

#[test]
fn ignore_rules_are_asked_about_visible_files_and_directories_only() {
    assert!(DirectoryScanner::asks_ignore_rules(&"a".to_string(), EntryKind::File));
    assert!(DirectoryScanner::asks_ignore_rules(&"a".to_string(), EntryKind::Directory));
    assert!(!DirectoryScanner::asks_ignore_rules(&".a".to_string(), EntryKind::File));
    assert!(!DirectoryScanner::asks_ignore_rules(&".a".to_string(), EntryKind::Directory));
    assert!(!DirectoryScanner::asks_ignore_rules(&"a".to_string(), EntryKind::Symlink));
    assert!(!DirectoryScanner::asks_ignore_rules(&"a".to_string(), EntryKind::Other));
    assert!(DirectoryScanner::asks_ignore_rules(&"".to_string(), EntryKind::File));
}

#[test]
fn hidden_names_begin_with_a_dot() {
    assert!(hidden(&".git".to_string()));
    assert!(hidden(&".".to_string()));
    assert!(!hidden(&"a.b".to_string()));
    assert!(!hidden(&"".to_string()));
}

#[test]
fn an_entry_is_ignored_only_on_a_clear_answer() {
    assert!(DirectoryScanner::is_ignored_by_git(true, Some(true)));
    assert!(!DirectoryScanner::is_ignored_by_git(true, Some(false)));
    assert!(!DirectoryScanner::is_ignored_by_git(true, None));
    assert!(!DirectoryScanner::is_ignored_by_git(false, Some(true)));
    assert!(!DirectoryScanner::is_ignored_by_git(false, None));
}

#[test]
fn bases_of_a_relative_root() {
    let (absolute, relative) = breakdown_dir_parts("./sub".to_string(), "/work".to_string());
    assert_eq!(absolute, "/work");
    assert_eq!(relative, "./sub");
    let scanner = DirectoryScanner::new("sub/dir".to_string(), "/work".to_string());
    assert_eq!(scanner.absolute_base(), "/work");
    assert_eq!(scanner.relative_base(), "sub/dir");
}

#[test]
fn bases_of_an_absolute_root() {
    let (absolute, relative) = breakdown_dir_parts("/srv/data".to_string(), "/work".to_string());
    assert_eq!(absolute, "/srv/data");
    assert_eq!(relative, "./");
}

#[test]
fn paths_for_the_ignore_rules() {
    let scanner = DirectoryScanner::new("./project".to_string(), "/work".to_string());
    assert_eq!(scanner.rules_file("./project/src".to_string()), "/work/project/src/.gitignore");
    assert_eq!(scanner.rules_file("project".to_string()), "/work/project/.gitignore");
    assert_eq!(scanner.rules_file("./".to_string()), "/work/.gitignore");
    assert_eq!(scanner.rules_file(".".to_string()), "/work/.gitignore");
    assert_eq!(scanner.rooted_path("./a".to_string()), "/work/a");
    assert_eq!(scanner.rooted_path("./project/src/lib.rs".to_string()), "/work/project/src/lib.rs");
    assert_eq!(scanner.rooted_path("project/a".to_string()), "/work/project/a");
}

#[test]
fn child_paths_lie_below_the_node() {
    let mut scanner = DirectoryScanner::new("./root".to_string(), "/work".to_string());
    let root = scanner.start_scan_at("./root".to_string(), None, 1);
    assert_eq!(scanner.child_path(root, &"sub".to_string()), "./root/sub");
    let other = scanner.start_scan_at("./".to_string(), None, 2);
    assert_eq!(scanner.child_path(other, &"sub".to_string()), "./sub");
}

#[test]
fn a_scan_under_way_is_not_complete() {
    let mut scanner = DirectoryScanner::new("root".to_string(), "/work".to_string());
    assert!(scanner.is_complete_at(2));
    assert!(!scanner.is_complete_at(1));
    let root = scanner.start_scan_at("root".to_string(), None, 10);
    assert_eq!(scanner.snapshot(root.node()).path(), "root");
    assert_eq!(scanner.snapshot(root.node()).len(), 0);
    assert_eq!(scanner.running_scanners(), 1);
    assert_eq!(scanner.last_event(), 10);
    assert!(!scanner.is_complete_at(1000));
    scanner.finish_scan_at(root, 20);
    assert_eq!(scanner.running_scanners(), 0);
    assert_eq!(scanner.last_event(), 20);
    assert!(!scanner.is_complete_at(21));
    assert!(scanner.is_complete_at(22));
}

#[test]
fn a_running_task_keeps_the_scan_incomplete() {
    let mut scanner = DirectoryScanner::new("root".to_string(), "/work".to_string());
    let root = scanner.start_scan_at("root".to_string(), None, 5);
    assert_eq!(
        scanner.visit(root, "sub".to_string(), EntryKind::Directory, false),
        EntryAction::ScanConcurrently
    );
    scanner.finish_scan_at(root, 6);
    assert!(!scanner.is_complete_at(100));
    scanner.finish_task();
    assert!(scanner.is_complete_at(100));
}

#[test]
fn completion_at_the_ends_of_the_clock() {
    let mut scanner = DirectoryScanner::new("root".to_string(), "/work".to_string());
    let root = scanner.start_scan_at("root".to_string(), None, i64::MAX);
    scanner.finish_scan_at(root, i64::MAX);
    assert!(!scanner.is_complete_at(i64::MAX));
    let again = scanner.start_scan_at("root".to_string(), None, i64::MIN);
    scanner.finish_scan_at(again, i64::MIN);
    assert!(scanner.is_complete_at(i64::MAX));
    assert!(!scanner.is_complete_at(i64::MIN + 1));
    assert!(scanner.is_complete_at(i64::MIN + 2));
}

#[test]
fn scans_are_stamped_by_the_clock() {
    let mut scanner = DirectoryScanner::new("root".to_string(), "/work".to_string());
    let root = scanner.start_scan("root".to_string(), None);
    let began = scanner.last_event();
    assert!(began > 1_500_000_000);
    assert_eq!(scanner.running_scanners(), 1);
    assert!(!scanner.is_complete());
    scanner.finish_scan(root);
    assert!(scanner.last_event() >= began);
    assert_eq!(scanner.running_scanners(), 0);
    assert!(!scanner.is_complete());
}

#[test]
fn every_finished_scan_is_sent_to_the_broker() {
    let mut run = run_scan(&nine_files_in_sub_dirs(), 0);
    let mut received = Vec::new();
    loop {
        match run.scanner.event_broker().recv() {
            Ok(handle) => received.push(run.scanner.snapshot(handle).path()),
            Err(error) => {
                assert_eq!(error, RecvError::Empty);
                break;
            }
        }
    }
    assert_eq!(received.len(), 10);
    assert_eq!(received[0], "tests/fixtures/dir-with-9-files-in-sub-dirs/a/b/c");
    assert_eq!(received[9], "tests/fixtures/dir-with-9-files-in-sub-dirs");
    run.scanner.event_broker().close();
    assert_eq!(run.scanner.event_broker().recv().err(), Some(RecvError::Closed));
}

#[test]
fn set_concurrency_limit_changes_the_limit_only() {
    let mut scanner = DirectoryScanner::new("root".to_string(), "/work".to_string());
    scanner.set_concurrency_limit(3);
    assert_eq!(scanner.concurrency_limit(), 3);
    assert_eq!(scanner.current_concurrency(), 0);
    assert_eq!(scanner.max_concurrency_reached(), 0);
    assert_eq!(scanner.running_scanners(), 0);
    assert_eq!(scanner.last_event(), 0);
    assert_eq!(scanner.relative_base(), "root");
    scanner.set_concurrency_limit(0);
    assert!(scanner.concurrency_limit_reached());
}

#[test]
fn tasks_attach_their_nodes_to_the_node_handed_down() {
    let fixture = tree(
        "r",
        &["top"],
        vec![tree("a", &["1"], vec![tree("b", &["2"], Vec::new())])],
    );
    let run = run_scan(&fixture, 5);
    let root = found(&run);
    assert_eq!(
        all_paths(&run),
        vec!["r/a/1".to_string(), "r/a/b/2".to_string(), "r/top".to_string()]
    );
    let mut below = root.each_sub_directory();
    assert_eq!(below.next().unwrap().path(), "r/a");
    assert_eq!(below.next().unwrap().path(), "r/a/b");
    assert!(below.next().is_none());
}

#[test]
fn inline_scans_attach_their_nodes_where_they_were_found() {
    let fixture = tree(
        "r",
        &["top"],
        vec![tree("a", &["1"], vec![tree("b", &["2"], Vec::new())])],
    );
    let run = run_scan(&fixture, 0);
    let root = found(&run);
    let mut below = root.each_sub_directory();
    let first = below.next().unwrap();
    assert_eq!(first.path(), "r/a");
    assert!(below.next().is_none());
    assert_eq!(first.each_sub_directory().next().unwrap().path(), "r/a/b");
}

#[test]
fn what_a_task_finds_shows_in_later_snapshots() {
    let mut scanner = DirectoryScanner::new("r".to_string(), "/work".to_string());
    let root = scanner.start_scan_at("r".to_string(), None, 1);
    assert_eq!(
        scanner.visit(root, "sub".to_string(), EntryKind::Directory, false),
        EntryAction::ScanConcurrently
    );
    scanner.finish_scan_at(root, 2);
    assert_eq!(scanner.snapshot(root.node()).len(), 0);

    let task = scanner.start_scan_at("r/sub".to_string(), Some(root.hands_down()), 3);
    assert_eq!(task.hands_down(), root.node());
    assert!(task.node() != root.node());
    scanner.visit(task, "late".to_string(), EntryKind::File, false);
    scanner.finish_scan_at(task, 4);
    scanner.finish_task();

    assert_eq!(scanner.snapshot(root.node()).flatten(), vec!["r/sub/late".to_string()]);
    let first = scanner.event_broker().recv().unwrap();
    assert_eq!(first, root.node());
    assert_eq!(scanner.snapshot(first).flatten(), vec!["r/sub/late".to_string()]);
    let second = scanner.event_broker().recv().unwrap();
    assert_eq!(second, task.node());
    assert_eq!(scanner.snapshot(second).flatten(), vec!["r/sub/late".to_string()]);
}

#[test]
fn a_scanner_knows_the_places_of_its_nodes() {
    let mut scanner = DirectoryScanner::new("r".to_string(), "/work".to_string());
    let mut other = DirectoryScanner::new("r".to_string(), "/work".to_string());
    let first = other.start_scan_at("r".to_string(), None, 1);
    let second = other.start_scan_at("r/a".to_string(), None, 2);
    assert!(!scanner.knows(first.node()));
    let root = scanner.start_scan_at("r".to_string(), None, 1);
    assert!(scanner.knows(root.node()));
    assert!(!scanner.knows(second.node()));
    assert!(other.can_attach(first, second));
    assert!(other.can_attach(second, first));
    assert!(!other.can_attach(first, first));
    assert!(!scanner.can_attach(root, second));
    other.attach(first, second);
    assert!(!other.can_attach(second, first));
    assert_eq!(other.sub_directories(first.node()), vec![second.node()]);
}

#[test]
fn a_scan_of_the_current_directory_names_files_by_their_names() {
    let fixture = tree(".", &["a"], vec![tree("sub", &["b"], Vec::new())]);
    let run = run_scan(&fixture, 0);
    assert_eq!(found(&run).flatten(), vec!["a".to_string(), "sub/b".to_string()]);
}

#[test]
fn what_a_receiver_reads_follows_the_scan() {
    let mut scanner = DirectoryScanner::new("r".to_string(), "/work".to_string());
    let root = scanner.start_scan_at("r".to_string(), None, 1);
    scanner.finish_scan_at(root, 2);
    let again = scanner.start_scan_at("r".to_string(), None, 3);
    assert!(again.node() != root.node());
    scanner.visit(root, "f".to_string(), EntryKind::File, false);
    let received = scanner.event_broker().try_recv().unwrap();
    assert_eq!(scanner.snapshot(received).path(), "r");
    assert_eq!(scanner.snapshot(received).len(), 1);
}

#[test]
fn the_handles_below_a_node_lead_to_its_sub_directories() {
    let fixture = tree(
        "r",
        &[],
        vec![tree("a", &["1"], Vec::new()), tree("b", &[], Vec::new())],
    );
    let mut run = run_scan(&fixture, 0);
    let root = run.root.unwrap();
    let below = run.scanner.sub_directories(root.node());
    assert_eq!(below.len(), 2);
    assert_eq!(run.scanner.snapshot(below[0]).path(), "r/a");
    assert_eq!(run.scanner.snapshot(below[1]).path(), "r/b");
    assert!(run.scanner.sub_directories(below[1]).is_empty());
    assert!(run.scanner.knows(below[1]));
    assert_eq!(found(&run).len(), 1);
}
