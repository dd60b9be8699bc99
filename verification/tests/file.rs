use directory_scanner::file::{join, normalize_dir, unshift};
use directory_scanner::File;

#[test]
fn path_normalization_drops_the_current_dir_marker() {
    let marked = File::new("a.txt".to_string(), "./sub".to_string());
    let plain = File::new("a.txt".to_string(), "sub".to_string());
    assert_eq!(marked.as_string(), "sub/a.txt");
    assert_eq!(plain.as_string(), "sub/a.txt");
    assert_eq!(marked.as_string(), plain.as_string());
    assert!(marked == plain);
}

#[test]
fn file_parts() {
    let file = File::new("file-01".to_string(), "./tests/fixtures/dir".to_string());
    assert_eq!(file.file_name(), "file-01");
    assert_eq!(file.path(), "tests/fixtures/dir/file-01");
    assert_eq!(file.as_string(), "tests/fixtures/dir/file-01");
}

#[test]
fn file_in_the_current_directory() {
    assert_eq!(File::new("a".to_string(), "./".to_string()).as_string(), "a");
    assert_eq!(File::new("a".to_string(), ".".to_string()).as_string(), "a");
    assert!(File::new("a".to_string(), ".".to_string())
        == File::new("a".to_string(), "./".to_string()));
    assert_eq!(File::new("a".to_string(), "".to_string()).as_string(), "a");
}

#[test]
fn only_one_marker_is_dropped() {
    assert_eq!(File::new("a".to_string(), "././x".to_string()).as_string(), "./x/a");
}

#[test]
fn files_differ_by_path() {
    let one = File::new("a".to_string(), "x".to_string());
    let other = File::new("b".to_string(), "x".to_string());
    let elsewhere = File::new("a".to_string(), "y".to_string());
    assert!(one != other);
    assert!(one != elsewhere);
    assert!(one == one.clone());
}

#[test]
fn files_of_one_path_are_equal_whatever_their_parts() {
    let one = File::new("b/c".to_string(), "a".to_string());
    let other = File::new("c".to_string(), "a/b".to_string());
    assert!(one == other);
}

#[test]
fn unshift_drops_the_first_component() {
    assert_eq!(unshift("./sub".to_string()), "sub");
    assert_eq!(unshift("a/b/c".to_string()), "b/c");
    assert_eq!(unshift("/rooted".to_string()), "rooted");
    assert_eq!(unshift("a/".to_string()), "");
}

#[test]
fn unshift_keeps_a_path_without_separator() {
    assert_eq!(unshift("plain".to_string()), "plain");
    assert_eq!(unshift("".to_string()), "");
    assert_eq!(unshift(".".to_string()), ".");
}

#[test]
fn unshift_counts_characters_not_bytes() {
    assert_eq!(unshift("é/ü".to_string()), "ü");
}

#[test]
fn normalize_dir_keeps_other_directories() {
    assert_eq!(normalize_dir("sub".to_string()), "sub");
    assert_eq!(normalize_dir("../sub".to_string()), "../sub");
    assert_eq!(normalize_dir(".hidden/sub".to_string()), ".hidden/sub");
    assert_eq!(normalize_dir("/abs".to_string()), "/abs");
    assert_eq!(normalize_dir("./sub".to_string()), "sub");
    assert_eq!(normalize_dir(".".to_string()), "");
    assert_eq!(normalize_dir("./".to_string()), "");
    assert_eq!(normalize_dir("..".to_string()), "..");
    assert_eq!(normalize_dir(".a".to_string()), ".a");
}

#[test]
fn join_puts_one_separator_between() {
    assert_eq!(join(&"a".to_string(), &"b".to_string()), "a/b");
    assert_eq!(join(&"a/".to_string(), &"b".to_string()), "a/b");
    assert_eq!(join(&"".to_string(), &"b".to_string()), "b");
    assert_eq!(join(&"a".to_string(), &"".to_string()), "a/");
}

#[test]
fn join_with_a_rooted_name_gives_the_name() {
    assert_eq!(join(&"a".to_string(), &"/b".to_string()), "/b");
}

#[test]
fn join_agrees_with_std_paths() {
    let cases =
        [("a", "b"), ("a/", "b"), ("", "b"), ("a", ""), ("a", "/b"), ("./", "x"), ("/", "x")];
    for (dir, name) in cases {
        let expected = std::path::Path::new(dir).join(name);
        assert_eq!(join(&dir.to_string(), &name.to_string()), expected.to_str().unwrap());
    }
}
