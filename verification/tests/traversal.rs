use todo_scan::walk::{process_dir, process_file, Entry};

fn file(name: &str, lines: &[&str]) -> Entry {
    Entry::File {
        name: name.to_string(),
        lines: lines.iter().map(|l| l.to_string()).collect(),
    }
}

fn dir(name: &str, entries: Vec<Entry>) -> Entry {
    Entry::Dir { name: name.to_string(), entries }
}

#[test]
fn process_file_with_todos() {
    let lines = vec![
        "fn main() {{".to_string(),
        "   // TODO implement body".to_string(),
        "   // TODO to do something useful".to_string(),
        "}}".to_string(),
    ];
    assert_eq!(process_file("test_file.rs", &lines).0, 2);
}

#[test]
fn process_file_with_no_todos() {
    let lines = vec![
        "fn main() {{".to_string(),
        "   // this body is intentionally left empty".to_string(),
        "}}".to_string(),
    ];
    assert_eq!(process_file("test_file.rs", &lines).0, 0);
}

#[test]
fn process_dir_with_todos() {
    let root = vec![
        file(
            "test1.rs",
            &[
                "fn main() {{",
                "   // TODO implement body",
                "   // TODO to do something useful",
                "}}",
            ],
        ),
        file(
            "test2.rs",
            &["fn main() {{", "   // this body is intentionally left empty", "}}"],
        ),
        dir("dir1", vec![]),
        dir("dir2", vec![file("mod.rs", &["// TODO implement module"])]),
    ];
    assert_eq!(process_dir("", &root).0, 3);
}

#[test]
fn empty_directory_counts_zero() {
    let root: Vec<Entry> = vec![];
    let (count, notices) = process_dir("", &root);
    assert_eq!(count, 0);
    assert!(notices.is_empty());
}

#[test]
fn empty_file_counts_zero() {
    let lines: Vec<String> = vec![];
    let (count, notices) = process_file("empty.rs", &lines);
    assert_eq!(count, 0);
    assert!(notices.is_empty());
}

#[test]
fn file_notices_carry_path_and_line_numbers() {
    let lines = vec![
        "no marker here".to_string(),
        "a TODO first".to_string(),
        "quiet".to_string(),
        "b TODO second".to_string(),
    ];
    let (count, notices) = process_file("src/lib.rs", &lines);
    assert_eq!(count, 2);
    assert_eq!(notices.len(), 2);
    assert_eq!(notices[0].path, "src/lib.rs");
    assert_eq!(notices[0].line, 2);
    assert_eq!(notices[0].message, "first");
    assert_eq!(notices[1].line, 4);
    assert_eq!(notices[1].message, "second");
}

#[test]
fn walk_joins_paths_with_slashes() {
    let root = vec![dir(
        "dir2",
        vec![file("mod.rs", &["// TODO implement module"])],
    )];
    let (count, notices) = process_dir("", &root);
    assert_eq!(count, 1);
    assert_eq!(notices.len(), 1);
    assert_eq!(notices[0].path, "dir2/mod.rs");
    assert_eq!(notices[0].line, 1);
    assert_eq!(notices[0].message, "implement module");
}

#[test]
fn walk_keeps_the_base_path_as_prefix() {
    let root = vec![file("mod.rs", &["TODO here"])];
    let (_, notices) = process_dir("resources/test-assets", &root);
    assert_eq!(notices[0].path, "resources/test-assets/mod.rs");
}

#[test]
fn other_entries_are_skipped() {
    let root = vec![
        Entry::Other { name: "a-socket".to_string() },
        file("f.rs", &["TODO x"]),
        Entry::Other { name: "a-device".to_string() },
    ];
    let (count, notices) = process_dir("", &root);
    assert_eq!(count, 1);
    assert_eq!(notices.len(), 1);
}

#[test]
fn count_adds_up_over_siblings_and_depth() {
    let root = vec![
        file("a.rs", &["TODO one", "plain", "TODO two"]),
        dir(
            "sub",
            vec![
                file("b.rs", &["TODO three"]),
                dir("deeper", vec![file("c.rs", &["TODO four", "TODO five"])]),
            ],
        ),
    ];
    let (count, notices) = process_dir("", &root);
    assert_eq!(count, 5);
    assert_eq!(notices.len(), 5);
    assert_eq!(notices[2].path, "sub/b.rs");
    assert_eq!(notices[3].path, "sub/deeper/c.rs");
}
