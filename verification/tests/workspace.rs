use monkey_c_lsp::path::{FilePath, PathStyle};
use monkey_c_lsp::scan::{DirEntry, Scan, is_skipped, is_source};
use monkey_c_lsp::workspace::{OnDisk, Workspace};

fn path(text: &str) -> FilePath {
    FilePath::new(text, PathStyle::Unix)
}

fn file(at: &str, text: &str) -> (FilePath, Option<String>) {
    (path(at), Some(text.to_string()))
}

fn entry(at: &str, is_dir: bool) -> DirEntry {
    DirEntry {
        path: path(at),
        is_dir,
    }
}

#[test]
fn an_open_buffer_wins_over_disk() {
    let mut workspace = Workspace::default();
    workspace.set(path("/src/Combo.mc"), "buffer".to_string());
    // A root scan must not clobber what the client already sent.
    let mut scan = Scan::new(path("/definitely/not/a/directory"));
    while let Some(directory) = scan.next_directory() {
        assert_eq!(directory, path("/definitely/not/a/directory"));
    }
    let found = scan.found();
    assert!(found.is_empty());
    workspace.load_root(found.into_iter().map(|path| (path, None)).collect());

    assert_eq!(workspace.text(&path("/src/Combo.mc")), Some("buffer"));

    workspace.load_root(vec![file("/src/Combo.mc", "disk")]);
    assert_eq!(workspace.text(&path("/src/Combo.mc")), Some("buffer"));
}

#[test]
fn closing_a_file_with_no_disk_copy_forgets_it() {
    let mut workspace = Workspace::default();
    workspace.set(path("/src/Gone.mc"), "buffer".to_string());
    workspace.close(&path("/src/Gone.mc"), OnDisk::Gone);

    assert_eq!(workspace.text(&path("/src/Gone.mc")), None);
}

#[test]
fn sources_are_ordered_by_path() {
    let mut workspace = Workspace::default();
    workspace.set(path("/src/B.mc"), String::new());
    workspace.set(path("/src/A.mc"), String::new());

    let sources = workspace.sources();
    let paths: Vec<_> = sources.iter().map(|(p, _)| (*p).clone()).collect();
    assert_eq!(paths, vec![path("/src/A.mc"), path("/src/B.mc")]);
}

#[test]
fn build_output_is_not_indexed() {
    assert!(is_skipped(&path("/project/build")));
    assert!(is_skipped(&path("/project/bin")));
    assert!(is_skipped(&path("/project/.git")));
    assert!(!is_skipped(&path("/project/source")));
}

#[test]
fn directories_without_a_readable_name_are_skipped() {
    assert!(is_skipped(&path("/project/target")));
    assert!(is_skipped(&path("/project/node_modules/")));
    assert!(is_skipped(&path("/")));
    assert!(is_skipped(&path("")));
    assert!(is_skipped(&path(".")));
    assert!(is_skipped(&path("/project/..")));
    assert!(is_skipped(&FilePath::from_bytes(vec![b'/', 0xff], PathStyle::Unix)));
    assert!(!is_skipped(&path("/project/builds")));
    assert!(!is_skipped(&path("/build/source/.")));
}

#[test]
fn what_is_skipped_depends_on_how_the_system_reads_paths() {
    let windows = |text: &str| FilePath::new(text, PathStyle::Windows);

    assert!(!is_skipped(&path("C:build")));
    assert!(is_skipped(&windows("C:build")));
    assert!(!is_skipped(&path("a\\build")));
    assert!(is_skipped(&windows("a\\build")));
    assert!(is_source(&windows("C:src\\a.mc")));
    assert!(!is_source(&windows("C:.mc")));
    assert!(is_source(&path("C:.mc")));
}

#[test]
fn sources_have_the_extension() {
    assert!(is_source(&path("/src/Combo.mc")));
    assert!(is_source(&path("/src/.a.mc")));
    assert!(is_source(&path("/src/Combo.mc/")));
    assert!(is_source(&FilePath::from_bytes(vec![0xff, b'.', b'm', b'c'], PathStyle::Unix)));
    assert!(!is_source(&path("/src/.mc")));
    assert!(!is_source(&path("/src/Combo.mcx")));
    assert!(!is_source(&path("/src/Combo.MC")));
    assert!(!is_source(&path("/src/mc")));
    assert!(!is_source(&path("/")));
}

#[test]
fn a_scan_reads_every_directory_that_is_not_skipped() {
    let mut scan = Scan::new(path("/p"));
    assert_eq!(scan.next_directory(), Some(path("/p")));
    scan.enter(vec![
        entry("/p/a.mc", false),
        entry("/p/a.txt", false),
        entry("/p/source", true),
        entry("/p/bin", true),
        entry("/p/lib.mc", true),
    ]);
    assert_eq!(scan.next_directory(), Some(path("/p/lib.mc")));
    scan.enter(vec![entry("/p/lib.mc/b.mc", false)]);
    assert_eq!(scan.next_directory(), Some(path("/p/source")));
    // A directory that cannot be read adds nothing.
    assert_eq!(scan.next_directory(), None);

    assert_eq!(scan.found(), vec![path("/p/a.mc"), path("/p/lib.mc/b.mc")]);
}

#[test]
fn the_root_is_scanned_whatever_it_is_called() {
    let mut scan = Scan::new(path("/p/build"));

    assert_eq!(scan.next_directory(), Some(path("/p/build")));
}

#[test]
fn seeding_takes_what_was_read_first() {
    let mut workspace = Workspace::default();
    workspace.load_root(vec![
        (path("/src/A.mc"), None),
        file("/src/A.mc", "first"),
        file("/src/./A.mc", "second"),
        (path("/src/B.mc"), None),
    ]);

    assert_eq!(workspace.text(&path("/src/A.mc")), Some("first"));
    assert_eq!(workspace.text(&path("/src/B.mc")), None);
    assert_eq!(workspace.sources().len(), 1);
}

#[test]
fn closing_falls_back_to_disk() {
    let mut workspace = Workspace::default();
    workspace.set(path("/src/A.mc"), "buffer".to_string());
    workspace.close(&path("/src/A.mc"), OnDisk::Text("disk".to_string()));
    assert_eq!(workspace.text(&path("/src/A.mc")), Some("disk"));

    workspace.close(&path("/src/New.mc"), OnDisk::Text("new".to_string()));
    assert_eq!(workspace.text(&path("/src/New.mc")), Some("new"));

    workspace.close(&path("/src/Unknown.mc"), OnDisk::Gone);
    assert_eq!(workspace.sources().len(), 2);
}

#[test]
fn only_a_file_that_has_gone_is_forgotten() {
    let mut workspace = Workspace::default();
    workspace.set(path("/src/A.mc"), "buffer".to_string());
    workspace.set(path("/src/B.mc"), "other".to_string());

    workspace.close(&path("/src/A.mc"), OnDisk::Unreadable);
    assert_eq!(workspace.text(&path("/src/A.mc")), Some("buffer"));
    workspace.close(&path("/src/A.mc"), OnDisk::Text("disk".to_string()));
    assert_eq!(workspace.text(&path("/src/A.mc")), Some("disk"));
    workspace.close(&path("/src/A.mc"), OnDisk::Gone);
    assert_eq!(workspace.text(&path("/src/A.mc")), None);
    assert_eq!(workspace.text(&path("/src/B.mc")), Some("other"));

    // What was never known does not become known by being unreadable.
    workspace.close(&path("/src/C.mc"), OnDisk::Unreadable);
    assert_eq!(workspace.text(&path("/src/C.mc")), None);
}

#[test]
fn a_file_is_one_file_under_every_spelling_and_keeps_the_first() {
    let mut workspace = Workspace::default();
    workspace.set(path("/src//A.mc"), "one".to_string());
    workspace.set(path("/src/./A.mc"), "two".to_string());

    assert_eq!(workspace.text(&path("/src/A.mc")), Some("two"));
    assert_eq!(workspace.text(&path("src/A.mc")), None);
    let sources = workspace.sources();
    assert_eq!(sources.len(), 1);
    assert_eq!(sources[0].0.as_bytes(), b"/src//A.mc");
    assert_eq!(sources[0].1, "two");
}

#[test]
fn many_sources_stay_in_order() {
    let names = ["q", "c", "x", "a", "m", "z", "b", "k", "y", "d"];
    let mut workspace = Workspace::default();
    for name in names {
        workspace.set(path(&format!("/src/{name}.mc")), name.to_string());
    }
    workspace.close(&path("/src/m.mc"), OnDisk::Gone);
    workspace.set(path("/src/k.mc"), "K".to_string());

    let texts: Vec<_> = workspace.sources().iter().map(|(_, text)| text.to_string()).collect();
    assert_eq!(texts, vec!["a", "b", "c", "d", "K", "q", "x", "y", "z"]);
}

#[test]
fn the_listing_does_not_depend_on_the_order_of_opening() {
    let mut one = Workspace::default();
    one.set(path("/src/A.mc"), "a".to_string());
    one.set(path("/src/B.mc"), "b".to_string());
    let mut other = Workspace::default();
    other.set(path("/src/B.mc"), "b".to_string());
    other.set(path("/src/Gone.mc"), "gone".to_string());
    other.set(path("/src/A.mc"), "a".to_string());
    other.close(&path("/src/Gone.mc"), OnDisk::Gone);

    assert_eq!(one.sources(), other.sources());
}

#[test]
fn closing_leaves_a_file_as_if_it_had_never_been_open() {
    let mut opened = Workspace::default();
    opened.load_root(vec![file("/src/A.mc", "disk")]);
    opened.set(path("/src/./A.mc"), "buffer".to_string());
    assert_eq!(opened.text(&path("/src/A.mc")), Some("buffer"));
    opened.close(&path("/src/./A.mc"), OnDisk::Text("disk".to_string()));

    let mut untouched = Workspace::default();
    untouched.load_root(vec![file("/src/A.mc", "disk")]);
    assert_eq!(opened.sources(), untouched.sources());
    assert_eq!(opened.sources()[0].0.as_bytes(), b"/src/A.mc");
}
