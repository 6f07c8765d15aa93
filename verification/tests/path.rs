use monkey_c_lsp::order::{Order, order_bytes};
use monkey_c_lsp::path::{Component, FilePath, PathStyle};
use monkey_c_lsp::prefix::Prefix;

fn path(text: &str) -> FilePath {
    FilePath::new(text, PathStyle::Unix)
}

fn windows(text: &str) -> FilePath {
    FilePath::new(text, PathStyle::Windows)
}

fn text(name: Vec<u8>) -> String {
    String::from_utf8_lossy(&name).into_owned()
}

fn spelled_prefix(prefix: Prefix<Vec<u8>>) -> String {
    match prefix {
        Prefix::Verbatim(name) => format!("verbatim {}", text(name)),
        Prefix::VerbatimShare(server, share) => {
            format!("verbatim share {} {}", text(server), text(share))
        }
        Prefix::VerbatimDrive(letter) => format!("verbatim drive {}", letter as char),
        Prefix::Device(name) => format!("device {}", text(name)),
        Prefix::Share(server, share) => format!("share {} {}", text(server), text(share)),
        Prefix::Drive(letter) => format!("drive {}", letter as char),
    }
}

fn spelled(path: &FilePath) -> Vec<String> {
    path.components()
        .into_iter()
        .map(|component| match component {
            Component::Prefix(prefix) => spelled_prefix(prefix),
            Component::RootDir => "root".to_string(),
            Component::CurDir => "here".to_string(),
            Component::ParentDir => "up".to_string(),
            Component::Normal(name) => text(name),
        })
        .collect()
}

#[test]
fn paths_fall_into_components() {
    assert_eq!(spelled(&path("/src/Combo.mc")), vec!["root", "src", "Combo.mc"]);
    assert_eq!(spelled(&path("/src//Combo.mc/")), vec!["root", "src", "Combo.mc"]);
    assert_eq!(spelled(&path("/./src/./a")), vec!["root", "src", "a"]);
    assert_eq!(spelled(&path("./src/../a")), vec!["here", "src", "up", "a"]);
    assert_eq!(spelled(&path("src/.hidden/...")), vec!["src", ".hidden", "..."]);
    assert_eq!(spelled(&path("a\\b")), vec!["a\\b"]);
    assert_eq!(spelled(&path(".")), vec!["here"]);
    assert_eq!(spelled(&path("/")), vec!["root"]);
    assert!(spelled(&path("")).is_empty());
}

#[test]
fn windows_has_drives_and_two_slashes() {
    assert_eq!(spelled(&windows("c:\\src/a")), vec!["drive C", "root", "src", "a"]);
    assert_eq!(spelled(&windows("c:src")), vec!["drive C", "src"]);
    assert_eq!(spelled(&windows("c:.\\src")), vec!["drive C", "src"]);
    assert_eq!(spelled(&windows(".\\src")), vec!["here", "src"]);
    assert_eq!(spelled(&windows("a\\build")), vec!["a", "build"]);
    assert_eq!(spelled(&windows("\\src")), vec!["root", "src"]);
    assert_eq!(windows("c:\\src\\a"), windows("C:/src/a"));
    assert_eq!(windows("a\\b"), windows("a/b"));
    assert_ne!(windows("c:src"), windows("c:/src"));
    assert_ne!(windows("/c:/src"), windows("c:/src"));
    assert_ne!(windows("c:/src"), windows("c:/SRC"));
}

#[test]
fn windows_has_shares_and_devices() {
    let share = windows("\\\\server\\share");
    assert_eq!(spelled(&share), vec!["share server share", "root"]);
    assert_eq!(share.file_name(), None);
    assert_eq!(spelled(&windows("\\server\\share")), vec!["root", "server", "share"]);
    assert_ne!(share, windows("\\server\\share"));
    assert_eq!(share, windows("//server/share/"));
    assert_ne!(share, windows("\\\\server\\SHARE"));
    assert_eq!(
        spelled(&windows("//server/share/src/./a.mc")),
        vec!["share server share", "root", "src", "a.mc"]
    );
    assert_eq!(spelled(&windows("\\\\server")), vec!["root", "server"]);
    assert_eq!(spelled(&windows("\\\\server\\\\a")), vec!["root", "server", "a"]);
    assert_eq!(spelled(&windows("\\\\.\\COM42")), vec!["device COM42", "root"]);
    assert_eq!(spelled(&windows("//./COM42/a")), vec!["device COM42", "root", "a"]);
    assert_eq!(spelled(&path("//server/share")), vec!["root", "server", "share"]);
}

#[test]
fn verbatim_paths_are_read_as_they_stand() {
    assert_eq!(
        spelled(&windows("\\\\?\\c:\\src\\.\\a/b\\..")),
        vec!["verbatim drive C", "root", "src", "here", "a/b", "up"]
    );
    assert_eq!(windows("\\\\?\\c:\\src"), windows("\\\\?\\C:\\src"));
    assert_ne!(windows("\\\\?\\C:\\src"), windows("C:\\src"));
    assert_eq!(
        spelled(&windows("\\\\?\\UNC\\server\\share\\a")),
        vec!["verbatim share server share", "root", "a"]
    );
    assert_eq!(
        spelled(&windows("\\\\?\\UNC\\server")),
        vec!["verbatim share server "]
    );
    assert_eq!(spelled(&windows("\\\\?\\pics\\a")), vec!["verbatim pics", "root", "a"]);
    assert_eq!(spelled(&windows("\\\\?\\C:src")), vec!["verbatim C:src"]);
    // Only these very slashes make a path verbatim.
    assert_eq!(spelled(&windows("//?/C:/a")), vec!["share ? C:", "root", "a"]);
}

#[test]
fn prefixes_are_ordered_by_kind_and_name() {
    let sorted = [
        "\\\\?\\pics",
        "\\\\?\\UNC\\a\\b",
        "\\\\?\\C:",
        "\\\\.\\COM1",
        "\\\\a\\b",
        "\\\\a\\c",
        "\\\\b\\a",
        "C:",
        "D:",
        "\\a",
        ".\\a",
    ];
    for (i, a) in sorted.iter().enumerate() {
        for (j, b) in sorted.iter().enumerate() {
            let expected = if i < j {
                Order::Before
            } else if i == j {
                Order::Same
            } else {
                Order::After
            };
            assert_eq!(windows(a).order(&windows(b)), expected, "{a} {b}");
        }
    }
}

#[test]
fn elsewhere_a_drive_is_a_name() {
    assert_eq!(spelled(&path("C:build")), vec!["C:build"]);
    assert_eq!(spelled(&path("C:\\src/a")), vec!["C:\\src", "a"]);
    assert_eq!(path("c:build").file_name(), Some(b"c:build".to_vec()));
    assert_eq!(path("c:/src"), path("C:/src"));
    assert_ne!(path("a\\b"), path("a/b"));
    assert_ne!(path("x/c:"), path("x/C:"));
}

#[test]
fn paths_are_ordered_component_by_component() {
    assert_eq!(path("/a/b").order(&path("/a-b")), Order::Before);
    assert_eq!(path("/a-b").order(&path("/a/b")), Order::After);
    assert_eq!(path("/a").order(&path("/a/b")), Order::Before);
    assert_eq!(path("/a//b/").order(&path("/a/./b")), Order::Same);
    assert_eq!(path("/z").order(&path("a")), Order::Before);
    assert_eq!(windows("C:/z").order(&windows("/a")), Order::Before);
    assert_eq!(windows("c:/z").order(&windows("D:/a")), Order::Before);
    assert_eq!(path("./z").order(&path("../a")), Order::Before);
    assert_eq!(path("../z").order(&path("a")), Order::Before);
    assert_eq!(path("B").order(&path("a")), Order::Before);
}

#[test]
fn bytes_are_ordered_as_in_a_dictionary() {
    assert_eq!(order_bytes(b"", b""), Order::Same);
    assert_eq!(order_bytes(b"", b"a"), Order::Before);
    assert_eq!(order_bytes(b"ab", b"a"), Order::After);
    assert_eq!(order_bytes(b"ab", b"b"), Order::Before);
    assert_eq!(order_bytes(b"ab", b"ab"), Order::Same);
}

#[test]
fn file_names_are_last_components() {
    assert_eq!(path("/src/Combo.mc").file_name(), Some(b"Combo.mc".to_vec()));
    assert_eq!(path("/src/Combo.mc/.").file_name(), Some(b"Combo.mc".to_vec()));
    assert_eq!(path("/src/..").file_name(), None);
    assert_eq!(path("/").file_name(), None);
    assert_eq!(windows("C:").file_name(), None);
    assert_eq!(windows("C:build").file_name(), Some(b"build".to_vec()));
    assert_eq!(path("/src").style(), PathStyle::Unix);
    assert_eq!(windows("/src").style(), PathStyle::Windows);
}
