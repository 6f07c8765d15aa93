use monkey_c_lsp::path::{FilePath, PathStyle};
use monkey_c_lsp::uri::{self, Uri, from_path, hex, is_unreserved, is_windows_drive, percent_decode};

fn uri(text: &str) -> Uri {
    Uri(text.to_string())
}

fn path(text: &str) -> FilePath {
    FilePath::new(text, PathStyle::Unix)
}

fn to_path(uri: &Uri) -> Option<FilePath> {
    uri::to_path(uri, PathStyle::Unix)
}

/// The bytes of the path that a URI names, which tell more than the equality of paths does.
fn bytes_of(uri: &Uri) -> Option<Vec<u8>> {
    to_path(uri).map(|path| path.as_bytes().to_vec())
}

#[test]
fn round_trips_a_plain_path() {
    let path = path("/Users/dev/source/Combo.mc");

    assert_eq!(to_path(&from_path(&path)), Some(path.clone()));
    assert_eq!(bytes_of(&from_path(&path)), Some(path.as_bytes().to_vec()));
}

#[test]
fn round_trips_spaces_and_multibyte() {
    let path = path("/Users/dev/my source/Café.mc");
    let uri = from_path(&path);

    assert!(
        uri.0.contains("my%20source"),
        "space should be escaped: {}",
        uri.0
    );
    assert_eq!(to_path(&uri), Some(path.clone()));
    assert_eq!(bytes_of(&uri), Some(path.as_bytes().to_vec()));
}

#[test]
fn accepts_an_unencoded_path() {
    let uri = uri("file:///Users/dev/my source/Combo.mc");

    assert_eq!(
        to_path(&uri),
        Some(path("/Users/dev/my source/Combo.mc"))
    );
}

#[test]
fn keeps_a_malformed_escape_verbatim() {
    let uri = uri("file:///tmp/100%done/a.mc");

    assert_eq!(to_path(&uri), Some(path("/tmp/100%done/a.mc")));
}

#[test]
fn rejects_non_file_schemes_and_remote_hosts() {
    assert_eq!(to_path(&uri("https://example.com/a.mc")), None);
    assert_eq!(to_path(&uri("file://server/share/a.mc")), None);
}

#[test]
fn strips_the_leading_slash_before_a_windows_drive() {
    let uri = uri("file:///C:/src/Combo.mc");

    assert_eq!(to_path(&uri), Some(path("C:/src/Combo.mc")));
    assert_eq!(bytes_of(&uri), Some(b"C:/src/Combo.mc".to_vec()));
}

#[test]
fn spells_uris_exactly() {
    assert_eq!(
        from_path(&path("/a b/Café~1.mc")),
        uri("file:///a%20b/Caf%C3%A9~1.mc")
    );
    assert_eq!(
        from_path(&path("C:\\src\\Combo.mc")),
        uri("file:///C:/src/Combo.mc")
    );
    assert_eq!(from_path(&path("src/a.mc")), uri("file:///src/a.mc"));
    assert_eq!(from_path(&path("\\src")), uri("file:///src"));
    assert_eq!(from_path(&path("")), uri("file:///"));
}

#[test]
fn paths_that_are_not_text_are_replaced_in_part() {
    let path = FilePath::from_bytes(vec![b'/', 0xff, b'a'], PathStyle::Unix);

    assert_eq!(from_path(&path), uri("file:///%EF%BF%BDa"));
}

#[test]
fn relative_paths_come_back_absolute() {
    assert_eq!(
        bytes_of(&from_path(&path("src/a.mc"))),
        Some(b"/src/a.mc".to_vec())
    );
    assert_eq!(
        bytes_of(&from_path(&path("C:\\src"))),
        Some(b"C:/src".to_vec())
    );
}

#[test]
fn an_absolute_path_before_a_drive_letter_loses_its_slash() {
    assert_eq!(
        bytes_of(&from_path(&path("/C:/src"))),
        Some(b"C:/src".to_vec())
    );
}

#[test]
fn spellings_of_one_uri_name_one_path() {
    let plain = to_path(&uri("file:///Users/dev/Café.mc"));

    assert_eq!(plain, to_path(&uri("file:///Users/dev/Caf%C3%A9.mc")));
    assert_eq!(plain, to_path(&uri("file:///Users/dev/Caf%c3%a9.mc")));
    assert_eq!(plain, to_path(&uri("file:///%55sers/dev/Caf%C3%A9.mc")));
}

#[test]
fn drive_letters_of_either_case_name_one_path() {
    assert_eq!(
        to_path(&uri("file:///c:/src/Combo.mc")),
        to_path(&uri("file:///C:/src/Combo.mc"))
    );
    assert_eq!(
        to_path(&uri("file:///c%3A/src/Combo.mc")),
        to_path(&uri("file:///C:/src/Combo.mc"))
    );
    assert_ne!(
        to_path(&uri("file:///c:/src/combo.mc")),
        to_path(&uri("file:///C:/src/Combo.mc"))
    );
}

#[test]
fn percent_decoding_takes_escapes_one_by_one() {
    assert_eq!(percent_decode(""), "");
    assert_eq!(percent_decode("a%20b"), "a b");
    assert_eq!(percent_decode("%2525"), "%25");
    assert_eq!(percent_decode("%4"), "%4");
    assert_eq!(percent_decode("%"), "%");
    assert_eq!(percent_decode("%%41"), "%A");
    assert_eq!(percent_decode("%g1%1g"), "%g1%1g");
    assert_eq!(percent_decode("Caf%C3%A9"), "Café");
}

#[test]
fn escapes_that_decode_to_no_text_are_replaced() {
    assert_eq!(percent_decode("a%FFb"), "a\u{FFFD}b");
    assert_eq!(percent_decode("%C3"), "\u{FFFD}");
}

#[test]
fn hexadecimal_digits_have_either_case() {
    assert_eq!(hex(b'0'), Some(0));
    assert_eq!(hex(b'9'), Some(9));
    assert_eq!(hex(b'a'), Some(10));
    assert_eq!(hex(b'F'), Some(15));
    assert_eq!(hex(b'g'), None);
    assert_eq!(hex(b'/'), None);
    assert_eq!(hex(b':'), None);
    assert_eq!(hex(0xE4), None);
}

#[test]
fn unreserved_bytes_are_letters_digits_and_a_few_marks() {
    for byte in 0..=255u8 {
        let expected = byte.is_ascii_alphanumeric()
            || matches!(byte, b'-' | b'.' | b'_' | b'~' | b'/' | b':');

        assert_eq!(is_unreserved(byte), expected, "{byte}");
    }
}

#[test]
fn a_drive_is_one_letter_and_a_colon() {
    assert!(is_windows_drive("C:"));
    assert!(is_windows_drive("z:/src"));
    assert!(!is_windows_drive("C"));
    assert!(!is_windows_drive(""));
    assert!(!is_windows_drive("1:/src"));
    assert!(!is_windows_drive("é:/src"));
    assert!(!is_windows_drive("CD:/src"));
}

#[test]
fn a_uri_needs_a_path() {
    assert_eq!(to_path(&uri("file://")), None);
    assert_eq!(to_path(&uri("file:/a.mc")), None);
    assert_eq!(to_path(&uri("FILE:///a.mc")), None);
    assert_eq!(to_path(&uri("")), None);
    assert_eq!(bytes_of(&uri("file:///")), Some(b"/".to_vec()));
}

#[test]
fn drive_paths_come_back_as_the_same_file() {
    for spelled in ["C:\\src\\Combo.mc", "c:/src\\Combo.mc", "C:/src/Combo.mc"] {
        let path = FilePath::new(spelled, PathStyle::Windows);

        assert_eq!(uri::to_path(&from_path(&path), PathStyle::Windows), Some(path));
    }
}

#[test]
fn rooted_paths_come_back_as_the_same_file_on_windows() {
    let path = FilePath::new("\\src/my\\Combo.mc", PathStyle::Windows);

    assert_eq!(from_path(&path), uri("file:///src/my/Combo.mc"));
    assert_eq!(uri::to_path(&from_path(&path), PathStyle::Windows), Some(path));
}

#[test]
fn a_uri_with_a_drive_names_one_path_on_every_system() {
    for style in [PathStyle::Unix, PathStyle::Windows] {
        let upper = uri::to_path(&uri("file:///C:/src/Combo.mc"), style);
        assert_eq!(upper, Some(FilePath::new("C:/src/Combo.mc", style)));
        assert_eq!(upper, uri::to_path(&uri("file:///c%3A/src/Combo.mc"), style));
        // What is behind the drive need not be text.
        assert_eq!(
            uri::to_path(&uri("file:///C:/%FF/a.mc"), style),
            uri::to_path(&uri("file:///c:/%FF/a.mc"), style)
        );
    }
}

#[test]
fn built_uris_hold_plain_characters_only() {
    let spelled = from_path(&path("/a?b#c/\u{1F3CB} &.mc")).0;

    assert_eq!(spelled, "file:///a%3Fb%23c/%F0%9F%8F%8B%20%26.mc");
    assert!(spelled.bytes().all(|byte| byte == b'%' || is_unreserved(byte)));
}

#[test]
fn shares_come_back_as_the_same_file() {
    let path = FilePath::new("\\\\server\\share\\Combo.mc", PathStyle::Windows);

    assert_eq!(from_path(&path), uri("file:////server/share/Combo.mc"));
    assert_eq!(uri::to_path(&from_path(&path), PathStyle::Windows), Some(path));
}

#[test]
fn a_surrogate_on_windows_is_replaced_as_a_whole() {
    let bytes = vec![b'C', b':', b'/', b'o', 0xed, 0xa0, 0x80, b'o'];
    let windows = FilePath::from_bytes(bytes.clone(), PathStyle::Windows);
    let unix = FilePath::from_bytes(bytes, PathStyle::Unix);

    assert_eq!(from_path(&windows), uri("file:///C:/o%EF%BF%BDo"));
    assert_eq!(
        from_path(&unix),
        uri("file:///C:/o%EF%BF%BD%EF%BF%BD%EF%BF%BDo")
    );
    // The last code point ahead of the surrogates is text.
    let text = FilePath::new("C:/\u{D7FF}", PathStyle::Windows);
    assert_eq!(from_path(&text), uri("file:///C:/%ED%9F%BF"));
}

#[test]
fn text_in_front_of_what_does_not_decode_is_kept() {
    assert_eq!(percent_decode("Caf%C3%A9%FF"), "Café\u{FFFD}");
    assert_eq!(percent_decode("%F0%9F%8F%8B%E2%82"), "\u{1F3CB}\u{FFFD}");
}
