//! Conversion between LSP `file:` URIs and file paths.
//!
//! A URI is an opaque string to the protocol, so the percent-coding is done here. Paths, not URIs,
//! are what the workspace is keyed by: a client's spelling of a URI need not match the one that
//! [`from_path`] builds, since percent-encoding and the case of a Windows drive letter both vary.
//! Decoded, the two spellings are one path.
use crate::ascii::{
    BACKSLASH, COLON, DASH, DOT, PERCENT, SLASH, TILDE, UNDERSCORE, digit, is_digit, is_letter,
    letter, upper_case,
};
use crate::path::{
    FilePath, PathStyle, PathView, components, drive_letter_case_names_one_file,
    slashes_separate_alike_on_windows,
};
use crate::prefix::{
    Reading, has_drive, is_verbatim, same_but_for_slash, same_but_for_slashes, separator,
};
use crate::text::{
    ascii_text, from_utf8_lossy, lemma_lossy_scalar, lossy_text, replace_surrogates,
    text_has_no_surrogates, without_surrogates,
};
use vstd::prelude::*;
use vstd::slice::slice_subrange;
use vstd::string::*;
use vstd::utf8::*;

verus! {

/// A URI as the protocol spells it.
#[derive(Debug, PartialEq, Eq)]
pub struct Uri(pub String);

impl View for Uri {
    type V = Seq<char>;

    open spec fn view(&self) -> Seq<char> {
        self.0@
    }
}

/// `file://`
pub open spec fn scheme() -> Seq<u8> {
    seq![0x66u8, 0x69u8, 0x6cu8, 0x65u8, COLON, SLASH, SLASH]
}

/// The value of a hexadecimal digit of either case.
pub open spec fn hex_value(byte: u8) -> Option<u8> {
    if is_digit(byte) {
        Some((byte - 0x30) as u8)
    } else if 0x61 <= byte <= 0x66 {
        Some((byte - 0x61 + 10) as u8)
    } else if 0x41 <= byte <= 0x46 {
        Some((byte - 0x41 + 10) as u8)
    } else {
        None
    }
}

/// Whether `bytes` start with `%` and two hexadecimal digits.
pub open spec fn starts_with_escape(bytes: Seq<u8>) -> bool {
    &&& bytes.len() >= 3
    &&& bytes[0] == PERCENT
    &&& hex_value(bytes[1]) is Some
    &&& hex_value(bytes[2]) is Some
}

/// `bytes` with each escape replaced by the byte that it stands for. A `%` that starts no escape
/// stands for itself.
pub open spec fn unescaped(bytes: Seq<u8>) -> Seq<u8>
    decreases bytes.len(),
{
    if bytes.len() == 0 {
        seq![]
    } else if starts_with_escape(bytes) {
        seq![(hex_value(bytes[1])->0 * 16 + hex_value(bytes[2])->0) as u8] + unescaped(bytes.skip(3))
    } else {
        seq![bytes[0]] + unescaped(bytes.skip(1))
    }
}

/// Whether a byte stands for itself in the path of a URI that is built here: RFC 3986's unreserved
/// set, the `/` between segments and the `:` of a Windows drive.
pub open spec fn stands_for_itself(byte: u8) -> bool {
    ||| is_letter(byte)
    ||| is_digit(byte)
    ||| byte == DASH
    ||| byte == DOT
    ||| byte == UNDERSCORE
    ||| byte == TILDE
    ||| byte == SLASH
    ||| byte == COLON
}

/// The hexadecimal digit, in upper case, whose value is `value`.
pub open spec fn hex_digit(value: u8) -> u8 {
    if value < 10 {
        (0x30 + value) as u8
    } else {
        (0x41 + value - 10) as u8
    }
}

pub open spec fn escaped_byte(byte: u8) -> Seq<u8> {
    if stands_for_itself(byte) {
        seq![byte]
    } else {
        seq![PERCENT, hex_digit(byte / 16), hex_digit(byte % 16)]
    }
}

/// `bytes` with everything escaped that does not stand for itself.
pub open spec fn escaped(bytes: Seq<u8>) -> Seq<u8>
    decreases bytes.len(),
{
    if bytes.len() == 0 {
        seq![]
    } else {
        escaped(bytes.drop_last()) + escaped_byte(bytes.last())
    }
}

/// `text` with each `\` turned to `/`.
pub open spec fn slashed(text: Seq<char>) -> Seq<char> {
    text.map_values(|c: char| slashed_char(c))
}

pub open spec fn slashed_char(c: char) -> char {
    if c == '\\' {
        '/'
    } else {
        c
    }
}

/// `text` behind a `/`, unless it starts with one.
pub open spec fn rooted(text: Seq<char>) -> Seq<char> {
    if text.len() > 0 && text[0] == '/' {
        text
    } else {
        seq!['/'] + text
    }
}

/// A path as text, with U+FFFD in place of what is none. On Windows that is a surrogate.
pub open spec fn path_text(path: PathView) -> Seq<char> {
    match path.style {
        PathStyle::Unix => lossy_text(path.bytes),
        PathStyle::Windows => lossy_text(without_surrogates(path.bytes)),
    }
}

/// The `file:` URI of a path: the path as text, with `/` between its components and before them,
/// escaped byte by byte.
pub open spec fn uri_of_path(path: PathView) -> Seq<char> {
    let text = rooted(slashed(path_text(path)));
    ascii_text(scheme() + escaped(encode_utf8(text)))
}

/// Whether text starts with a drive letter and its colon.
pub open spec fn drive_text(text: Seq<char>) -> bool {
    &&& text.len() >= 2
    &&& ('a' <= text[0] <= 'z' || 'A' <= text[0] <= 'Z')
    &&& text[1] == ':'
}

/// The path that the decoded text of a URI stands for. Windows spells a drive as `/C:/…` in a URI,
/// where the leading slash is not part of the path.
pub open spec fn decoded_path(text: Seq<char>) -> Seq<char> {
    if text.len() > 0 && text[0] == '/' && drive_text(text.skip(1)) {
        text.skip(1)
    } else {
        text
    }
}

/// Whether a URI is local: `file://`, no host, and an absolute path.
pub open spec fn is_local(uri: Seq<u8>) -> bool {
    &&& uri.len() > scheme().len()
    &&& uri.take(scheme().len() as int) == scheme()
    &&& uri[scheme().len() as int] == SLASH
}

/// The text that a percent-encoded text stands for.
pub open spec fn decoded(text: Seq<u8>) -> Seq<char> {
    lossy_text(unescaped(text))
}

/// The bytes of the path that a URI names, if it names a local one.
pub open spec fn path_of_uri(uri: Seq<char>) -> Option<Seq<u8>> {
    let bytes = encode_utf8(uri);
    if is_local(bytes) {
        let text = decoded(bytes.skip(scheme().len() as int));
        Some(encode_utf8(decoded_path(text)))
    } else {
        None
    }
}

/// The local path a `file:` URI refers to, or `None` for any other scheme or a remote authority.
/// `style` says how the system reads paths.
pub fn to_path(uri: &Uri, style: PathStyle) -> (path: Option<FilePath>)
    ensures
        (match path {
            Some(path) => Some(path@),
            None => None,
        }) == (match path_of_uri(uri@) {
            Some(bytes) => Some(PathView { bytes, style }),
            None => None,
        }),
{
    let bytes = uri.0.as_str().as_bytes();
    if !is_local_uri(bytes) {
        return None;
    }
    let text = decode_bytes(slice_subrange(bytes, 7, bytes.len()));
    assert(bytes@.subrange(7, bytes@.len() as int) =~= bytes@.skip(scheme().len() as int));
    let decoded = text.as_str();
    let count = decoded.unicode_len();
    if count > 0 && decoded.get_char(0) == '/' {
        let tail = decoded.substring_char(1, count);
        assert(tail@ =~= decoded@.skip(1));
        if is_windows_drive(tail) {
            return Some(FilePath::new(tail, style));
        }
    }
    Some(FilePath::new(decoded, style))
}

fn is_local_uri(uri: &[u8]) -> (local: bool)
    ensures
        local == is_local(uri@),
{
    if uri.len() > 7 && uri[0] == 0x66 && uri[1] == 0x69 && uri[2] == 0x6c && uri[3] == 0x65
        && uri[4] == COLON && uri[5] == SLASH && uri[6] == SLASH {
        assert(uri@.take(7) =~= scheme());
        uri[7] == SLASH
    } else {
        proof {
            if uri@.len() > 7 && uri@.take(7) == scheme() {
                assert(uri@[0] == uri@.take(7)[0]);
                assert(uri@[1] == uri@.take(7)[1]);
                assert(uri@[2] == uri@.take(7)[2]);
                assert(uri@[3] == uri@.take(7)[3]);
                assert(uri@[4] == uri@.take(7)[4]);
                assert(uri@[5] == uri@.take(7)[5]);
                assert(uri@[6] == uri@.take(7)[6]);
            }
        }
        false
    }
}

/// Whether a path starts with a drive letter and its colon.
pub fn is_windows_drive(path: &str) -> (drive: bool)
    ensures
        drive == drive_text(path@),
{
    if path.unicode_len() < 2 {
        return false;
    }
    let first = path.get_char(0);
    (('a' <= first && first <= 'z') || ('A' <= first && first <= 'Z')) && path.get_char(1) == ':'
}

/// Decode `%XX` escapes. A malformed escape is kept verbatim rather than dropped, so a path that was
/// never encoded in the first place still round-trips.
pub fn percent_decode(input: &str) -> (text: String)
    ensures
        text@ == decoded(encode_utf8(input@)),
{
    decode_bytes(input.as_bytes())
}

fn decode_bytes(bytes: &[u8]) -> (text: String)
    ensures
        text@ == decoded(bytes@),
{
    let mut out: Vec<u8> = Vec::new();
    let mut i: usize = 0;
    assert(bytes@.skip(0) =~= bytes@);
    while i < bytes.len()
        invariant
            i <= bytes.len(),
            out@ + unescaped(bytes@.skip(i as int)) == unescaped(bytes@),
        decreases bytes.len() - i,
    {
        let ghost before = out@;
        match escape_at(bytes, i) {
            Some(byte) => {
                out.push(byte);
                assert(bytes@.skip(i as int).skip(3) =~= bytes@.skip(i + 3));
                i += 3;
            },
            None => {
                out.push(bytes[i]);
                assert(bytes@.skip(i as int).skip(1) =~= bytes@.skip(i + 1));
                i += 1;
            },
        }
        assert(out@ =~= before.push(out@.last()));
        assert(out@ + unescaped(bytes@.skip(i as int)) =~= before + (seq![out@.last()] + unescaped(
            bytes@.skip(i as int),
        )));
    }
    assert(bytes@.skip(i as int) =~= seq![]);
    assert(out@ =~= unescaped(bytes@));
    from_utf8_lossy(out.as_slice())
}

/// The byte that the escape at `i` stands for, if one starts there.
fn escape_at(bytes: &[u8], i: usize) -> (byte: Option<u8>)
    requires
        i < bytes@.len(),
    ensures
        ({
            let rest = bytes@.skip(i as int);
            byte == if starts_with_escape(rest) {
                Some((hex_value(rest[1])->0 * 16 + hex_value(rest[2])->0) as u8)
            } else {
                None::<u8>
            }
        }),
{
    if bytes[i] != PERCENT || bytes.len() - i < 3 {
        return None;
    }
    match (hex(bytes[i + 1]), hex(bytes[i + 2])) {
        (Some(high), Some(low)) => Some(high * 16 + low),
        _ => None,
    }
}

/// The value of a hexadecimal digit.
pub fn hex(byte: u8) -> (value: Option<u8>)
    ensures
        value == hex_value(byte),
        value matches Some(value) ==> value < 16,
{
    if digit(byte) {
        Some(byte - 0x30)
    } else if 0x61 <= byte && byte <= 0x66 {
        Some(byte - 0x61 + 10)
    } else if 0x41 <= byte && byte <= 0x46 {
        Some(byte - 0x41 + 10)
    } else {
        None
    }
}

/// The `file:` URI for a local path.
pub fn from_path(path: &FilePath) -> (uri: Uri)
    ensures
        uri@ == uri_of_path(path@),
{
    let text = match path.style() {
        PathStyle::Unix => from_utf8_lossy(path.as_bytes()),
        PathStyle::Windows => from_utf8_lossy(replace_surrogates(path.as_bytes()).as_slice()),
    };
    let bytes = text.as_str().as_bytes();
    let ghost slashes = encode_utf8(slashed(text@));
    let ghost whole = encode_utf8(rooted(slashed(text@)));
    let mut uri: String = "file://".to_string();
    let ghost mut done: Seq<u8> = seq![];
    proof {
        reveal_strlit("file://");
        assert(uri@ =~= ascii_text(scheme()));
        lemma_encode_slashed(text@);
        lemma_encode_slash(slashed(text@));
        lemma_starts_with_slash(slashed(text@));
    }
    if bytes.len() == 0 || (bytes[0] != SLASH && bytes[0] != BACKSLASH) {
        uri.push('/');
        proof {
            done = done.push(SLASH);
            assert(done.drop_last() =~= seq![]);
            assert(escaped(seq![]) =~= seq![]);
        }
    }
    let ghost prefix = done;
    assert(uri@ =~= ascii_text(scheme() + escaped(done)));
    assert(whole =~= prefix + slashes);
    let mut i: usize = 0;
    while i < bytes.len()
        invariant
            i <= bytes.len(),
            bytes@.len() == slashes.len(),
            forall|j: int|
                0 <= j < bytes@.len() ==> #[trigger] slashes[j] == slashed_byte(bytes@[j]),
            done == prefix + slashes.take(i as int),
            uri@ == ascii_text(scheme() + escaped(done)),
        decreases bytes.len() - i,
    {
        let byte = if bytes[i] == BACKSLASH {
            SLASH
        } else {
            bytes[i]
        };
        assert(byte == slashes[i as int]);
        let ghost before = uri@;
        if is_unreserved(byte) {
            uri.push(byte as char);
        } else {
            uri.push('%');
            uri.push(upper_hex(byte / 16) as char);
            uri.push(upper_hex(byte % 16) as char);
        }
        proof {
            let next = done.push(byte);
            assert(next.drop_last() =~= done);
            assert(uri@ =~= before + ascii_text(escaped_byte(byte)));
            assert(scheme() + escaped(next) =~= scheme() + escaped(done) + escaped_byte(byte));
            assert(uri@ =~= ascii_text(scheme() + escaped(next)));
            assert(next =~= prefix + slashes.take(i + 1));
            done = next;
        }
        i += 1;
    }
    assert(done =~= whole);
    Uri(uri)
}

/// Characters that survive a URI path segment unescaped: RFC 3986's unreserved set, plus the `/`
/// separating segments and the `:` of a Windows drive.
pub fn is_unreserved(byte: u8) -> (unreserved: bool)
    ensures
        unreserved == stands_for_itself(byte),
{
    letter(byte) || digit(byte) || byte == DASH || byte == DOT || byte == UNDERSCORE || byte
        == TILDE || byte == SLASH || byte == COLON
}

fn upper_hex(value: u8) -> (byte: u8)
    requires
        value < 16,
    ensures
        byte == hex_digit(value),
{
    if value < 10 {
        0x30 + value
    } else {
        0x41 + (value - 10)
    }
}

spec fn slashed_byte(byte: u8) -> u8 {
    if byte == BACKSLASH {
        SLASH
    } else {
        byte
    }
}

/// An ASCII character is encoded as itself, and any other as bytes outside ASCII.
pub proof fn lemma_encode_scalar(c: char)
    ensures
        (c as int) < 0x80 ==> encode_scalar(c as u32) == seq![c as u8],
        (c as int) < 0x80 ==> c as u8 == c as int,
        (c as int) >= 0x80 ==> encode_scalar(c as u32).len() > 0,
        (c as int) >= 0x80 ==> forall|i: int|
            0 <= i < encode_scalar(c as u32).len()
                ==> #[trigger] encode_scalar(c as u32)[i] >= 0x80,
{
    let v = c as u32;
    char_is_scalar(c);
    assert(v <= 0x7f ==> (v & 0x7f) as u8 == v) by (bit_vector);
    assert((0xC0u8 | ((v >> 6) & 0x1F) as u8) >= 0x80) by (bit_vector);
    assert((0xE0u8 | ((v >> 12) & 0x0F) as u8) >= 0x80) by (bit_vector);
    assert((0xF0u8 | ((v >> 18) & 0x7) as u8) >= 0x80) by (bit_vector);
    assert((0x80u8 | (v & 0x3F) as u8) >= 0x80) by (bit_vector);
    assert((0x80u8 | ((v >> 6) & 0x3F) as u8) >= 0x80) by (bit_vector);
    assert((0x80u8 | ((v >> 12) & 0x3F) as u8) >= 0x80) by (bit_vector);
}

/// Turning slashes in text turns them in its encoding and leaves the rest of it alone.
proof fn lemma_encode_slashed(text: Seq<char>)
    ensures
        encode_utf8(slashed(text)) == encode_utf8(text).map_values(
            |byte: u8| slashed_byte(byte),
        ),
    decreases text.len(),
{
    if text.len() > 0 {
        let rest = text.drop_first();
        lemma_encode_slashed(rest);
        lemma_encode_scalar(text[0]);
        assert(slashed(text).drop_first() =~= slashed(rest));
        let head = encode_scalar(text[0] as u32);
        let turned = encode_scalar(slashed_char(text[0]) as u32);
        lemma_encode_scalar(slashed_char(text[0]));
        assert(turned =~= head.map_values(|byte: u8| slashed_byte(byte)));
    }
    assert(encode_utf8(slashed(text)) =~= encode_utf8(text).map_values(
        |byte: u8| slashed_byte(byte),
    ));
}

/// A slash before text is a slash before its encoding.
pub proof fn lemma_encode_slash(text: Seq<char>)
    ensures
        encode_utf8(seq!['/'] + text) == seq![SLASH] + encode_utf8(text),
{
    lemma_encode_scalar('/');
    assert((seq!['/'] + text).drop_first() =~= text);
}

/// Text starts with a slash if and only if its encoding does.
pub proof fn lemma_starts_with_slash(text: Seq<char>)
    ensures
        (text.len() > 0 && text[0] == '/') <==> (encode_utf8(text).len() > 0
            && encode_utf8(text)[0] == SLASH),
{
    if text.len() > 0 {
        let c = text[0];
        lemma_encode_scalar(c);
        let head = encode_scalar(c as u32);
        assert(encode_utf8(text)[0] == head[0]);
    }
}

/// Escaping is undone by unescaping, whatever the bytes and whatever follows them.
pub proof fn unescaping_undoes_escaping(bytes: Seq<u8>, rest: Seq<u8>)
    ensures
        unescaped(escaped(bytes) + rest) == bytes + unescaped(rest),
    decreases bytes.len(),
{
    if bytes.len() == 0 {
        assert(escaped(bytes) + rest =~= rest);
        assert(bytes + unescaped(rest) =~= unescaped(rest));
    } else {
        let byte = bytes.last();
        let tail = escaped_byte(byte) + rest;
        assert(escaped(bytes) + rest =~= escaped(bytes.drop_last()) + tail);
        unescaping_undoes_escaping(bytes.drop_last(), tail);
        if stands_for_itself(byte) {
            assert(tail.skip(1) =~= rest);
        } else {
            assert(tail.skip(3) =~= rest);
            let high = byte / 16;
            let low = byte % 16;
            assert(high < 16 && low < 16);
            assert(hex_value(hex_digit(high)) == Some(high));
            assert(hex_value(hex_digit(low)) == Some(low));
            assert(high * 16 + low == byte);
        }
        assert(unescaped(tail) =~= seq![byte] + unescaped(rest));
        assert(bytes + unescaped(rest) =~= bytes.drop_last() + (seq![byte] + unescaped(rest)));
    }
}

/// Text that holds no well-formed escape stands for itself: a path that was never encoded, or one
/// whose escapes are all malformed, is read verbatim.
pub proof fn text_without_escapes_is_verbatim(bytes: Seq<u8>)
    requires
        forall|i: int| 0 <= i < bytes.len() ==> !starts_with_escape(#[trigger] bytes.skip(i)),
    ensures
        unescaped(bytes) == bytes,
    decreases bytes.len(),
{
    if bytes.len() > 0 {
        let rest = bytes.skip(1);
        assert(bytes.skip(0) =~= bytes);
        assert forall|i: int| 0 <= i < rest.len() implies !starts_with_escape(
            #[trigger] rest.skip(i),
        ) by {
            assert(rest.skip(i) =~= bytes.skip(i + 1));
        }
        text_without_escapes_is_verbatim(rest);
        assert(seq![bytes[0]] + rest =~= bytes);
    }
    assert(unescaped(bytes) =~= bytes);
}

/// What a URI's path is spelled like does not matter, only what it decodes to.
pub proof fn spellings_that_decode_alike_name_one_path(a: Seq<char>, b: Seq<char>)
    requires
        is_local(encode_utf8(a)),
        is_local(encode_utf8(b)),
        unescaped(encode_utf8(a).skip(scheme().len() as int)) == unescaped(
            encode_utf8(b).skip(scheme().len() as int),
        ),
    ensures
        path_of_uri(a) is Some,
        path_of_uri(a) == path_of_uri(b),
{
}

/// Bytes below 0x80 are the encoding of the text they spell.
pub proof fn lemma_encode_ascii(bytes: Seq<u8>)
    requires
        forall|i: int| 0 <= i < bytes.len() ==> #[trigger] bytes[i] < 0x80,
    ensures
        encode_utf8(ascii_text(bytes)) == bytes,
{
    let text = ascii_text(bytes);
    assert forall|i: int| 0 <= i < text.len() implies '\0' <= #[trigger] text[i] <= '\u{7f}' by {
        assert(text[i] == bytes[i] as char);
        assert(bytes[i] < 0x80);
    }
    is_ascii_chars_encode_utf8(text);
    assert forall|i: int| 0 <= i < bytes.len() implies encode_utf8(text)[i]
        == bytes[i] by {
        assert(text[i] as u8 == encode_utf8(text)[i]);
        assert(bytes[i] < 0x80);
    }
    assert(encode_utf8(text) =~= bytes);
}

/// Everything that is not ASCII is escaped, and a leading slash is not.
proof fn lemma_escaped(bytes: Seq<u8>)
    ensures
        forall|i: int| 0 <= i < escaped(bytes).len() ==> #[trigger] escaped(bytes)[i] < 0x80,
        bytes.len() > 0 ==> escaped(bytes).len() > 0,
        bytes.len() > 0 && bytes[0] == SLASH ==> escaped(bytes)[0] == SLASH,
    decreases bytes.len(),
{
    if bytes.len() > 0 {
        let init = bytes.drop_last();
        lemma_escaped(init);
        let last = escaped_byte(bytes.last());
        assert(forall|i: int| 0 <= i < last.len() ==> #[trigger] last[i] < 0x80);
        assert(escaped(bytes) =~= escaped(init) + last);
        if init.len() == 0 {
            assert(escaped(init) =~= seq![]);
        }
    }
}

/// Reading back the URI of a path gives the path as text, with `/` between its components, and
/// absolute unless it starts with a drive.
pub proof fn reading_back_a_path(path: PathView)
    ensures
        path_of_uri(uri_of_path(path)) == Some(
            encode_utf8(decoded_path(rooted(slashed(path_text(path))))),
        ),
{
    let text = rooted(slashed(path_text(path)));
    let bytes = encode_utf8(text);
    let spelled = scheme() + escaped(bytes);
    lemma_starts_with_slash(text);
    lemma_escaped(bytes);
    lemma_encode_ascii(spelled);
    assert(spelled.take(scheme().len() as int) =~= scheme());
    assert(spelled.skip(scheme().len() as int) =~= escaped(bytes));
    assert(is_local(spelled));
    unescaping_undoes_escaping(bytes, seq![]);
    assert(escaped(bytes) + seq![] =~= escaped(bytes));
    assert(bytes + unescaped(seq![]) =~= bytes);
    encode_utf8_valid_utf8(text);
    encode_utf8_decode_utf8(text);
}

/// A path in UTF-8 that holds no `\` comes back from its URI as it went in, if it is absolute (and
/// no drive letter follows its slash) or starts with a drive.
pub proof fn paths_round_trip(path: PathView)
    requires
        valid_utf8(path.bytes),
        !decode_utf8(path.bytes).contains('\\'),
        ({
            let text = decode_utf8(path.bytes);
            drive_text(text) || (text.len() > 0 && text[0] == '/' && !drive_text(text.skip(1)))
        }),
    ensures
        path_of_uri(uri_of_path(path)) == Some(path.bytes),
{
    let text = decode_utf8(path.bytes);
    reading_back_a_path(path);
    text_has_no_surrogates(path.bytes);
    assert(slashed(text) =~= text) by {
        assert forall|i: int| 0 <= i < text.len() implies slashed(text)[i] == text[i] by {
            assert(text.contains(text[i]));
        }
    }
    if drive_text(text) {
        assert((seq!['/'] + text).skip(1) =~= text);
    }
    assert(decoded_path(rooted(text)) == text);
    decode_utf8_encode_utf8(path.bytes);
}

/// Whether the URI of a path names the file that the path names.
pub open spec fn comes_back(path: PathView) -> bool {
    path_of_uri(uri_of_path(path)) matches Some(back) && components(
        PathView { bytes: back, style: path.style },
    ) == components(path)
}

/// A path on Windows, in UTF-8, comes back from its URI as the same file, whichever slashes it is
/// spelled with, if it starts with a drive, a share or at the root (and no drive letter follows its
/// slash). A verbatim path does not: its slashes cannot be turned.
pub proof fn windows_paths_come_back(path: Seq<u8>)
    requires
        valid_utf8(path),
        !is_verbatim(path),
        has_drive(path) || (path.len() > 0 && separator(Reading::Windows)(path[0]) && !has_drive(
            path.skip(1),
        )),
    ensures
        comes_back(PathView { bytes: path, style: PathStyle::Windows }),
{
    let text = decode_utf8(path);
    let turned = slashed(text);
    decode_utf8_encode_utf8(path);
    lemma_drive_text(text);
    lemma_drive_text(turned);
    lemma_encode_slashed(text);
    text_has_no_surrogates(path);
    reading_back_a_path(PathView { bytes: path, style: PathStyle::Windows });
    if has_drive(path) {
        assert(turned[0] == text[0] && turned[1] == text[1]);
        assert((seq!['/'] + turned).skip(1) =~= turned);
    } else {
        let rest = text.drop_first();
        lemma_encode_scalar(text[0]);
        assert(path[0] == encode_scalar(text[0] as u32)[0]);
        assert(path.skip(1) =~= encode_utf8(rest));
        lemma_drive_text(rest);
        assert(turned.skip(1) =~= slashed(rest));
        if rest.len() >= 2 {
            assert(slashed(rest)[0] == slashed_char(rest[0]));
            assert(slashed(rest)[1] == slashed_char(rest[1]));
        }
        assert(!drive_text(turned.skip(1)));
    }
    assert(same_but_for_slashes(path, encode_utf8(turned))) by {
        assert forall|i: int| 0 <= i < path.len() implies #[trigger] same_but_for_slash(
            path[i],
            encode_utf8(turned)[i],
        ) by {
            assert(encode_utf8(turned)[i] == slashed_byte(path[i]));
        }
    }
    assert(encode_utf8(turned).len() > 0 ==> encode_utf8(turned)[0] == slashed_byte(path[0]));
    slashes_separate_alike_on_windows(path, encode_utf8(turned));
}

/// Text starts with a drive if and only if its encoding does.
pub proof fn lemma_drive_text(text: Seq<char>)
    ensures
        drive_text(text) == has_drive(encode_utf8(text)),
{
    let bytes = encode_utf8(text);
    if text.len() > 0 {
        let rest = text.drop_first();
        let head = encode_scalar(text[0] as u32);
        lemma_encode_scalar(text[0]);
        assert(bytes == head + encode_utf8(rest));
        assert(bytes[0] == head[0]);
        if (text[0] as int) < 0x80 {
            assert(bytes.skip(1) =~= encode_utf8(rest));
            if rest.len() > 0 {
                lemma_encode_scalar(rest[0]);
                assert(rest[0] == text[1]);
                assert(encode_utf8(rest)[0] == encode_scalar(rest[0] as u32)[0]);
                assert(bytes[1] == bytes.skip(1)[0]);
            }
        }
    }
}

/// Every path has a URI that names a local file again.
pub proof fn every_path_has_a_local_uri(path: PathView)
    ensures
        path_of_uri(uri_of_path(path)) is Some,
{
    reading_back_a_path(path);
}

/// A URI that is built here holds nothing but characters that stand for themselves and `%`.
pub proof fn built_uris_are_plain(path: PathView)
    ensures
        forall|i: int|
            0 <= i < uri_of_path(path).len() ==> {
                let c = #[trigger] uri_of_path(path)[i];
                c == '%' || exists|byte: u8| #[trigger]
                    stands_for_itself(byte) && c == byte as char
            },
{
    let bytes = encode_utf8(rooted(slashed(path_text(path))));
    lemma_escaped_is_plain(bytes);
    let spelled = scheme() + escaped(bytes);
    assert forall|i: int| 0 <= i < uri_of_path(path).len() implies {
        let c = #[trigger] uri_of_path(path)[i];
        c == '%' || exists|byte: u8| #[trigger] stands_for_itself(byte) && c == byte as char
    } by {
        let byte = spelled[i];
        assert(uri_of_path(path)[i] == byte as char);
        if i >= scheme().len() {
            assert(byte == escaped(bytes)[i - scheme().len()]);
        }
        if byte != PERCENT {
            assert(stands_for_itself(byte));
        }
    }
}

proof fn lemma_escaped_is_plain(bytes: Seq<u8>)
    ensures
        forall|i: int|
            0 <= i < escaped(bytes).len() ==> #[trigger] escaped(bytes)[i] == PERCENT
                || stands_for_itself(escaped(bytes)[i]),
    decreases bytes.len(),
{
    if bytes.len() > 0 {
        lemma_escaped_is_plain(bytes.drop_last());
        let last = escaped_byte(bytes.last());
        assert(forall|i: int|
            0 <= i < last.len() ==> #[trigger] last[i] == PERCENT || stands_for_itself(last[i]));
        assert(escaped(bytes) =~= escaped(bytes.drop_last()) + last);
    }
}

/// Two URIs whose paths decode to the same but for the case of a drive letter name one file. `tail`
/// is what follows the colon of the drive.
pub proof fn drive_letter_case_does_not_matter(
    a: Seq<char>,
    b: Seq<char>,
    x: u8,
    y: u8,
    tail: Seq<u8>,
    style: PathStyle,
)
    requires
        is_local(encode_utf8(a)),
        is_local(encode_utf8(b)),
        unescaped(encode_utf8(a).skip(scheme().len() as int)) == seq![SLASH, x, COLON] + tail,
        unescaped(encode_utf8(b).skip(scheme().len() as int)) == seq![SLASH, y, COLON] + tail,
        is_letter(x),
        is_letter(y),
        upper_case(x) == upper_case(y),
    ensures
        path_of_uri(a) is Some,
        path_of_uri(b) is Some,
        components(PathView { bytes: path_of_uri(a)->0, style }) == components(
            PathView { bytes: path_of_uri(b)->0, style },
        ),
{
    lemma_drive_path(x, tail);
    lemma_drive_path(y, tail);
    let rest = encode_utf8(lossy_text(tail));
    let first = seq![x, COLON] + rest;
    let second = seq![y, COLON] + rest;
    assert(first.skip(1) =~= second.skip(1));
    drive_letter_case_names_one_file(
        PathView { bytes: first, style },
        PathView { bytes: second, style },
    );
}

/// The slash before a drive is not part of the path.
proof fn lemma_drive_path(drive: u8, tail: Seq<u8>)
    requires
        is_letter(drive),
    ensures
        encode_utf8(decoded_path(lossy_text(seq![SLASH, drive, COLON] + tail))) == seq![drive, COLON]
            + encode_utf8(lossy_text(tail)),
{
    let letter = drive as char;
    let behind_drive = seq![COLON] + tail;
    let behind_slash = seq![drive] + behind_drive;
    let rest = lossy_text(tail);
    let colon = seq![':'] + rest;
    let path = seq![letter] + colon;
    let text = seq!['/'] + path;
    lemma_lossy_ascii(COLON, tail);
    lemma_lossy_ascii(drive, behind_drive);
    lemma_lossy_ascii(SLASH, behind_slash);
    assert(seq![SLASH] + behind_slash =~= seq![SLASH, drive, COLON] + tail);
    assert(lossy_text(seq![SLASH, drive, COLON] + tail) == text);
    lemma_encode_scalar(':');
    assert(colon.drop_first() =~= rest);
    assert(encode_utf8(colon) =~= seq![COLON] + encode_utf8(rest));
    lemma_encode_scalar(letter);
    assert(path.drop_first() =~= colon);
    assert(encode_utf8(path) =~= seq![drive, COLON] + encode_utf8(rest));
    assert(text.skip(1) =~= path);
    assert(drive_text(path));
}

/// An ASCII byte stands for itself, whatever comes behind it.
proof fn lemma_lossy_ascii(byte: u8, rest: Seq<u8>)
    requires
        byte < 0x80,
    ensures
        lossy_text(seq![byte] + rest) == seq![byte as char] + lossy_text(rest),
{
    let whole = seq![byte] + rest;
    assert(byte < 0x80 ==> (byte & 0x7f) as u32 == byte) by (bit_vector);
    assert(whole[0] == byte);
    assert(valid_first_scalar(whole));
    lemma_lossy_scalar(whole);
    assert(pop_first_scalar(whole) =~= rest);
    assert(decode_first_scalar(whole) as char == byte as char);
}

} // verus!
