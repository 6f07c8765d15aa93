//! Which path a URI names, and which URI a path has.
use crate::ascii::{is_digit, is_letter};
use crate::path::{PathStyle, PathView};
use crate::text::{
    ascii_text, lemma_lossy_scalar, lossy_text, text_has_no_surrogates, utf8_lossy,
    without_surrogates,
};
use crate::uri::{
    Uri, decoded, drive_text, escaped, escaped_byte, hex_digit, hex_value, is_local,
    lemma_encode_ascii, lemma_encode_scalar, lemma_starts_with_slash, path_of_uri, path_text, scheme,
    slashed, stands_for_itself, starts_with_escape, text_without_escapes_is_verbatim, unescaped,
    uri_of_path,
};
use vstd::prelude::*;
use vstd::utf8::*;

verus! {

/// The view of a URI is its text.
pub proof fn uris_are_text(uri: Uri)
    ensures
        uri@ == uri.0@,
{
}

// Escapes.

/// A hexadecimal digit has its value in either case, and nothing else has one.
pub proof fn hexadecimal_digits_have_values(byte: u8)
    ensures
        '0' <= byte as char <= '9' ==> hex_value(byte) == Some((byte - '0' as int) as u8),
        'a' <= byte as char <= 'f' ==> hex_value(byte) == Some((byte - 'a' as int + 10) as u8),
        'A' <= byte as char <= 'F' ==> hex_value(byte) == Some((byte - 'A' as int + 10) as u8),
        !('0' <= byte as char <= '9') && !('a' <= byte as char <= 'f') && !('A' <= byte as char
            <= 'F') ==> hex_value(byte) is None,
{
}

/// A byte that is not `%` is read as itself.
pub proof fn other_bytes_are_read_as_they_stand(byte: u8, rest: Seq<u8>)
    requires
        byte as char != '%',
    ensures
        unescaped(seq![byte] + rest) == seq![byte] + unescaped(rest),
        unescaped(seq![]) == Seq::<u8>::empty(),
{
    let whole = seq![byte] + rest;
    assert(whole[0] == byte);
    assert(whole.skip(1) =~= rest);
}

/// A `%` and two hexadecimal digits are read as the byte that they spell, high digit first.
pub proof fn escapes_are_read_as_bytes(high: u8, low: u8, rest: Seq<u8>)
    requires
        hex_value(high) is Some,
        hex_value(low) is Some,
    ensures
        unescaped(seq![0x25u8, high, low] + rest) == seq![
            (16 * hex_value(high)->0 + hex_value(low)->0) as u8,
        ] + unescaped(rest),
{
    let whole = seq![0x25u8, high, low] + rest;
    assert(whole[0] == 0x25 && whole[1] == high && whole[2] == low);
    assert(whole.skip(3) =~= rest);
}

/// A `%` without two hexadecimal digits behind it is read as itself.
pub proof fn malformed_escapes_are_read_as_they_stand(rest: Seq<u8>)
    requires
        rest.len() < 2 || hex_value(rest[0]) is None || hex_value(rest[1]) is None,
    ensures
        unescaped(seq![0x25u8] + rest) == seq![0x25u8] + unescaped(rest),
{
    let whole = seq![0x25u8] + rest;
    if rest.len() >= 2 {
        assert(whole[1] == rest[0] && whole[2] == rest[1]);
    }
    assert(whole.skip(1) =~= rest);
}

/// Escaping goes byte by byte.
pub proof fn bytes_are_escaped_in_order(a: Seq<u8>, b: Seq<u8>)
    ensures
        escaped(seq![]) == Seq::<u8>::empty(),
        escaped(a + b) == escaped(a) + escaped(b),
    decreases b.len(),
{
    if b.len() == 0 {
        assert(a + b =~= a);
    } else {
        bytes_are_escaped_in_order(a, b.drop_last());
        assert((a + b).drop_last() =~= a + b.drop_last());
        assert((a + b).last() == b.last());
    }
    assert(escaped(a + b) =~= escaped(a) + escaped(b));
}

/// Letters, digits and `-._~/:` stand for themselves. Every other byte is `%` and its two digits,
/// in upper case.
pub proof fn plain_bytes_are_not_escaped(byte: u8)
    ensures
        stands_for_itself(byte) <==> (is_letter(byte) || is_digit(byte) || byte as char == '-'
            || byte as char == '.' || byte as char == '_' || byte as char == '~' || byte as char
            == '/' || byte as char == ':'),
        stands_for_itself(byte) ==> escaped(seq![byte]) == seq![byte],
        !stands_for_itself(byte) ==> {
            let spelled = escaped(seq![byte]);
            &&& spelled.len() == 3
            &&& spelled[0] as char == '%'
            &&& hex_value(spelled[1]) == Some((byte / 16) as u8)
            &&& hex_value(spelled[2]) == Some((byte % 16) as u8)
            &&& !('a' <= spelled[1] as char <= 'f')
            &&& !('a' <= spelled[2] as char <= 'f')
        },
{
    let one = seq![byte];
    assert(one.drop_last() =~= seq![]);
    assert(one.last() == byte);
    reveal_with_fuel(escaped, 2);
    assert(escaped(one) =~= escaped_byte(byte));
    let high = byte / 16;
    let low = byte % 16;
    assert(high < 16 && low < 16);
    assert(hex_value(hex_digit(high)) == Some(high));
    assert(hex_value(hex_digit(low)) == Some(low));
}

/// Decoding reads the escapes and then the bytes as text.
pub proof fn decoding_reads_escapes_and_then_text(bytes: Seq<u8>)
    ensures
        decoded(bytes) == lossy_text(unescaped(bytes)),
        valid_utf8(unescaped(bytes)) ==> decoded(bytes) == decode_utf8(unescaped(bytes)),
{
}

/// Bytes are read character by character, as long as they hold one. The first that do not are read
/// as what the decoder puts in their place.
pub proof fn bytes_are_read_character_by_character(bytes: Seq<u8>)
    ensures
        bytes.len() == 0 ==> lossy_text(bytes) == Seq::<char>::empty(),
        valid_first_scalar(bytes) ==> lossy_text(bytes) == seq![
            decode_first_scalar(bytes) as char,
        ] + lossy_text(pop_first_scalar(bytes)),
        bytes.len() > 0 && !valid_first_scalar(bytes) ==> lossy_text(bytes) == utf8_lossy(bytes),
{
    if valid_first_scalar(bytes) {
        lemma_lossy_scalar(bytes);
    } else if bytes.len() > 0 {
        assert(bytes.take(0) =~= seq![]);
        assert(bytes.skip(0) =~= bytes);
        assert(decode_utf8(bytes.take(0)) =~= seq![]);
        assert(lossy_text(bytes) =~= utf8_lossy(bytes));
    }
}

// Paths of URIs.

proof fn lemma_encode_concatenated(a: Seq<char>, b: Seq<char>)
    ensures
        encode_utf8(a + b) == encode_utf8(a) + encode_utf8(b),
    decreases a.len(),
{
    if a.len() == 0 {
        assert(a + b =~= b);
    } else {
        lemma_encode_concatenated(a.drop_first(), b);
        assert((a + b).drop_first() =~= a.drop_first() + b);
        assert((a + b)[0] == a[0]);
    }
    assert(encode_utf8(a + b) =~= encode_utf8(a) + encode_utf8(b));
}

/// The scheme is `file` and an empty authority.
pub proof fn the_scheme_is_file()
    ensures
        scheme() == encode_utf8("file://"@),
        ascii_text(scheme()) == "file://"@,
{
    reveal_strlit("file://");
    assert(ascii_text(scheme()) =~= "file://"@);
    lemma_encode_ascii(scheme());
}

/// Whether text is a letter and a colon and what may follow.
pub open spec fn is_drive_and_more(text: Seq<char>) -> bool {
    text.len() >= 2 && ('a' <= text[0] <= 'z' || 'A' <= text[0] <= 'Z') && text[1] == ':'
}

/// A drive is one letter and a colon.
pub proof fn drives_are_letters_and_colons(text: Seq<char>)
    ensures
        drive_text(text) <==> is_drive_and_more(text),
{
}

/// What a decoded path is without the slash that a drive has before it.
pub open spec fn without_slash_before_drive(text: Seq<char>) -> Seq<char> {
    if text.len() > 0 && text[0] == '/' && is_drive_and_more(text.drop_first()) {
        text.drop_first()
    } else {
        text
    }
}

/// `file://` and a path from the root name that path, decoded, without the slash before a drive.
pub proof fn local_uris_name_decoded_paths(path: Seq<char>)
    requires
        path.len() > 0,
        path[0] == '/',
    ensures
        path_of_uri("file://"@ + path) == Some(
            encode_utf8(without_slash_before_drive(lossy_text(unescaped(encode_utf8(path))))),
        ),
{
    let uri = encode_utf8("file://"@ + path);
    the_scheme_is_file();
    lemma_encode_concatenated("file://"@, path);
    lemma_starts_with_slash(path);
    assert(uri.take(scheme().len() as int) =~= scheme());
    assert(uri.skip(scheme().len() as int) =~= encode_utf8(path));
    assert(uri[scheme().len() as int] == encode_utf8(path)[0]);
    let text = lossy_text(unescaped(encode_utf8(path)));
    if text.len() > 0 {
        assert(text.skip(1) =~= text.drop_first());
    }
}

/// A path that was never encoded and holds no `%` is read as it stands.
pub proof fn unencoded_paths_are_read_as_they_stand(path: Seq<char>)
    requires
        path.len() > 0,
        path[0] == '/',
        forall|i: int| 0 <= i < encode_utf8(path).len() ==> #[trigger] encode_utf8(path)[i] != 0x25,
    ensures
        path_of_uri("file://"@ + path) == Some(encode_utf8(without_slash_before_drive(path))),
{
    let bytes = encode_utf8(path);
    local_uris_name_decoded_paths(path);
    assert forall|i: int| 0 <= i < bytes.len() implies !starts_with_escape(
        #[trigger] bytes.skip(i),
    ) by {
        assert(bytes.skip(i)[0] == bytes[i]);
    }
    text_without_escapes_is_verbatim(bytes);
    encode_utf8_valid_utf8(path);
    encode_utf8_decode_utf8(path);
}

/// Anything else names no local path: another scheme, a host, or no path from the root.
pub proof fn other_uris_name_nothing(uri: Seq<char>)
    requires
        !(exists|path: Seq<char>|
            #![trigger "file://"@ + path]
            path.len() > 0 && path[0] == '/' && uri == "file://"@ + path),
    ensures
        path_of_uri(uri) is None,
{
    let bytes = encode_utf8(uri);
    if is_local(bytes) {
        the_scheme_is_file();
        reveal_strlit("file://");
        let path = lemma_ascii_front(uri, "file://"@);
        assert(uri == "file://"@ + path);
        lemma_encode_concatenated("file://"@, path);
        let rest = encode_utf8(path);
        assert(rest =~= bytes.skip(scheme().len() as int));
        assert(rest[0] == bytes[scheme().len() as int]);
        lemma_starts_with_slash(path);
    }
}

/// Text whose encoding starts with that of ASCII starts with that ASCII.
proof fn lemma_ascii_front(text: Seq<char>, front: Seq<char>) -> (rest: Seq<char>)
    requires
        forall|i: int| 0 <= i < front.len() ==> (#[trigger] front[i] as int) < 0x80,
        encode_utf8(front).len() <= encode_utf8(text).len(),
        encode_utf8(text).take(encode_utf8(front).len() as int) == encode_utf8(front),
    ensures
        text == front + rest,
    decreases front.len(),
{
    if front.len() == 0 {
        assert(front + text =~= text);
        text
    } else {
        let c = front[0];
        lemma_encode_scalar(c);
        assert((c as int) < 0x80);
        let more = front.drop_first();
        assert(encode_utf8(front) == encode_scalar(c as u32) + encode_utf8(more));
        let bytes = encode_utf8(text);
        assert(encode_utf8(front)[0] == c as u8);
        assert(bytes[0] == bytes.take(encode_utf8(front).len() as int)[0]);
        let d = text[0];
        lemma_encode_scalar(d);
        let tail = text.drop_first();
        assert(bytes == encode_scalar(d as u32) + encode_utf8(tail));
        assert(bytes[0] == encode_scalar(d as u32)[0]);
        assert(c == d);
        assert(encode_utf8(tail) =~= bytes.skip(1));
        assert(encode_utf8(more) =~= encode_utf8(front).skip(1));
        assert(encode_utf8(tail).take(encode_utf8(more).len() as int) =~= encode_utf8(more)) by {
            assert forall|i: int| 0 <= i < encode_utf8(more).len() implies encode_utf8(tail)[i]
                == encode_utf8(more)[i] by {
                assert(encode_utf8(tail)[i] == bytes[i + 1]);
                assert(bytes.take(encode_utf8(front).len() as int)[i + 1] == bytes[i + 1]);
                assert(encode_utf8(more)[i] == encode_utf8(front)[i + 1]);
            }
        }
        assert forall|i: int| 0 <= i < more.len() implies (#[trigger] more[i] as int) < 0x80 by {
            assert(more[i] == front[i + 1]);
        }
        let rest = lemma_ascii_front(tail, more);
        assert(text.len() > 0);
        assert(text =~= seq![d] + tail);
        assert(front =~= seq![c] + more);
        assert(seq![c] + (more + rest) =~= front + rest);
        rest
    }
}

// URIs of paths.

/// The text of a path that is UTF-8 is what it encodes, on every system.
pub proof fn paths_in_utf8_are_their_text(path: PathView)
    ensures
        valid_utf8(path.bytes) ==> path_text(path) == decode_utf8(path.bytes),
        path.style == PathStyle::Unix ==> path_text(path) == lossy_text(path.bytes),
        path.style == PathStyle::Windows ==> path_text(path) == lossy_text(
            without_surrogates(path.bytes),
        ),
{
    if valid_utf8(path.bytes) {
        text_has_no_surrogates(path.bytes);
    }
}

/// A surrogate, in three bytes, is replaced by U+FFFD, and any other byte is left alone.
pub proof fn surrogates_are_replaced_one_by_one(a: u8, b: u8, c: u8, rest: Seq<u8>)
    ensures
        without_surrogates(seq![]) == Seq::<u8>::empty(),
        a == 0xed && 0xa0 <= b <= 0xbf && 0x80 <= c <= 0xbf ==> without_surrogates(
            seq![a, b, c] + rest,
        ) == encode_utf8(seq!['\u{FFFD}']) + without_surrogates(rest),
        a != 0xed ==> without_surrogates(seq![a] + rest) == seq![a] + without_surrogates(rest),
        !(rest.len() >= 2 && 0xa0 <= rest[0] <= 0xbf && 0x80 <= rest[1] <= 0xbf)
            ==> without_surrogates(seq![a] + rest) == seq![a] + without_surrogates(rest),
{
    let three = seq![a, b, c] + rest;
    let one = seq![a] + rest;
    assert(three[0] == a && three[1] == b && three[2] == c);
    assert(three.skip(3) =~= rest);
    assert(one[0] == a);
    assert(one.skip(1) =~= rest);
    if rest.len() >= 2 {
        assert(one[1] == rest[0] && one[2] == rest[1]);
    }
    let replacement = seq!['\u{FFFD}'];
    let none: Seq<char> = seq![];
    assert(replacement.drop_first() =~= none);
    reveal_with_fuel(encode_utf8, 2);
    let v = '\u{FFFD}' as u32;
    assert(v == 0xfffd);
    assert((0xE0u8 | ((0xfffdu32 >> 12) & 0x0F) as u8) == 0xef) by (bit_vector);
    assert((0x80u8 | ((0xfffdu32 >> 6) & 0x3F) as u8) == 0xbf) by (bit_vector);
    assert((0x80u8 | (0xfffdu32 & 0x3F) as u8) == 0xbd) by (bit_vector);
    assert(encode_utf8(replacement) =~= seq![0xefu8, 0xbfu8, 0xbdu8]);
}

/// Whether `turned` is `text` with each `\` as `/`.
pub open spec fn is_turned(text: Seq<char>, turned: Seq<char>) -> bool {
    turned.len() == text.len() && forall|i: int|
        0 <= i < text.len() ==> #[trigger] turned[i] == if text[i] == '\\' {
            '/'
        } else {
            text[i]
        }
}

/// The URI of a path is `file://` and the path's text, with each `\` as `/` and a `/` before it if it
/// has none, escaped.
pub proof fn uris_are_built_from_text(path: PathView, turned: Seq<char>)
    requires
        is_turned(path_text(path), turned),
    ensures
        uri_of_path(path) == "file://"@ + ascii_text(
            escaped(
                encode_utf8(
                    if turned.len() > 0 && turned[0] == '/' {
                        turned
                    } else {
                        seq!['/'] + turned
                    },
                ),
            ),
        ),
{
    assert(slashed(path_text(path)) =~= turned);
    the_scheme_is_file();
    let text = if turned.len() > 0 && turned[0] == '/' {
        turned
    } else {
        seq!['/'] + turned
    };
    let bytes = escaped(encode_utf8(text));
    assert(ascii_text(scheme() + bytes) =~= ascii_text(scheme()) + ascii_text(bytes));
}

} // verus!
