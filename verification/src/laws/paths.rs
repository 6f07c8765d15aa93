//! What a path is made of, and which of two comes first.
use crate::ascii::{COLON, DOT, is_digit, is_letter, upper_case};
use crate::order::{bytes_before, parts_at};
use crate::path::{
    Component, FilePath, PathStyle, PathView, component_before, component_views, components,
    components_before, file_name, folded, parts, plain_parts, segment_components, start_component,
};
use crate::prefix::{
    Prefix, Reading, behind_name, has_drive, is_verbatim, name_before, prefix_len, prefix_of,
    separator,
};
use crate::seqs::{first_index, lemma_first_index, lemma_is_first_index};
use vstd::prelude::*;
use vstd::std_specs::cmp::PartialEqSpec;

verus! {

// Letters.

/// Letters and digits are those of ASCII.
pub proof fn letters_and_digits_are_ascii(byte: u8)
    ensures
        is_letter(byte) <==> ('a' <= byte as char <= 'z' || 'A' <= byte as char <= 'Z'),
        is_digit(byte) <==> '0' <= byte as char <= '9',
{
}

/// Upper case takes a small letter to the capital one, and leaves everything else alone.
pub proof fn upper_case_changes_small_letters(byte: u8)
    ensures
        'a' <= byte as char <= 'z' ==> upper_case(byte) as int == byte - 'a' as int + 'A' as int,
        !('a' <= byte as char <= 'z') ==> upper_case(byte) == byte,
{
}

// Views.

/// The views of components hold what these hold.
pub proof fn views_hold_everything(
    component: Component<Vec<u8>>,
    list: Seq<Component<Vec<u8>>>,
)
    ensures
        component matches Component::Normal(name) ==> component@ == Component::Normal(name@),
        component matches Component::Prefix(prefix) ==> component@ == Component::Prefix(prefix@),
        component@ is RootDir <==> component is RootDir,
        component@ is CurDir <==> component is CurDir,
        component@ is ParentDir <==> component is ParentDir,
        component matches Component::Prefix(Prefix::Share(server, share)) ==> component@
            == Component::Prefix(Prefix::Share(server@, share@)),
        component matches Component::Prefix(Prefix::VerbatimShare(server, share)) ==> component@
            == Component::Prefix(Prefix::VerbatimShare(server@, share@)),
        component matches Component::Prefix(Prefix::Device(name)) ==> component@
            == Component::Prefix(Prefix::Device(name@)),
        component matches Component::Prefix(Prefix::Verbatim(name)) ==> component@
            == Component::Prefix(Prefix::Verbatim(name@)),
        component matches Component::Prefix(Prefix::Drive(letter)) ==> component@
            == Component::Prefix(Prefix::<Seq<u8>>::Drive(letter)),
        component matches Component::Prefix(Prefix::VerbatimDrive(letter)) ==> component@
            == Component::Prefix(Prefix::<Seq<u8>>::VerbatimDrive(letter)),
        component_views(list).len() == list.len(),
        forall|i: int| 0 <= i < list.len() ==> #[trigger] component_views(list)[i] == list[i]@,
{
}

/// Two paths are equal if and only if they are made of the same components.
pub proof fn equal_paths_have_equal_components(a: FilePath, b: FilePath)
    ensures
        a.eq_spec(&b) <==> components(a@) == components(b@),
{
}

// Separators.

/// Whether `byte` is a slash that separates components: `/` but for verbatim paths, and `\` on
/// Windows.
pub open spec fn is_slash(reading: Reading, byte: u8) -> bool {
    match reading {
        Reading::Unix => byte as char == '/',
        Reading::Windows => byte as char == '/' || byte as char == '\\',
        Reading::Verbatim => byte as char == '\\',
    }
}

/// Slashes separate components, and nothing else does.
pub proof fn slashes_separate(reading: Reading, byte: u8)
    ensures
        separator(reading)(byte) <==> is_slash(reading, byte),
{
}

/// Whether no slash is in `segment`.
pub open spec fn has_no_slash(segment: Seq<u8>, reading: Reading) -> bool {
    forall|i: int| 0 <= i < segment.len() ==> !is_slash(reading, #[trigger] segment[i])
}

proof fn lemma_no_slash(segment: Seq<u8>, reading: Reading)
    requires
        has_no_slash(segment, reading),
    ensures
        first_index(segment, separator(reading)) == segment.len(),
{
    assert forall|j: int| 0 <= j < segment.len() implies !separator(reading)(
        #[trigger] segment[j],
    ) by {
        assert(!is_slash(reading, segment[j]));
    }
    lemma_is_first_index(segment, separator(reading), segment.len() as int);
}

/// Where a slash ends a name that has none, the name ends.
proof fn lemma_name_ends(name: Seq<u8>, tail: Seq<u8>, reading: Reading)
    requires
        has_no_slash(name, reading),
        tail.len() > 0 ==> is_slash(reading, tail[0]),
    ensures
        first_index(name + tail, separator(reading)) == name.len(),
        name_before(name + tail, reading) == name,
        tail.len() > 0 ==> behind_name(name + tail, reading) == tail.skip(1),
        tail.len() == 0 ==> behind_name(name + tail, reading) == Seq::<u8>::empty(),
{
    let whole = name + tail;
    assert forall|j: int| 0 <= j < name.len() implies !separator(reading)(#[trigger] whole[j]) by {
        assert(whole[j] == name[j]);
        assert(!is_slash(reading, name[j]));
    }
    if tail.len() > 0 {
        assert(whole[name.len() as int] == tail[0]);
    }
    lemma_is_first_index(whole, separator(reading), name.len() as int);
    assert(whole.take(name.len() as int) =~= name);
    if tail.len() > 0 {
        assert(whole.skip(name.len() as int + 1) =~= tail.skip(1));
    }
}

// Components.

/// A slash ends one component and starts another: what stands on its two sides is read on its own.
pub proof fn slashes_part_components(a: Seq<u8>, slash: u8, b: Seq<u8>, reading: Reading)
    requires
        is_slash(reading, slash),
    ensures
        segment_components(a + seq![slash] + b, reading) == segment_components(a, reading)
            + segment_components(b, reading),
    decreases a.len(),
{
    let whole = a + seq![slash] + b;
    lemma_first_index(a, separator(reading));
    let end = first_index(a, separator(reading)) as int;
    if end < a.len() {
        let name = a.take(end);
        let rest = a.skip(end + 1);
        assert forall|j: int| 0 <= j < end implies !separator(reading)(#[trigger] whole[j]) by {
            assert(whole[j] == a[j]);
        }
        lemma_is_first_index(whole, separator(reading), end);
        assert(whole.take(end) =~= name);
        assert(whole.skip(end + 1) =~= rest + seq![slash] + b);
        slashes_part_components(rest, slash, b, reading);
    } else {
        assert forall|j: int| 0 <= j < end implies !separator(reading)(#[trigger] whole[j]) by {
            assert(whole[j] == a[j]);
        }
        assert(whole[end] == slash);
        lemma_is_first_index(whole, separator(reading), end);
        assert(whole.take(end) =~= a);
        assert(whole.skip(end + 1) =~= b);
    }
    assert(segment_components(whole, reading) =~= segment_components(a, reading)
        + segment_components(b, reading));
}

/// What stands between slashes is a name, byte for byte, unless it is empty, `.` or `..`. A `.` is
/// left out, but for verbatim paths.
pub proof fn segments_are_names(segment: Seq<u8>, reading: Reading)
    requires
        has_no_slash(segment, reading),
    ensures
        segment.len() == 0 ==> segment_components(segment, reading) == Seq::<
            Component<Seq<u8>>,
        >::empty(),
        segment.len() == 1 && segment[0] as char == '.' && reading != Reading::Verbatim
            ==> segment_components(segment, reading) == Seq::<Component<Seq<u8>>>::empty(),
        segment.len() == 1 && segment[0] as char == '.' && reading == Reading::Verbatim
            ==> segment_components(segment, reading) == seq![Component::<Seq<u8>>::CurDir],
        segment.len() == 2 && segment[0] as char == '.' && segment[1] as char == '.'
            ==> segment_components(segment, reading) == seq![Component::<Seq<u8>>::ParentDir],
        is_plain_name(segment) ==> segment_components(segment, reading) == seq![
            Component::Normal(segment),
        ],
{
    lemma_no_slash(segment, reading);
    let dot = seq![DOT];
    let dots = seq![DOT, DOT];
    if segment.len() == 1 && segment[0] as char == '.' {
        assert(segment =~= dot);
    }
    if segment.len() == 2 && segment[0] as char == '.' && segment[1] as char == '.' {
        assert(segment =~= dots);
    }
    assert(dot[0] as char == '.' && dots[0] as char == '.' && dots[1] as char == '.');
}

/// Whether `segment` can be a name: it is not empty, `.` or `..`.
pub open spec fn is_plain_name(segment: Seq<u8>) -> bool {
    &&& segment.len() > 0
    &&& !(segment.len() == 1 && segment[0] as char == '.')
    &&& !(segment.len() == 2 && segment[0] as char == '.' && segment[1] as char == '.')
}

/// How a path without a prefix is read: from the root if it starts with a slash, from `.` if it
/// starts with that, and from neither otherwise.
pub proof fn paths_start_at_the_root_or_here(path: Seq<u8>, reading: Reading)
    requires
        reading != Reading::Verbatim,
    ensures
        plain_parts(path, reading) == if path.len() > 0 && is_slash(reading, path[0]) {
            seq![Component::<Seq<u8>>::RootDir] + segment_components(path.skip(1), reading)
        } else if path.len() == 1 && path[0] as char == '.' {
            seq![Component::<Seq<u8>>::CurDir]
        } else if path.len() > 1 && path[0] as char == '.' && is_slash(reading, path[1]) {
            seq![Component::<Seq<u8>>::CurDir] + segment_components(path.skip(2), reading)
        } else {
            segment_components(path, reading)
        },
{
    let none: Seq<u8> = seq![];
    let whole = plain_parts(path, reading);
    if path.len() > 0 && is_slash(reading, path[0]) {
        assert(none + seq![path[0]] + path.skip(1) =~= path);
        slashes_part_components(none, path[0], path.skip(1), reading);
        segments_are_names(none, reading);
        assert(whole =~= seq![Component::<Seq<u8>>::RootDir] + segment_components(
            path.skip(1),
            reading,
        ));
    } else if path.len() == 1 && path[0] as char == '.' {
        segments_are_names(path, reading);
        assert(whole =~= seq![Component::<Seq<u8>>::CurDir]);
    } else if path.len() > 1 && path[0] as char == '.' && is_slash(reading, path[1]) {
        let dot = seq![path[0]];
        assert(dot + seq![path[1]] + path.skip(2) =~= path);
        slashes_part_components(dot, path[1], path.skip(2), reading);
        segments_are_names(dot, reading);
        assert(whole =~= seq![Component::<Seq<u8>>::CurDir] + segment_components(
            path.skip(2),
            reading,
        ));
    } else {
        assert(start_component(path, reading) =~= seq![]);
        assert(whole =~= segment_components(path, reading));
    }
}

/// Off Windows no path has a prefix.
pub proof fn paths_elsewhere_have_no_prefix(path: Seq<u8>)
    ensures
        parts(path, PathStyle::Unix) == plain_parts(path, Reading::Unix),
{
}

/// On Windows a path is its prefix, if it has one, and what follows. A slash behind the prefix is the
/// root, and a share or a device is at its root without one.
pub proof fn paths_on_windows_may_have_a_prefix(path: Seq<u8>)
    ensures
        prefix_of(path) is None ==> parts(path, PathStyle::Windows) == plain_parts(
            path,
            Reading::Windows,
        ),
        prefix_of(path) matches Some(prefix) ==> {
            let rest = path.skip(prefix_len(prefix) as int);
            let slash = rest.len() > 0 && is_slash(Reading::Windows, rest[0]);
            let verbatim = prefix is Verbatim || prefix is VerbatimShare || prefix is VerbatimDrive;
            parts(path, PathStyle::Windows) == seq![Component::Prefix(prefix)] + (if slash
                || prefix is Share || prefix is Device {
                seq![Component::<Seq<u8>>::RootDir]
            } else {
                Seq::empty()
            }) + segment_components(
                if slash {
                    rest.skip(1)
                } else {
                    rest
                },
                if verbatim {
                    Reading::Verbatim
                } else {
                    Reading::Windows
                },
            )
        },
{
    if let Some(prefix) = prefix_of(path) {
        let rest = path.skip(prefix_len(prefix) as int);
        if rest.len() > 0 {
            slashes_separate(Reading::Windows, rest[0]);
        }
    }
}

/// Only two slashes or a drive letter start a prefix.
pub proof fn other_paths_have_no_prefix(path: Seq<u8>)
    requires
        !(path.len() >= 2 && is_slash(Reading::Windows, path[0]) && is_slash(
            Reading::Windows,
            path[1],
        )),
        !(path.len() >= 2 && is_letter(path[0]) && path[1] as char == ':'),
    ensures
        prefix_of(path) is None,
{
}

/// A letter and a colon are a drive, whatever the case of the letter.
pub proof fn letters_and_colons_are_drives(letter: u8, rest: Seq<u8>)
    requires
        is_letter(letter),
    ensures
        ({
            let path = seq![letter, COLON] + rest;
            &&& COLON as char == ':'
            &&& prefix_of(path) == Some(Prefix::<Seq<u8>>::Drive(upper_case(letter)))
            &&& path.skip(prefix_len(prefix_of(path)->0) as int) == rest
        }),
{
    let path = seq![letter, COLON] + rest;
    assert(path[0] == letter && path[1] == COLON);
    assert(path.skip(2) =~= rest);
}

/// Two slashes, a server, a slash and a name are a share, unless the server is `.`, or it is `?` and
/// every slash is a `\`.
pub proof fn shares_have_a_server_and_a_name(
    first: u8,
    second: u8,
    server: Seq<u8>,
    third: u8,
    share: Seq<u8>,
    tail: Seq<u8>,
)
    requires
        is_slash(Reading::Windows, first),
        is_slash(Reading::Windows, second),
        is_slash(Reading::Windows, third),
        has_no_slash(server, Reading::Windows),
        has_no_slash(share, Reading::Windows),
        server.len() > 0,
        share.len() > 0,
        !(server.len() == 1 && server[0] as char == '.'),
        !(server.len() == 1 && server[0] as char == '?' && first as char == '\\' && second as char
            == '\\' && third as char == '\\'),
        tail.len() > 0 ==> is_slash(Reading::Windows, tail[0]),
    ensures
        ({
            let path = seq![first, second] + (server + (seq![third] + (share + tail)));
            &&& prefix_of(path) == Some(Prefix::Share(server, share))
            &&& path.skip(prefix_len(prefix_of(path)->0) as int) == tail
        }),
{
    let names = share + tail;
    let rest = server + (seq![third] + names);
    let path = seq![first, second] + rest;
    assert(path[0] == first && path[1] == second);
    assert(path.skip(2) =~= rest);
    lemma_name_ends(server, seq![third] + names, Reading::Windows);
    assert((seq![third] + names).skip(1) =~= names);
    lemma_name_ends(share, tail, Reading::Windows);
    assert(rest[0] == server[0]);
    if server.len() >= 2 {
        assert(rest[1] == server[1]);
        assert(!is_slash(Reading::Windows, server[1]));
    }
    assert(path[2] == rest[0]);
    if server.len() == 1 {
        assert(rest[1] == third);
    }
    assert(path[3] == rest[1]);
    assert(!is_verbatim(path));
    assert(path.skip((2 + server.len() + 1 + share.len()) as int) =~= tail);
}

/// Two slashes without a server and a name behind them start no prefix.
pub proof fn shares_need_a_server_and_a_name(first: u8, second: u8, rest: Seq<u8>)
    requires
        is_slash(Reading::Windows, first),
        is_slash(Reading::Windows, second),
        rest.len() == 0 || is_slash(Reading::Windows, rest[0]) || has_no_slash(
            rest,
            Reading::Windows,
        ),
    ensures
        prefix_of(seq![first, second] + rest) is None,
{
    let path = seq![first, second] + rest;
    let none: Seq<u8> = seq![];
    assert(path[0] == first && path[1] == second);
    assert(path.skip(2) =~= rest);
    if rest.len() > 0 {
        assert(path[2] == rest[0]);
        if rest.len() > 1 {
            assert(path[3] == rest[1]);
        }
        if is_slash(Reading::Windows, rest[0]) {
            assert(none + rest =~= rest);
            lemma_name_ends(none, rest, Reading::Windows);
        } else {
            if rest.len() > 1 {
                assert(!is_slash(Reading::Windows, rest[1]));
            }
            assert(rest + none =~= rest);
            lemma_name_ends(rest, none, Reading::Windows);
        }
    }
    lemma_first_index(none, separator(Reading::Windows));
}

/// Two slashes and a server without a name behind it start no prefix, unless the server is `.`, or it
/// is `?` and every slash is a `\`.
pub proof fn servers_alone_are_no_share(
    first: u8,
    second: u8,
    server: Seq<u8>,
    third: u8,
    tail: Seq<u8>,
)
    requires
        is_slash(Reading::Windows, first),
        is_slash(Reading::Windows, second),
        is_slash(Reading::Windows, third),
        has_no_slash(server, Reading::Windows),
        server.len() > 0,
        !(server.len() == 1 && server[0] as char == '.'),
        !(server.len() == 1 && server[0] as char == '?' && first as char == '\\' && second as char
            == '\\' && third as char == '\\'),
        tail.len() > 0 ==> is_slash(Reading::Windows, tail[0]),
    ensures
        prefix_of(seq![first, second] + (server + (seq![third] + tail))) is None,
{
    let rest = server + (seq![third] + tail);
    let path = seq![first, second] + rest;
    let none: Seq<u8> = seq![];
    assert(path[0] == first && path[1] == second);
    assert(path.skip(2) =~= rest);
    lemma_name_ends(server, seq![third] + tail, Reading::Windows);
    assert((seq![third] + tail).skip(1) =~= tail);
    assert(none + tail =~= tail);
    lemma_name_ends(none, tail, Reading::Windows);
    assert(rest[0] == server[0]);
    if server.len() >= 2 {
        assert(rest[1] == server[1]);
        assert(!is_slash(Reading::Windows, server[1]));
    } else {
        assert(rest[1] == third);
    }
    assert(path[2] == rest[0]);
    assert(path[3] == rest[1]);
    assert(!is_verbatim(path));
}

/// Two slashes, a dot, a slash and a name are a device.
pub proof fn devices_are_behind_a_dot(
    first: u8,
    second: u8,
    third: u8,
    name: Seq<u8>,
    tail: Seq<u8>,
)
    requires
        is_slash(Reading::Windows, first),
        is_slash(Reading::Windows, second),
        is_slash(Reading::Windows, third),
        has_no_slash(name, Reading::Windows),
        tail.len() > 0 ==> is_slash(Reading::Windows, tail[0]),
    ensures
        ({
            let path = seq![first, second, DOT, third] + (name + tail);
            &&& prefix_of(path) == Some(Prefix::Device(name))
            &&& path.skip(prefix_len(prefix_of(path)->0) as int) == tail
        }),
{
    let path = seq![first, second, DOT, third] + (name + tail);
    assert(path[0] == first && path[1] == second && path[2] == DOT && path[3]
        == third);
    let rest = path.skip(2);
    assert(rest[0] == DOT && rest[1] == third);
    assert(rest.skip(2) =~= name + tail);
    lemma_name_ends(name, tail, Reading::Windows);
    assert(path.skip((4 + name.len()) as int) =~= tail);
}

/// `\\?\`
pub open spec fn verbatim_start() -> Seq<u8> {
    seq![0x5cu8, 0x5cu8, 0x3fu8, 0x5cu8]
}

/// `\\?\UNC`, a slash, a server, a backslash and a name are a share, read verbatim.
pub proof fn verbatim_shares(slash: u8, server: Seq<u8>, share: Seq<u8>, tail: Seq<u8>)
    requires
        is_slash(Reading::Windows, slash),
        has_no_slash(server, Reading::Verbatim),
        has_no_slash(share, Reading::Verbatim),
        share.len() > 0,
        tail.len() > 0 ==> is_slash(Reading::Verbatim, tail[0]),
    ensures
        ({
            let path = verbatim_start() + (seq![0x55u8, 0x4eu8, 0x43u8, slash] + (server + (
            seq![0x5cu8] + (share + tail))));
            &&& prefix_of(path) == Some(Prefix::VerbatimShare(server, share))
            &&& path.skip(prefix_len(prefix_of(path)->0) as int) == tail
        }),
{
    let names = server + (seq![0x5cu8] + (share + tail));
    let rest = seq![0x55u8, 0x4eu8, 0x43u8, slash] + names;
    let path = verbatim_start() + rest;
    assert(path.skip(4) =~= rest);
    assert(rest.skip(4) =~= names);
    assert(rest[3] == slash);
    lemma_name_ends(server, seq![0x5cu8] + (share + tail), Reading::Verbatim);
    assert((seq![0x5cu8] + (share + tail)).skip(1) =~= share + tail);
    lemma_name_ends(share, tail, Reading::Verbatim);
    assert(path.skip((8 + server.len() + 1 + share.len()) as int) =~= tail);
}

/// A verbatim share may be a server alone. What is behind it then starts with a backslash or is not
/// there.
pub proof fn verbatim_servers(slash: u8, server: Seq<u8>, tail: Seq<u8>)
    requires
        is_slash(Reading::Windows, slash),
        has_no_slash(server, Reading::Verbatim),
        tail.len() > 0 ==> is_slash(Reading::Verbatim, tail[0]),
        tail.len() > 1 ==> is_slash(Reading::Verbatim, tail[1]),
    ensures
        ({
            let path = verbatim_start() + (seq![0x55u8, 0x4eu8, 0x43u8, slash] + (server + tail));
            &&& prefix_of(path) == Some(Prefix::VerbatimShare(server, Seq::<u8>::empty()))
            &&& path.skip(prefix_len(prefix_of(path)->0) as int) == tail
        }),
{
    let names = server + tail;
    let rest = seq![0x55u8, 0x4eu8, 0x43u8, slash] + names;
    let path = verbatim_start() + rest;
    let none: Seq<u8> = seq![];
    assert(path.skip(4) =~= rest);
    assert(rest.skip(4) =~= names);
    assert(rest[3] == slash);
    lemma_name_ends(server, tail, Reading::Verbatim);
    if tail.len() > 0 {
        assert(none + tail.skip(1) =~= tail.skip(1));
        lemma_name_ends(none, tail.skip(1), Reading::Verbatim);
    } else {
        assert(none + none =~= none);
        lemma_name_ends(none, none, Reading::Verbatim);
    }
    assert(path.skip((8 + server.len()) as int) =~= tail);
}

/// `\\?\` and a drive alone are that drive, read verbatim.
pub proof fn verbatim_drives(letter: u8, tail: Seq<u8>)
    requires
        is_letter(letter),
        tail.len() > 0 ==> is_slash(Reading::Windows, tail[0]),
    ensures
        ({
            let path = verbatim_start() + (seq![letter, COLON] + tail);
            &&& prefix_of(path) == Some(Prefix::<Seq<u8>>::VerbatimDrive(upper_case(letter)))
            &&& path.skip(prefix_len(prefix_of(path)->0) as int) == tail
        }),
{
    let rest = seq![letter, COLON] + tail;
    let path = verbatim_start() + rest;
    assert(path.skip(4) =~= rest);
    assert(rest[0] == letter && rest[1] == COLON);
    if tail.len() > 0 {
        assert(rest[2] == tail[0]);
    }
    if rest.len() >= 4 {
        assert(rest[1] != 0x4e);
    }
    assert(path.skip(6) =~= tail);
}

/// `\\?\` and any other name are that name, read verbatim.
pub proof fn verbatim_names(name: Seq<u8>, tail: Seq<u8>)
    requires
        has_no_slash(name, Reading::Verbatim),
        tail.len() > 0 ==> is_slash(Reading::Verbatim, tail[0]),
        !(name == seq![0x55u8, 0x4eu8, 0x43u8] && tail.len() > 0),
        !(name.len() >= 4 && name.take(4) == seq![0x55u8, 0x4eu8, 0x43u8, 0x2fu8]),
        !(name.len() >= 2 && is_letter(name[0]) && name[1] as char == ':' && (name.len() == 2
            || name[2] as char == '/')),
    ensures
        ({
            let path = verbatim_start() + (name + tail);
            &&& prefix_of(path) == Some(Prefix::Verbatim(name))
            &&& path.skip(prefix_len(prefix_of(path)->0) as int) == tail
        }),
{
    let rest = name + tail;
    let path = verbatim_start() + rest;
    assert(path.skip(4) =~= rest);
    lemma_name_ends(name, tail, Reading::Verbatim);
    assert(path.skip((4 + name.len()) as int) =~= tail);
    if rest.len() >= 4 && rest[0] == 0x55 && rest[1] == 0x4e && rest[2] == 0x43 && separator(
        Reading::Windows,
    )(rest[3]) {
        if name.len() >= 4 {
            assert(name[3] == rest[3]);
            assert(!is_slash(Reading::Verbatim, name[3]));
            assert(name.take(4) =~= seq![0x55u8, 0x4eu8, 0x43u8, 0x2fu8]);
        } else if name.len() == 3 {
            assert(name =~= seq![0x55u8, 0x4eu8, 0x43u8]);
        } else {
            assert(rest[name.len() as int] == tail[0]);
        }
    }
    if has_drive(rest) {
        if name.len() < 2 {
            assert(rest[name.len() as int] == tail[0]);
        } else {
            assert(name[0] == rest[0] && name[1] == rest[1]);
            if name.len() > 2 {
                assert(rest[2] == name[2]);
                assert(!is_slash(Reading::Verbatim, name[2]));
            }
        }
    }
}

/// What a path is made of does not depend on the case of a drive letter, and is otherwise what it is
/// spelled with.
pub proof fn only_drive_letters_are_folded(path: PathView)
    ensures
        !(path.bytes.len() >= 2 && is_letter(path.bytes[0]) && path.bytes[1] as char == ':')
            ==> components(path) == parts(path.bytes, path.style),
        path.bytes.len() >= 2 && is_letter(path.bytes[0]) && path.bytes[1] as char == ':'
            ==> components(path) == parts(
            seq![upper_case(path.bytes[0])] + path.bytes.skip(1),
            path.style,
        ),
{
    if has_drive(path.bytes) {
        assert(folded(path.bytes) =~= seq![upper_case(path.bytes[0])] + path.bytes.skip(1));
    }
}

// Names of files.

/// A path ends in a name if and only if its last component is one, and that is its file name.
pub proof fn file_names_come_last(path: PathView)
    ensures
        file_name(path) == (if parts(path.bytes, path.style).len() > 0 {
            match parts(path.bytes, path.style).last() {
                Component::Normal(name) => Some(name),
                _ => None,
            }
        } else {
            None
        }),
{
}

/// What comes behind the last slash is the file name, if it can be a name. On Windows a share takes
/// the two names behind its slashes.
pub proof fn file_names_are_behind_the_last_slash(
    directory: Seq<u8>,
    slash: u8,
    name: Seq<u8>,
    style: PathStyle,
)
    requires
        is_slash(
            if style == PathStyle::Unix {
                Reading::Unix
            } else {
                Reading::Windows
            },
            slash,
        ),
        has_no_slash(
            name,
            if style == PathStyle::Unix {
                Reading::Unix
            } else {
                Reading::Windows
            },
        ),
        is_plain_name(name),
        style == PathStyle::Windows ==> !(directory.len() > 0 && is_slash(
            Reading::Windows,
            directory[0],
        ) && (directory.len() == 1 || is_slash(Reading::Windows, directory[1]))),
    ensures
        file_name(PathView { bytes: directory + seq![slash] + name, style }) == Some(name),
{
    let path = directory + seq![slash] + name;
    let reading = if style == PathStyle::Unix {
        Reading::Unix
    } else {
        Reading::Windows
    };
    segments_are_names(name, reading);
    slashes_part_components(directory, slash, name, reading);
    if style == PathStyle::Windows {
        if directory.len() == 0 {
            assert(path[0] == slash && path[1] == name[0]);
            assert(!is_slash(reading, name[0]));
        } else {
            assert(path[0] == directory[0]);
            if directory.len() == 1 {
                assert(path[1] == slash);
            } else {
                assert(path[1] == directory[1]);
            }
        }
        if has_drive(path) {
            let rest = path.skip(2);
            let inner = directory.skip(2);
            assert(rest =~= inner + seq![slash] + name);
            if inner.len() == 0 {
                assert(rest[0] == slash);
                assert(rest.skip(1) =~= name);
            } else {
                assert(rest[0] == inner[0]);
                slashes_part_components(inner, slash, name, reading);
                assert(rest.skip(1) =~= inner.skip(1) + seq![slash] + name);
                slashes_part_components(inner.skip(1), slash, name, reading);
            }
        }
    }
    let all = parts(path, style);
    assert(all.len() > 0 && all.last() == Component::Normal(name));
}

/// A path without a slash and without a drive is its own file name, if it can be a name.
pub proof fn lone_names_are_file_names(name: Seq<u8>, style: PathStyle)
    requires
        has_no_slash(
            name,
            if style == PathStyle::Unix {
                Reading::Unix
            } else {
                Reading::Windows
            },
        ),
        is_plain_name(name),
        style == PathStyle::Windows ==> !(name.len() >= 2 && is_letter(name[0]) && name[1] as char
            == ':'),
    ensures
        file_name(PathView { bytes: name, style }) == Some(name),
{
    let reading = if style == PathStyle::Unix {
        Reading::Unix
    } else {
        Reading::Windows
    };
    segments_are_names(name, reading);
    assert(!is_slash(reading, name[0]));
    if name.len() > 1 {
        assert(!is_slash(reading, name[1]));
    }
    paths_start_at_the_root_or_here(name, reading);
}

// Order.

/// Bytes are in dictionary order: a beginning comes first, and otherwise the first difference
/// decides.
pub proof fn the_first_different_byte_decides(
    common: Seq<u8>,
    x: u8,
    y: u8,
    a: Seq<u8>,
    b: Seq<u8>,
)
    ensures
        bytes_before(common, common + (seq![y] + b)),
        x < y ==> bytes_before(common + (seq![x] + a), common + (seq![y] + b)),
{
    let before = |x: u8, y: u8| x < y;
    let n = common.len() as int;
    let left = common + (seq![x] + a);
    let right = common + (seq![y] + b);
    assert(common.take(n) =~= right.take(n));
    assert(parts_at(common, right, before, n));
    if x < y {
        assert(left.take(n) =~= right.take(n));
        assert(left[n] == x && right[n] == y);
        assert(parts_at(left, right, before, n));
    }
}

/// Paths are in dictionary order of their components: a directory comes before what is inside it,
/// and otherwise the first different component decides.
pub proof fn the_first_different_component_decides(
    common: Seq<Component<Seq<u8>>>,
    x: Component<Seq<u8>>,
    y: Component<Seq<u8>>,
    a: Seq<Component<Seq<u8>>>,
    b: Seq<Component<Seq<u8>>>,
)
    ensures
        components_before(common, common + (seq![y] + b)),
        component_before(x, y) ==> components_before(
            common + (seq![x] + a),
            common + (seq![y] + b),
        ),
{
    let before = |x: Component<Seq<u8>>, y: Component<Seq<u8>>| component_before(x, y);
    let n = common.len() as int;
    let left = common + (seq![x] + a);
    let right = common + (seq![y] + b);
    assert(common.take(n) =~= right.take(n));
    assert(parts_at(common, right, before, n));
    if component_before(x, y) {
        assert(left.take(n) =~= right.take(n));
        assert(left[n] == x && right[n] == y);
        assert(parts_at(left, right, before, n));
    }
}

/// Names are in the order of their bytes. Prefixes come before the root, that before `.`, that before
/// `..`, and names come last.
pub proof fn names_come_last_and_in_order(
    a: Seq<u8>,
    b: Seq<u8>,
    prefix: Prefix<Seq<u8>>,
)
    ensures
        component_before(Component::Normal(a), Component::Normal(b)) <==> bytes_before(a, b),
        component_before(Component::Prefix(prefix), Component::RootDir),
        component_before(Component::<Seq<u8>>::RootDir, Component::CurDir),
        component_before(Component::<Seq<u8>>::CurDir, Component::ParentDir),
        component_before(Component::ParentDir, Component::Normal(a)),
{
    let none: Seq<u8> = seq![];
    assert(!bytes_before(none, none)) by {
        let before = |x: u8, y: u8| x < y;
        if bytes_before(none, none) {
            let k = choose|k: int| parts_at(none, none, before, k);
            assert(false);
        }
    }
}

/// Drives are in the order of their letters, and shares in that of their servers and then of their
/// names. Verbatim prefixes come first, then devices, then shares, then drives.
pub proof fn prefixes_are_in_order(
    server: Seq<u8>,
    a: Seq<u8>,
    other: Seq<u8>,
    b: Seq<u8>,
    x: u8,
    y: u8,
)
    ensures
        x < y ==> component_before(
            Component::<Seq<u8>>::Prefix(Prefix::Drive(x)),
            Component::Prefix(Prefix::Drive(y)),
        ),
        x < y ==> component_before(
            Component::<Seq<u8>>::Prefix(Prefix::VerbatimDrive(x)),
            Component::Prefix(Prefix::VerbatimDrive(y)),
        ),
        bytes_before(server, other) ==> component_before(
            Component::Prefix(Prefix::Share(server, a)),
            Component::Prefix(Prefix::Share(other, b)),
        ),
        bytes_before(a, b) ==> component_before(
            Component::Prefix(Prefix::Share(server, a)),
            Component::Prefix(Prefix::Share(server, b)),
        ),
        bytes_before(server, other) ==> component_before(
            Component::Prefix(Prefix::VerbatimShare(server, a)),
            Component::Prefix(Prefix::VerbatimShare(other, b)),
        ),
        bytes_before(a, b) ==> component_before(
            Component::Prefix(Prefix::VerbatimShare(server, a)),
            Component::Prefix(Prefix::VerbatimShare(server, b)),
        ),
        bytes_before(a, b) ==> component_before(
            Component::Prefix(Prefix::Device(a)),
            Component::Prefix(Prefix::Device(b)),
        ),
        bytes_before(a, b) ==> component_before(
            Component::Prefix(Prefix::Verbatim(a)),
            Component::Prefix(Prefix::Verbatim(b)),
        ),
        component_before(
            Component::Prefix(Prefix::Verbatim(a)),
            Component::Prefix(Prefix::VerbatimShare(server, b)),
        ),
        component_before(
            Component::Prefix(Prefix::VerbatimShare(server, a)),
            Component::Prefix(Prefix::VerbatimDrive(x)),
        ),
        component_before(
            Component::Prefix(Prefix::VerbatimDrive(x)),
            Component::Prefix(Prefix::Device(a)),
        ),
        component_before(
            Component::Prefix(Prefix::Device(a)),
            Component::Prefix(Prefix::Share(server, b)),
        ),
        component_before(
            Component::Prefix(Prefix::Share(server, a)),
            Component::Prefix(Prefix::Drive(x)),
        ),
{
    let none: Seq<u8> = seq![];
    the_first_different_byte_decides(none, x, y, none, none);
    assert(none + (seq![x] + none) =~= seq![x]);
    assert(none + (seq![y] + none) =~= seq![y]);
}

} // verus!
