//! What a path on Windows may start with: a drive, a network share, a device, or a verbatim form of
//! one of these.
use crate::ascii::{
    BACKSLASH, COLON, DOT, QUESTION, SLASH, UPPER_C, UPPER_N, UPPER_U, is_letter, letter,
    to_upper_case, upper_case,
};
use crate::seqs::{first_index, lemma_first_index, lemma_is_first_index};
use vstd::prelude::*;
use vstd::slice::{slice_subrange, slice_to_vec};

verus! {

/// The rules that the components of a path are read by.
#[derive(Debug, Clone, Copy, PartialEq, Eq, Structural)]
pub enum Reading {
    /// `/` separates components.
    Unix,
    /// Either slash separates components.
    Windows,
    /// Behind a verbatim prefix of Windows: `\` separates components, and each `.` is one.
    Verbatim,
}

/// What separates the components of a path.
pub open spec fn separator(reading: Reading) -> spec_fn(u8) -> bool {
    |byte: u8|
        (byte == SLASH && reading != Reading::Verbatim) || (byte == BACKSLASH && reading
            != Reading::Unix)
}

pub fn is_separator(reading: Reading, byte: u8) -> (separates: bool)
    ensures
        separates == separator(reading)(byte),
{
    (byte == SLASH && reading != Reading::Verbatim) || (byte == BACKSLASH && reading
        != Reading::Unix)
}

/// What a path on Windows starts with. `N` is how a name is held.
#[derive(Debug)]
pub enum Prefix<N> {
    /// `\\?\name`
    Verbatim(N),
    /// `\\?\UNC\server\share`
    VerbatimShare(N, N),
    /// `\\?\C:`, with its letter in upper case.
    VerbatimDrive(u8),
    /// `\\.\device`
    Device(N),
    /// `\\server\share`
    Share(N, N),
    /// `C:`, with its letter in upper case.
    Drive(u8),
}

impl View for Prefix<Vec<u8>> {
    type V = Prefix<Seq<u8>>;

    open spec fn view(&self) -> Prefix<Seq<u8>> {
        match self {
            Prefix::Verbatim(name) => Prefix::Verbatim(name@),
            Prefix::VerbatimShare(server, share) => Prefix::VerbatimShare(server@, share@),
            Prefix::VerbatimDrive(letter) => Prefix::VerbatimDrive(*letter),
            Prefix::Device(name) => Prefix::Device(name@),
            Prefix::Share(server, share) => Prefix::Share(server@, share@),
            Prefix::Drive(letter) => Prefix::Drive(*letter),
        }
    }
}

/// The rules that what follows a prefix is read by.
pub open spec fn reading_behind(prefix: Prefix<Seq<u8>>) -> Reading {
    if prefix is Verbatim || prefix is VerbatimShare || prefix is VerbatimDrive {
        Reading::Verbatim
    } else {
        Reading::Windows
    }
}

/// Whether a path starts with a drive letter and its colon.
pub open spec fn has_drive(path: Seq<u8>) -> bool {
    path.len() >= 2 && is_letter(path[0]) && path[1] == COLON
}

/// Whether a path starts with `\\?\`, which it does with these very slashes or not at all.
pub open spec fn is_verbatim(path: Seq<u8>) -> bool {
    &&& path.len() >= 4
    &&& path[0] == BACKSLASH
    &&& path[1] == BACKSLASH
    &&& path[2] == QUESTION
    &&& path[3] == BACKSLASH
}

/// What comes before the first separator.
pub open spec fn name_before(rest: Seq<u8>, reading: Reading) -> Seq<u8> {
    rest.take(first_index(rest, separator(reading)) as int)
}

/// What comes behind the first separator.
pub open spec fn behind_name(rest: Seq<u8>, reading: Reading) -> Seq<u8> {
    let end = first_index(rest, separator(reading)) as int;
    if end < rest.len() {
        rest.skip(end + 1)
    } else {
        seq![]
    }
}

/// The prefix of a path that starts with `\\?\`; `rest` is what follows.
pub open spec fn verbatim_prefix(rest: Seq<u8>) -> Prefix<Seq<u8>> {
    if rest.len() >= 4 && rest[0] == UPPER_U && rest[1] == UPPER_N && rest[2] == UPPER_C
        && separator(Reading::Windows)(rest[3]) {
        let names = rest.skip(4);
        Prefix::VerbatimShare(
            name_before(names, Reading::Verbatim),
            name_before(behind_name(names, Reading::Verbatim), Reading::Verbatim),
        )
    } else if has_drive(rest) && (rest.len() == 2 || separator(Reading::Windows)(rest[2])) {
        Prefix::VerbatimDrive(upper_case(rest[0]))
    } else {
        Prefix::Verbatim(name_before(rest, Reading::Verbatim))
    }
}

/// The prefix of a path that starts with two slashes and is not verbatim; `rest` is what follows
/// them. A share has a server and a name, or it is none.
pub open spec fn network_prefix(rest: Seq<u8>) -> Option<Prefix<Seq<u8>>> {
    let server = name_before(rest, Reading::Windows);
    let share = name_before(behind_name(rest, Reading::Windows), Reading::Windows);
    if rest.len() >= 2 && rest[0] == DOT && separator(Reading::Windows)(rest[1]) {
        Some(Prefix::Device(name_before(rest.skip(2), Reading::Windows)))
    } else if server.len() > 0 && share.len() > 0 {
        Some(Prefix::Share(server, share))
    } else {
        None
    }
}

/// Whether a path starts with two slashes.
pub open spec fn starts_with_slashes(path: Seq<u8>) -> bool {
    path.len() >= 2 && separator(Reading::Windows)(path[0]) && separator(Reading::Windows)(path[1])
}

/// What a path on Windows starts with, if it starts with more than a component.
pub open spec fn prefix_of(path: Seq<u8>) -> Option<Prefix<Seq<u8>>> {
    if is_verbatim(path) {
        Some(verbatim_prefix(path.skip(4)))
    } else if starts_with_slashes(path) {
        network_prefix(path.skip(2))
    } else if has_drive(path) {
        Some(Prefix::Drive(upper_case(path[0])))
    } else {
        None
    }
}

/// How many bytes the two names of a share take, with the separator between them. A name that is
/// not there takes none.
pub open spec fn share_len(server: Seq<u8>, share: Seq<u8>) -> nat {
    if share.len() > 0 {
        server.len() + 1 + share.len()
    } else {
        server.len()
    }
}

/// How many bytes of a path its prefix takes.
pub open spec fn prefix_len(prefix: Prefix<Seq<u8>>) -> nat {
    match prefix {
        Prefix::Verbatim(name) => 4 + name.len(),
        Prefix::VerbatimShare(server, share) => 8 + share_len(server, share),
        Prefix::VerbatimDrive(_) => 6,
        Prefix::Device(name) => 4 + name.len(),
        Prefix::Share(server, share) => 2 + share_len(server, share),
        Prefix::Drive(_) => 2,
    }
}

pub fn starts_with_drive(path: &[u8]) -> (drive: bool)
    ensures
        drive == has_drive(path@),
{
    path.len() >= 2 && letter(path[0]) && path[1] == COLON
}

/// Where the name that starts at `start` ends.
pub fn end_of_name(path: &[u8], start: usize, reading: Reading) -> (end: usize)
    requires
        start <= path@.len(),
    ensures
        start <= end <= path@.len(),
        end - start == first_index(path@.skip(start as int), separator(reading)),
{
    let ghost rest = path@.skip(start as int);
    let mut end: usize = start;
    while end < path.len() && !is_separator(reading, path[end])
        invariant
            start <= end <= path.len(),
            rest == path@.skip(start as int),
            forall|j: int| 0 <= j < end - start ==> !separator(reading)(#[trigger] rest[j]),
        decreases path.len() - end,
    {
        assert(rest[end - start] == path@[end as int]);
        end += 1;
    }
    proof {
        if end < path.len() {
            assert(rest[end - start] == path@[end as int]);
        }
        lemma_is_first_index(rest, separator(reading), end - start);
    }
    end
}

/// The names of the share that starts at `start`, and where it ends.
fn find_share(path: &[u8], start: usize, reading: Reading) -> (found: (Vec<u8>, Vec<u8>, usize))
    requires
        start <= path@.len(),
    ensures
        ({
            let rest = path@.skip(start as int);
            &&& found.0@ == name_before(rest, reading)
            &&& found.1@ == name_before(behind_name(rest, reading), reading)
            &&& found.2 == start + share_len(found.0@, found.1@)
            &&& found.2 <= path@.len()
        }),
{
    let ghost rest = path@.skip(start as int);
    let end = end_of_name(path, start, reading);
    let server = slice_to_vec(slice_subrange(path, start, end));
    assert(server@ =~= name_before(rest, reading));
    let share_start = if end < path.len() {
        end + 1
    } else {
        end
    };
    assert(path@.skip(share_start as int) =~= behind_name(rest, reading));
    let share_end = end_of_name(path, share_start, reading);
    let share = slice_to_vec(slice_subrange(path, share_start, share_end));
    assert(share@ =~= name_before(behind_name(rest, reading), reading));
    let len = if share_start < share_end {
        share_end
    } else {
        end
    };
    (server, share, len)
}

/// The prefix of a path, if it has one, and how many bytes it takes.
pub fn find_prefix(path: &[u8]) -> (found: Option<(Prefix<Vec<u8>>, usize)>)
    ensures
        match found {
            Some((prefix, len)) => prefix_of(path@) == Some(prefix@) && len == prefix_len(prefix@)
                && len <= path@.len(),
            None => prefix_of(path@) is None,
        },
{
    if path.len() >= 4 && path[0] == BACKSLASH && path[1] == BACKSLASH && path[2] == QUESTION
        && path[3] == BACKSLASH {
        let (prefix, len) = find_verbatim_prefix(path);
        return Some((prefix, len));
    }
    if path.len() >= 2 && is_separator(Reading::Windows, path[0]) && is_separator(
        Reading::Windows,
        path[1],
    ) {
        let ghost rest = path@.skip(2);
        if path.len() >= 4 && path[2] == DOT && is_separator(Reading::Windows, path[3]) {
            let end = end_of_name(path, 4, Reading::Windows);
            let name = slice_to_vec(slice_subrange(path, 4, end));
            assert(rest.skip(2) =~= path@.skip(4));
            assert(name@ =~= name_before(rest.skip(2), Reading::Windows));
            return Some((Prefix::Device(name), end));
        }
        let (server, share, len) = find_share(path, 2, Reading::Windows);
        if server.len() > 0 && share.len() > 0 {
            return Some((Prefix::Share(server, share), len));
        }
        return None;
    }
    if starts_with_drive(path) {
        return Some((Prefix::Drive(to_upper_case(path[0])), 2));
    }
    None
}

fn find_verbatim_prefix(path: &[u8]) -> (found: (Prefix<Vec<u8>>, usize))
    requires
        is_verbatim(path@),
    ensures
        found.0@ == verbatim_prefix(path@.skip(4)),
        found.1 == prefix_len(found.0@),
        found.1 <= path@.len(),
{
    let ghost rest = path@.skip(4);
    if path.len() >= 8 && path[4] == UPPER_U && path[5] == UPPER_N && path[6] == UPPER_C
        && is_separator(Reading::Windows, path[7]) {
        assert(rest.skip(4) =~= path@.skip(8));
        let (server, share, len) = find_share(path, 8, Reading::Verbatim);
        return (Prefix::VerbatimShare(server, share), len);
    }
    if path.len() >= 6 && letter(path[4]) && path[5] == COLON && (path.len() == 6 || is_separator(
        Reading::Windows,
        path[6],
    )) {
        return (Prefix::VerbatimDrive(to_upper_case(path[4])), 6);
    }
    let end = end_of_name(path, 4, Reading::Verbatim);
    let name = slice_to_vec(slice_subrange(path, 4, end));
    assert(name@ =~= name_before(rest, Reading::Verbatim));
    (Prefix::Verbatim(name), end)
}

/// A prefix is part of the path that it is of.
pub proof fn lemma_prefix_fits(path: Seq<u8>)
    ensures
        prefix_of(path) matches Some(prefix) ==> prefix_len(prefix) <= path.len(),
{
    if is_verbatim(path) {
        let rest = path.skip(4);
        lemma_first_index(rest, separator(Reading::Verbatim));
        if rest.len() >= 4 {
            lemma_share_fits(rest.skip(4), Reading::Verbatim);
        }
    } else if starts_with_slashes(path) {
        let rest = path.skip(2);
        lemma_share_fits(rest, Reading::Windows);
        if rest.len() >= 2 {
            lemma_first_index(rest.skip(2), separator(Reading::Windows));
        }
    }
}

proof fn lemma_share_fits(rest: Seq<u8>, reading: Reading)
    ensures
        share_len(
            name_before(rest, reading),
            name_before(behind_name(rest, reading), reading),
        ) <= rest.len(),
{
    lemma_first_index(rest, separator(reading));
    lemma_first_index(behind_name(rest, reading), separator(reading));
}

/// Whether two bytes are the same, or both separate components on Windows.
pub open spec fn same_but_for_slash(a: u8, b: u8) -> bool {
    a == b || (separator(Reading::Windows)(a) && separator(Reading::Windows)(b))
}

/// Whether two paths differ at most in which slash stands where they have one.
pub open spec fn same_but_for_slashes(a: Seq<u8>, b: Seq<u8>) -> bool {
    a.len() == b.len() && forall|i: int|
        0 <= i < a.len() ==> #[trigger] same_but_for_slash(a[i], b[i])
}

pub proof fn lemma_skipped_alike(a: Seq<u8>, b: Seq<u8>, n: int)
    requires
        same_but_for_slashes(a, b),
        0 <= n <= a.len(),
    ensures
        same_but_for_slashes(a.skip(n), b.skip(n)),
{
    let x = a.skip(n);
    let y = b.skip(n);
    assert forall|i: int| 0 <= i < x.len() implies #[trigger] same_but_for_slash(x[i], y[i]) by {
        assert(same_but_for_slash(a[i + n], b[i + n]));
    }
}

/// Which slashes separate them does not change names.
pub proof fn lemma_same_names(a: Seq<u8>, b: Seq<u8>)
    requires
        same_but_for_slashes(a, b),
    ensures
        first_index(a, separator(Reading::Windows)) == first_index(b, separator(Reading::Windows)),
        first_index(a, separator(Reading::Windows)) <= a.len(),
        name_before(a, Reading::Windows) == name_before(b, Reading::Windows),
        same_but_for_slashes(behind_name(a, Reading::Windows), behind_name(b, Reading::Windows)),
{
    let separates = separator(Reading::Windows);
    lemma_first_index(a, separates);
    let end = first_index(a, separates) as int;
    assert forall|j: int| 0 <= j < end implies !separates(#[trigger] b[j]) && a[j] == b[j] by {
        assert(!separates(a[j]));
        assert(same_but_for_slash(a[j], b[j]));
    }
    if end < a.len() {
        assert(same_but_for_slash(a[end], b[end]));
        lemma_skipped_alike(a, b, end + 1);
    }
    lemma_is_first_index(b, separates, end);
    assert(a.take(end) =~= b.take(end));
}

/// Which slashes a path is spelled with does not change its prefix, unless one is verbatim.
pub proof fn lemma_same_prefix(a: Seq<u8>, b: Seq<u8>)
    requires
        same_but_for_slashes(a, b),
        !is_verbatim(a),
        !is_verbatim(b),
    ensures
        prefix_of(a) == prefix_of(b),
        has_drive(a) == has_drive(b),
{
    if a.len() >= 2 {
        assert(same_but_for_slash(a[0], b[0]) && same_but_for_slash(a[1], b[1]));
    }
    if starts_with_slashes(a) {
        let x = a.skip(2);
        let y = b.skip(2);
        lemma_skipped_alike(a, b, 2);
        if x.len() >= 2 {
            assert(same_but_for_slash(x[0], y[0]) && same_but_for_slash(x[1], y[1]));
            lemma_skipped_alike(x, y, 2);
            lemma_same_names(x.skip(2), y.skip(2));
        }
        lemma_same_names(x, y);
        lemma_same_names(behind_name(x, Reading::Windows), behind_name(y, Reading::Windows));
    }
}

} // verus!
