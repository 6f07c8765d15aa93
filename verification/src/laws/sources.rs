//! Which sources there are, what is known of each, and what is read of one.
use crate::path::{FilePath, PathView, components, components_before, file_name};
use crate::scan::{
    DirEntry, Disk, EntryView, ScanView, after_steps, entered, entry_views, filtered_paths,
    is_kept_file, is_scanned_dir, is_source_path, lemma_filter_grows, lies_under,
    path_views, scans_find_what_lies_under_the_root, skipped, started,
};
use crate::seqs::lemma_is_first_index;
use crate::token::{TokenView, ends_stream, offered_all, streams_hold_what_comes_before_the_end};
use crate::uri::lemma_encode_scalar;
use crate::workspace::{
    Key, OnDisk, OnDiskView, SourceView, by_file, closed_file, in_path_order, key, lemma_by_file,
    listed_at, read_views, seeded, source_ref_views, with_source,
};
use vstd::prelude::*;
use vstd::utf8::*;

verus! {

// What is known.

/// The views of what is handed in and out hold what these hold.
pub proof fn views_hold_everything(
    read: Seq<(FilePath, Option<String>)>,
    sources: Seq<(&FilePath, &str)>,
    entries: Seq<DirEntry>,
    paths: Seq<FilePath>,
    disk: OnDisk,
)
    ensures
        read_views(read).len() == read.len(),
        forall|i: int|
            0 <= i < read.len() ==> (#[trigger] read_views(read)[i]).0 == read[i].0@
                && read_views(read)[i].1 == (match read[i].1 {
                Some(text) => Some(text@),
                None => None,
            }),
        source_ref_views(sources).len() == sources.len(),
        forall|i: int|
            0 <= i < sources.len() ==> (#[trigger] source_ref_views(sources)[i]).path
                == sources[i].0@ && source_ref_views(sources)[i].text == sources[i].1@,
        entry_views(entries).len() == entries.len(),
        forall|i: int|
            0 <= i < entries.len() ==> (#[trigger] entry_views(entries)[i]).path == entries[i].path@
                && entry_views(entries)[i].is_dir == entries[i].is_dir,
        path_views(paths).len() == paths.len(),
        forall|i: int| 0 <= i < paths.len() ==> #[trigger] path_views(paths)[i] == paths[i]@,
        disk matches OnDisk::Text(text) ==> disk@ == OnDiskView::Text(text@),
        disk@ is Text <==> disk is Text,
        disk@ is Unreadable <==> disk is Unreadable,
        disk@ is Gone <==> disk is Gone,
{
}

/// Files are told apart by what their paths are made of, and by nothing else.
pub proof fn files_are_told_apart_by_components(a: PathView, b: PathView)
    ensures
        key(a) == key(b) <==> components(a) == components(b),
{
}

/// A file is known if and only if it is listed, and what is known of it is what is listed.
pub proof fn what_is_listed_is_known(listing: Seq<SourceView>, file: Key)
    requires
        in_path_order(listing),
    ensures
        by_file(listing).contains_key(file) <==> exists|i: int|
            0 <= i < listing.len() && components((#[trigger] listing[i]).path) == file,
        forall|i: int|
            0 <= i < listing.len() && components((#[trigger] listing[i]).path) == file ==> by_file(
                listing,
            )[file] == listing[i],
{
    assert forall|i: int|
        0 <= i < listing.len() && components((#[trigger] listing[i]).path) == file implies by_file(
        listing,
    ).contains_key(file) && by_file(listing)[file] == listing[i] by {
        lemma_by_file(listing, i);
    }
    if by_file(listing).contains_key(file) {
        let i = choose|i: int| listed_at(listing, file, i);
        assert(components(listing[i].path) == file);
    }
}

/// A listing goes up by the components of its paths.
pub proof fn listings_go_up(listing: Seq<SourceView>, i: int, j: int)
    requires
        in_path_order(listing),
        0 <= i < j < listing.len(),
    ensures
        components_before(components(listing[i].path), components(listing[j].path)),
{
    assert(components_before(key(listing[i].path), key(listing[j].path)));
}

/// Setting a file gives it that text. The first spelling of its path stays, and every other file is
/// as it was.
pub proof fn setting_changes_one_file(
    files: Map<Key, SourceView>,
    path: PathView,
    text: Seq<char>,
    file: Key,
)
    ensures
        ({
            let after = with_source(files, path, text);
            if file == components(path) {
                &&& after.contains_key(file)
                &&& after[file].text == text
                &&& after[file].path == if files.contains_key(file) {
                    files[file].path
                } else {
                    path
                }
            } else {
                &&& after.contains_key(file) <==> files.contains_key(file)
                &&& files.contains_key(file) ==> after[file] == files[file]
            }
        }),
{
}

/// Closing a file leaves it at what is on disk, and forgets it only if it has gone from there.
pub proof fn closing_goes_by_the_disk(
    files: Map<Key, SourceView>,
    path: PathView,
    disk: OnDiskView,
    file: Key,
)
    ensures
        ({
            let after = closed_file(files, path, disk);
            if file == components(path) {
                match disk {
                    OnDiskView::Text(text) => after.contains_key(file) && after[file].text == text
                        && after[file].path == (if files.contains_key(file) {
                        files[file].path
                    } else {
                        path
                    }),
                    OnDiskView::Unreadable => (after.contains_key(file) <==> files.contains_key(
                        file,
                    )) && (files.contains_key(file) ==> after[file] == files[file]),
                    OnDiskView::Gone => !after.contains_key(file),
                }
            } else {
                &&& after.contains_key(file) <==> files.contains_key(file)
                &&& files.contains_key(file) ==> after[file] == files[file]
            }
        }),
{
}

/// Seeding from nothing changes nothing, and from one list after another is seeding from both.
pub proof fn seeding_goes_file_by_file(
    files: Map<Key, SourceView>,
    a: Seq<(PathView, Option<Seq<char>>)>,
    b: Seq<(PathView, Option<Seq<char>>)>,
)
    ensures
        seeded(files, seq![]) == files,
        seeded(files, a + b) == seeded(seeded(files, a), b),
    decreases b.len(),
{
    if b.len() == 0 {
        assert(a + b =~= a);
    } else {
        seeding_goes_file_by_file(files, a, b.drop_last());
        assert((a + b).drop_last() =~= a + b.drop_last());
        assert((a + b).last() == b.last());
    }
}

/// Seeding from one file adds it if it was read and is not known, and changes nothing else.
pub proof fn seeding_from_one_file(
    files: Map<Key, SourceView>,
    path: PathView,
    text: Option<Seq<char>>,
    file: Key,
)
    ensures
        ({
            let after = seeded(files, seq![(path, text)]);
            if files.contains_key(file) {
                after.contains_key(file) && after[file] == files[file]
            } else if file == components(path) && text is Some {
                after.contains_key(file) && after[file].path == path && after[file].text == text->0
            } else {
                !after.contains_key(file)
            }
        }),
{
    let read = seq![(path, text)];
    assert(read.drop_last() =~= seq![]);
    assert(read.last() == (path, text));
    reveal_with_fuel(seeded, 2);
}

// What is scanned.


/// The names that build output goes under.
pub open spec fn is_output_name(name: Seq<u8>) -> bool {
    ||| name == encode_utf8("bin"@)
    ||| name == encode_utf8("build"@)
    ||| name == encode_utf8("target"@)
    ||| name == encode_utf8("node_modules"@)
}

/// Whether a directory has a name that is text, does not start with a dot and is not one of build
/// output.
pub open spec fn has_open_name(directory: PathView) -> bool {
    file_name(directory) matches Some(name) && valid_utf8(name) && !(name.len() > 0 && name[0]
        == 0x2e) && !is_output_name(name)
}

/// Hidden directories are skipped: all whose names start with a dot.
pub proof fn hidden_directories_are_skipped(directory: PathView, name: Seq<u8>)
    requires
        file_name(directory) == Some(name),
        name.len() > 0,
        name[0] == 0x2e,
    ensures
        skipped(directory),
{
    if valid_utf8(name) {
        lemma_dot(name);
    }
}

/// Build output is skipped.
pub proof fn build_output_is_skipped(directory: PathView, name: Seq<u8>)
    requires
        file_name(directory) == Some(name),
        is_output_name(name),
    ensures
        skipped(directory),
{
    lemma_output_names(name);
}

/// A directory is scanned if and only if it has a name that is text, not hidden and not one of build
/// output.
pub proof fn open_directories_are_scanned(directory: PathView)
    ensures
        skipped(directory) <==> !has_open_name(directory),
{
    if let Some(name) = file_name(directory) {
        if valid_utf8(name) {
            lemma_dot(name);
            lemma_output_names(name);
        }
    }
}

/// UTF-8 starts with a dot if and only if its text does.
proof fn lemma_dot(name: Seq<u8>)
    requires
        valid_utf8(name),
    ensures
        (name.len() > 0 && name[0] == 0x2e) <==> (decode_utf8(name).len() > 0 && decode_utf8(name)[0]
            == '.'),
{
    let text = decode_utf8(name);
    decode_utf8_encode_utf8(name);
    if text.len() > 0 {
        let c = text[0];
        lemma_encode_scalar(c);
        assert(name[0] == encode_scalar(c as u32)[0]);
    }
}

/// UTF-8 is one of the names if and only if its text is.
proof fn lemma_output_names(name: Seq<u8>)
    ensures
        is_output_name(name) ==> valid_utf8(name),
        valid_utf8(name) ==> (is_output_name(name) <==> {
            ||| decode_utf8(name) == "bin"@
            ||| decode_utf8(name) == "build"@
            ||| decode_utf8(name) == "target"@
            ||| decode_utf8(name) == "node_modules"@
        }),
{
    encode_utf8_valid_utf8("bin"@);
    encode_utf8_valid_utf8("build"@);
    encode_utf8_valid_utf8("target"@);
    encode_utf8_valid_utf8("node_modules"@);
    encode_utf8_decode_utf8("bin"@);
    encode_utf8_decode_utf8("build"@);
    encode_utf8_decode_utf8("target"@);
    encode_utf8_decode_utf8("node_modules"@);
    if valid_utf8(name) {
        decode_utf8_encode_utf8(name);
    }
}

/// A name and then `.mc`.
pub open spec fn with_extension(stem: Seq<u8>) -> Seq<u8> {
    stem + seq![0x2eu8, 0x6du8, 0x63u8]
}

/// Whether a file is called something and then `.mc`.
pub open spec fn has_source_name(path: PathView) -> bool {
    exists|stem: Seq<u8>|
        stem.len() > 0 && file_name(path) == Some(#[trigger] with_extension(stem))
}

/// Sources are the files with the extension `mc`, and no others.
pub proof fn sources_have_the_extension(path: PathView)
    ensures
        is_source_path(path) <==> has_source_name(path),
{
    let extension = seq![0x2eu8, 0x6du8, 0x63u8];
    if is_source_path(path) {
        let name = file_name(path)->0;
        let stem = name.take(name.len() - 3);
        assert(with_extension(stem) =~= name);
    }
    if has_source_name(path) {
        let stem = choose|stem: Seq<u8>|
            stem.len() > 0 && file_name(path) == Some(#[trigger] with_extension(stem));
        assert(with_extension(stem).skip(stem.len() as int) =~= extension);
    }
}

/// Taking in a directory goes entry by entry.
pub proof fn entries_are_taken_in_order(scan: ScanView, a: Seq<EntryView>, b: Seq<EntryView>)
    ensures
        entered(scan, seq![]) == scan,
        entered(scan, a + b) == entered(entered(scan, a), b),
{
    let dirs = |entry: EntryView| is_scanned_dir(entry);
    let files = |entry: EntryView| is_kept_file(entry);
    lemma_filtered_in_order(a, b, dirs);
    lemma_filtered_in_order(a, b, files);
    reveal(Seq::filter);
    assert(entered(scan, seq![]) =~= scan);
    let both = entered(entered(scan, a), b);
    assert(entered(scan, a + b).pending =~= both.pending);
    assert(entered(scan, a + b).found =~= both.found);
}

proof fn lemma_filtered_in_order(
    a: Seq<EntryView>,
    b: Seq<EntryView>,
    keep: spec_fn(EntryView) -> bool,
)
    ensures
        filtered_paths(a + b, keep) == filtered_paths(a, keep) + filtered_paths(b, keep),
    decreases b.len(),
{
    reveal(Seq::filter);
    if b.len() == 0 {
        assert(a + b =~= a);
        assert(filtered_paths(b, keep) =~= seq![]);
    } else {
        let init = b.drop_last();
        lemma_filtered_in_order(a, init, keep);
        let n = b.len() - 1;
        let whole = a + b;
        assert(whole.take(a.len() + n) =~= a + init);
        assert(whole.take(a.len() + n + 1) =~= whole);
        assert(b.take(n) =~= init);
        assert(b.take(n + 1) =~= b);
        assert(whole[a.len() + n] == b[n]);
        lemma_filter_grows(whole, keep, a.len() + n);
        lemma_filter_grows(b, keep, n);
    }
    assert(filtered_paths(a + b, keep) =~= filtered_paths(a, keep) + filtered_paths(b, keep));
}

/// An entry that is an open directory is to be scanned, one that is a source is found, and another
/// changes nothing.
pub proof fn one_entry_is_scanned_or_found(scan: ScanView, entry: EntryView)
    ensures
        entered(scan, seq![entry]) == if entry.is_dir && has_open_name(entry.path) {
            ScanView { pending: scan.pending.push(entry.path), found: scan.found }
        } else if !entry.is_dir && has_source_name(entry.path) {
            ScanView { pending: scan.pending, found: scan.found.push(entry.path) }
        } else {
            scan
        },
{
    let entries = seq![entry];
    let none: Seq<EntryView> = seq![];
    let dirs = |entry: EntryView| is_scanned_dir(entry);
    let files = |entry: EntryView| is_kept_file(entry);
    open_directories_are_scanned(entry.path);
    sources_have_the_extension(entry.path);
    reveal(Seq::filter);
    assert(entries.take(0) =~= none);
    assert(entries.take(1) =~= entries);
    assert(filtered_paths(none, dirs) =~= seq![]);
    assert(filtered_paths(none, files) =~= seq![]);
    lemma_filter_grows(entries, dirs, 0);
    lemma_filter_grows(entries, files, 0);
    let after = entered(scan, entries);
    assert(after.pending =~= if entry.is_dir && has_open_name(entry.path) {
        scan.pending.push(entry.path)
    } else {
        scan.pending
    });
    assert(after.found =~= if !entry.is_dir && has_source_name(entry.path) {
        scan.found.push(entry.path)
    } else {
        scan.found
    });
}

/// Whether `walk` goes down from `root` from one open directory to another, each an entry of the one
/// before.
pub open spec fn goes_down(disk: Disk, root: PathView, walk: Seq<PathView>) -> bool {
    &&& walk.len() > 0
    &&& walk[0] == root
    &&& forall|k: int|
        #![trigger walk[k]]
        0 < k < walk.len() ==> has_open_name(walk[k]) && holds(disk, walk[k - 1], walk[k], true)
}

/// Whether `directory` can be read and holds `path`, as a directory or as a file.
pub open spec fn holds(disk: Disk, directory: PathView, path: PathView, is_dir: bool) -> bool {
    disk(directory) matches Some(entries) && exists|i: int|
        0 <= i < entries.len() && (#[trigger] entries[i]).path == path && entries[i].is_dir
            == is_dir
}

/// Whether `file` is a source that can be reached from `root` through open directories alone.
pub open spec fn is_in_reach(disk: Disk, root: PathView, file: PathView) -> bool {
    has_source_name(file) && exists|walk: Seq<PathView>|
        #[trigger] goes_down(disk, root, walk) && holds(disk, walk.last(), file, false)
}

/// A scan that has come to its end has found the sources that are in reach of its root: none behind
/// a hidden directory or in build output, and all others.
pub proof fn scans_find_what_is_in_reach(disk: Disk, root: PathView, n: nat, file: PathView)
    requires
        after_steps(disk, started(root), n).pending.len() == 0,
    ensures
        after_steps(disk, started(root), n).found.contains(file) <==> is_in_reach(disk, root, file),
{
    scans_find_what_lies_under_the_root(disk, root, n, file);
    sources_have_the_extension(file);
    if exists|depth: nat| lies_under(disk, root, file, depth) {
        let depth = choose|depth: nat| lies_under(disk, root, file, depth);
        let walk = lemma_walked_to(disk, root, file, depth);
    }
    if is_in_reach(disk, root, file) {
        let walk = choose|walk: Seq<PathView>|
            #[trigger] goes_down(disk, root, walk) && holds(disk, walk.last(), file, false);
        lemma_reached(disk, root, file, walk);
        assert(lies_under(disk, root, file, walk.len()));
    }
}

proof fn lemma_walked_to(disk: Disk, root: PathView, file: PathView, depth: nat) -> (walk: Seq<
    PathView,
>)
    requires
        lies_under(disk, root, file, depth),
    ensures
        is_source_path(file),
        goes_down(disk, root, walk),
        holds(disk, walk.last(), file, false),
    decreases depth,
{
    let entries = disk(root)->0;
    let i = choose|i: int|
        0 <= i < entries.len() && {
            let entry = #[trigger] entries[i];
            ||| is_kept_file(entry) && entry.path == file
            ||| depth > 0 && is_scanned_dir(entry) && lies_under(
                disk,
                entry.path,
                file,
                (depth - 1) as nat,
            )
        };
    let entry = entries[i];
    if is_kept_file(entry) && entry.path == file {
        seq![root]
    } else {
        open_directories_are_scanned(entry.path);
        let rest = lemma_walked_to(disk, entry.path, file, (depth - 1) as nat);
        let walk = seq![root] + rest;
        assert forall|k: int| #![trigger walk[k]] 0 < k < walk.len() implies has_open_name(walk[k])
            && holds(disk, walk[k - 1], walk[k], true) by {
            assert(walk[k] == rest[k - 1]);
            if k > 1 {
                assert(walk[k - 1] == rest[k - 2]);
            }
        }
        assert(walk.last() == rest.last());
        walk
    }
}

proof fn lemma_reached(disk: Disk, root: PathView, file: PathView, walk: Seq<PathView>)
    requires
        is_source_path(file),
        goes_down(disk, root, walk),
        holds(disk, walk.last(), file, false),
    ensures
        lies_under(disk, root, file, walk.len()),
    decreases walk.len(),
{
    let entries = disk(root)->0;
    if walk.len() == 1 {
        let i = choose|i: int|
            0 <= i < entries.len() && (#[trigger] entries[i]).path == file && entries[i].is_dir
                == false;
        assert(is_kept_file(entries[i]));
    } else {
        let next = walk[1];
        let rest = walk.drop_first();
        assert(has_open_name(walk[1]) && holds(disk, walk[0], walk[1], true));
        let i = choose|i: int|
            0 <= i < entries.len() && (#[trigger] entries[i]).path == next && entries[i].is_dir
                == true;
        open_directories_are_scanned(next);
        assert(is_scanned_dir(entries[i]));
        assert forall|k: int| #![trigger rest[k]] 0 < k < rest.len() implies has_open_name(rest[k])
            && holds(disk, rest[k - 1], rest[k], true) by {
            assert(rest[k] == walk[k + 1]);
            assert(rest[k - 1] == walk[k]);
        }
        assert(rest.last() == walk.last());
        lemma_reached(disk, next, file, rest);
    }
}

// What is read.

/// Tokens are taken up to the first that is the end of the source or that reads nothing.
pub proof fn tokens_are_read_until_nothing_comes(
    taken: Seq<TokenView>,
    offered: Seq<TokenView>,
    n: int,
)
    requires
        0 <= n <= offered.len(),
        forall|i: int|
            0 <= i < n ==> !((#[trigger] offered[i]).kind is Eof) && offered[i].start
                != offered[i].end,
        n < offered.len() ==> offered[n].kind is Eof || offered[n].start == offered[n].end,
    ensures
        offered_all(taken, offered) == taken + offered.take(n),
        forall|i: int| 0 <= i < n ==> !ends_stream(#[trigger] offered[i]),
        n < offered.len() ==> ends_stream(offered[n]),
{
    let ends = |token: TokenView| ends_stream(token);
    assert forall|i: int| 0 <= i < n implies !ends(#[trigger] offered[i]) by {
        assert(!(offered[i].kind is Eof));
    }
    lemma_is_first_index(offered, ends, n);
    streams_hold_what_comes_before_the_end(taken, offered);
}

} // verus!
