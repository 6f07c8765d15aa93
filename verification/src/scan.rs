//! Finding every Monkey C source under a directory.
//!
//! Build output is skipped: the Connect IQ toolchain copies sources into its output directory, and
//! indexing both copies would offer two identical destinations for every jump.
//!
//! A [`Scan`] decides where to look and what to keep. Reading directories is left to the caller, who
//! asks for the next one and hands in what it holds.
use crate::ascii::DOT;
use crate::path::{FilePath, PathView, file_name};
use crate::text::{from_utf8, same_text};
use vstd::prelude::*;
use vstd::string::*;
use vstd::utf8::*;

verus! {

/// Whether the name of a directory keeps it from being scanned: a hidden one, or one that holds
/// build output.
pub open spec fn skipped_name(name: Seq<char>) -> bool {
    ||| name.len() > 0 && name[0] == '.'
    ||| name == "bin"@
    ||| name == "build"@
    ||| name == "target"@
    ||| name == "node_modules"@
}

/// Whether a directory is not scanned. One without a name, or whose name is not text, is not.
pub open spec fn skipped(directory: PathView) -> bool {
    match file_name(directory) {
        Some(name) => !valid_utf8(name) || skipped_name(decode_utf8(name)),
        None => true,
    }
}

/// Whether a path ends in a name with the extension `mc`. A name that is nothing but `.mc` has no
/// extension.
pub open spec fn is_source_path(path: PathView) -> bool {
    match file_name(path) {
        Some(name) => name.len() > 3 && name.skip(name.len() - 3) == seq![DOT, 0x6du8, 0x63u8],
        None => false,
    }
}

pub fn is_skipped(directory: &FilePath) -> (skip: bool)
    ensures
        skip == skipped(directory@),
{
    let name = match directory.file_name() {
        Some(name) => name,
        None => {
            return true;
        },
    };
    match from_utf8(name.as_slice()) {
        Some(name) => (name.unicode_len() > 0 && name.get_char(0) == '.') || same_text(name, "bin")
            || same_text(name, "build") || same_text(name, "target") || same_text(
            name,
            "node_modules",
        ),
        None => true,
    }
}

pub fn is_source(path: &FilePath) -> (source: bool)
    ensures
        source == is_source_path(path@),
{
    match path.file_name() {
        Some(name) => {
            let n = name.len();
            if n > 3 {
                let ghost end = name@.skip(n - 3);
                let source = name[n - 3] == DOT && name[n - 2] == 0x6d && name[n - 1] == 0x63;
                proof {
                    assert(end[0] == name@[n - 3] && end[1] == name@[n - 2] && end[2]
                        == name@[n - 1]);
                    if source {
                        assert(end =~= seq![DOT, 0x6du8, 0x63u8]);
                    }
                }
                source
            } else {
                false
            }
        },
        None => false,
    }
}

/// Something that a directory holds.
pub struct DirEntry {
    pub path: FilePath,
    pub is_dir: bool,
}

/// What a [`DirEntry`] holds.
pub struct EntryView {
    pub path: PathView,
    pub is_dir: bool,
}

impl View for DirEntry {
    type V = EntryView;

    open spec fn view(&self) -> EntryView {
        EntryView { path: self.path@, is_dir: self.is_dir }
    }
}

pub open spec fn entry_views(entries: Seq<DirEntry>) -> Seq<EntryView> {
    entries.map_values(|entry: DirEntry| entry@)
}

pub open spec fn is_scanned_dir(entry: EntryView) -> bool {
    entry.is_dir && !skipped(entry.path)
}

pub open spec fn is_kept_file(entry: EntryView) -> bool {
    !entry.is_dir && is_source_path(entry.path)
}

/// The paths of the entries that `keep` accepts.
pub open spec fn filtered_paths(
    entries: Seq<EntryView>,
    keep: spec_fn(EntryView) -> bool,
) -> Seq<PathView> {
    entries.filter(keep).map_values(|entry: EntryView| entry.path)
}

/// The directories among `entries` that are to be scanned.
pub open spec fn scanned_dirs(entries: Seq<EntryView>) -> Seq<PathView> {
    filtered_paths(entries, |entry: EntryView| is_scanned_dir(entry))
}

/// The sources among `entries`.
pub open spec fn kept_files(entries: Seq<EntryView>) -> Seq<PathView> {
    filtered_paths(entries, |entry: EntryView| is_kept_file(entry))
}

/// How far a scan has come.
pub struct Scan {
    pending: Vec<FilePath>,
    found: Vec<FilePath>,
}

/// What a [`Scan`] holds: the directories still to be read, and the sources found so far.
#[verifier::ext_equal]
pub struct ScanView {
    pub pending: Seq<PathView>,
    pub found: Seq<PathView>,
}

pub open spec fn path_views(paths: Seq<FilePath>) -> Seq<PathView> {
    paths.map_values(|path: FilePath| path@)
}

impl View for Scan {
    type V = ScanView;

    closed spec fn view(&self) -> ScanView {
        ScanView { pending: path_views(self.pending@), found: path_views(self.found@) }
    }
}

/// A scan that has read nothing yet.
pub open spec fn started(root: PathView) -> ScanView {
    ScanView { pending: seq![root], found: seq![] }
}

/// A scan that has the entries of one more directory.
pub open spec fn entered(scan: ScanView, entries: Seq<EntryView>) -> ScanView {
    ScanView {
        pending: scan.pending + scanned_dirs(entries),
        found: scan.found + kept_files(entries),
    }
}

impl Scan {
    /// A scan of everything under `root`, whatever `root` itself is called.
    pub fn new(root: FilePath) -> (scan: Scan)
        ensures
            scan@ == started(root@),
    {
        let mut pending: Vec<FilePath> = Vec::new();
        pending.push(root);
        let scan = Scan { pending, found: Vec::new() };
        assert(scan@.pending =~= seq![root@]);
        assert(scan@.found =~= seq![]);
        scan
    }

    /// The directory to read next, or `None` if the scan is over.
    pub fn next_directory(&mut self) -> (directory: Option<FilePath>)
        ensures
            final(self)@.found == old(self)@.found,
            match directory {
                Some(directory) => old(self)@.pending == final(self)@.pending.push(directory@),
                None => old(self)@.pending.len() == 0 && final(self)@.pending.len() == 0,
            },
    {
        let ghost before = self.pending@;
        let directory = self.pending.pop();
        proof {
            if before.len() > 0 {
                assert(path_views(before) =~= path_views(self.pending@).push(before.last()@));
            }
        }
        directory
    }

    /// Take in what a directory holds.
    pub fn enter(&mut self, entries: Vec<DirEntry>)
        ensures
            final(self)@ == entered(old(self)@, entry_views(entries@)),
    {
        let ghost before = self@;
        let ghost views = entry_views(entries@);
        let ghost dirs = |entry: EntryView| is_scanned_dir(entry);
        let ghost files = |entry: EntryView| is_kept_file(entry);
        proof {
            assert(views.take(0) =~= seq![]);
            reveal(Seq::filter);
            assert(entered(before, views.take(0)) =~= before);
        }
        for entry in it: entries
            invariant
                entry_views(it.seq()) == views,
                dirs == (|entry: EntryView| is_scanned_dir(entry)),
                files == (|entry: EntryView| is_kept_file(entry)),
                self@ == entered(before, views.take(it.index() as int)),
        {
            let ghost i = it.index() as int;
            let ghost earlier = self@;
            let ghost pending = self.pending@;
            let ghost found = self.found@;
            proof {
                assert(views[i] == it.seq()[i]@);
                reveal(Seq::filter);
                assert(views.take(i + 1).drop_last() =~= views.take(i));
                assert(views.take(i + 1).last() == views[i]);
                lemma_filter_grows(views, dirs, i);
                lemma_filter_grows(views, files, i);
            }
            if entry.is_dir {
                if !is_skipped(&entry.path) {
                    self.pending.push(entry.path);
                    assert(path_views(self.pending@) =~= path_views(pending).push(views[i].path));
                }
            } else if is_source(&entry.path) {
                self.found.push(entry.path);
                assert(path_views(self.found@) =~= path_views(found).push(views[i].path));
            }
            assert(self@ =~= entered(before, views.take(i + 1)));
        }
        assert(views.take(views.len() as int) =~= views);
    }

    /// The sources that were found.
    pub fn found(self) -> (found: Vec<FilePath>)
        ensures
            path_views(found@) == self@.found,
    {
        self.found
    }
}

/// Filtering one more entry appends it or leaves it out.
pub proof fn lemma_filter_grows(entries: Seq<EntryView>, keep: spec_fn(EntryView) -> bool, i: int)
    requires
        0 <= i < entries.len(),
    ensures
        filtered_paths(entries.take(i + 1), keep) == if keep(entries[i]) {
            filtered_paths(entries.take(i), keep).push(entries[i].path)
        } else {
            filtered_paths(entries.take(i), keep)
        },
{
    reveal(Seq::filter);
    assert(entries.take(i + 1).drop_last() =~= entries.take(i));
    assert(entries.take(i + 1).last() == entries[i]);
    if keep(entries[i]) {
        assert(filtered_paths(entries.take(i + 1), keep) =~= filtered_paths(
            entries.take(i),
            keep,
        ).push(entries[i].path));
    }
}

// Laws.

/// What directories hold: the entries of each that can be read.
pub type Disk = spec_fn(PathView) -> Option<Seq<EntryView>>;

/// Whether `file` is a source that lies under `directory`, at most `depth` directories down, with no
/// skipped directory on the way.
pub open spec fn lies_under(disk: Disk, directory: PathView, file: PathView, depth: nat) -> bool
    decreases depth,
{
    match disk(directory) {
        Some(entries) => exists|i: int|
            0 <= i < entries.len() && {
                let entry = #[trigger] entries[i];
                ||| is_kept_file(entry) && entry.path == file
                ||| depth > 0 && is_scanned_dir(entry) && lies_under(
                    disk,
                    entry.path,
                    file,
                    (depth - 1) as nat,
                )
            },
        None => false,
    }
}

/// Whether a scan has found `file` or will find it.
pub open spec fn finds(disk: Disk, scan: ScanView, file: PathView) -> bool {
    scan.found.contains(file) || exists|i: int, depth: nat|
        0 <= i < scan.pending.len() && #[trigger] lies_under(disk, scan.pending[i], file, depth)
}

/// What a scan is like once the directory that is next has been read, or could not be.
pub open spec fn stepped(disk: Disk, scan: ScanView) -> ScanView {
    let rest = ScanView { pending: scan.pending.drop_last(), found: scan.found };
    match disk(scan.pending.last()) {
        Some(entries) => entered(rest, entries),
        None => rest,
    }
}

/// A scan starts out to find every source that lies under its root.
pub proof fn scans_start_with_everything(disk: Disk, root: PathView, file: PathView)
    ensures
        finds(disk, started(root), file) <==> exists|depth: nat|
            lies_under(disk, root, file, depth),
{
    let scan = started(root);
    assert(scan.pending[0] == root);
    if exists|depth: nat| lies_under(disk, root, file, depth) {
        let depth = choose|depth: nat| lies_under(disk, root, file, depth);
        assert(lies_under(disk, scan.pending[0], file, depth));
    }
}

/// Reading a directory changes what has been found, not what will have been in the end: nothing is
/// lost, and nothing comes in that does not lie under what was pending.
pub proof fn steps_lose_nothing_and_add_nothing(disk: Disk, scan: ScanView, file: PathView)
    requires
        scan.pending.len() > 0,
    ensures
        finds(disk, stepped(disk, scan), file) <==> finds(disk, scan, file),
{
    let next = stepped(disk, scan);
    let last = scan.pending.last();
    let n = scan.pending.len() - 1;
    let rest = scan.pending.drop_last();
    if let Some(entries) = disk(last) {
        lemma_filtered_paths(entries, |entry: EntryView| is_scanned_dir(entry));
        lemma_filtered_paths(entries, |entry: EntryView| is_kept_file(entry));
    }
    if finds(disk, scan, file) {
        if scan.found.contains(file) {
            let i = choose|i: int| 0 <= i < scan.found.len() && scan.found[i] == file;
            assert(next.found[i] == file);
        } else {
            let (i, depth) = choose|i: int, depth: nat|
                0 <= i < scan.pending.len() && #[trigger] lies_under(
                    disk,
                    scan.pending[i],
                    file,
                    depth,
                );
            if i < n {
                assert(next.pending[i] == scan.pending[i]);
                assert(lies_under(disk, next.pending[i], file, depth));
            } else {
                lemma_entering(disk, scan, file, depth);
            }
        }
    }
    if finds(disk, next, file) {
        lemma_nothing_new(disk, scan, file);
    }
}

/// What lies under the directory that is read is found in it or lies under what it adds.
proof fn lemma_entering(disk: Disk, scan: ScanView, file: PathView, depth: nat)
    requires
        scan.pending.len() > 0,
        lies_under(disk, scan.pending.last(), file, depth),
    ensures
        finds(disk, stepped(disk, scan), file),
{
    let next = stepped(disk, scan);
    let n = scan.pending.len() - 1;
    let entries = disk(scan.pending.last())->0;
    lemma_filtered_paths(entries, |entry: EntryView| is_scanned_dir(entry));
    lemma_filtered_paths(entries, |entry: EntryView| is_kept_file(entry));
    let k = choose|k: int|
        0 <= k < entries.len() && {
            let entry = #[trigger] entries[k];
            ||| is_kept_file(entry) && entry.path == file
            ||| depth > 0 && is_scanned_dir(entry) && lies_under(
                disk,
                entry.path,
                file,
                (depth - 1) as nat,
            )
        };
    let entry = entries[k];
    if is_kept_file(entry) && entry.path == file {
        assert(kept_files(entries).contains(file));
        let i = choose|i: int| 0 <= i < kept_files(entries).len() && kept_files(entries)[i] == file;
        assert(next.found[scan.found.len() + i] == file);
    } else {
        assert(scanned_dirs(entries).contains(entry.path));
        let i = choose|i: int|
            0 <= i < scanned_dirs(entries).len() && scanned_dirs(entries)[i] == entry.path;
        assert(next.pending[n + i] == entry.path);
        assert(lies_under(disk, next.pending[n + i], file, (depth - 1) as nat));
    }
}

/// What a scan finds after a step, it would have found before.
proof fn lemma_nothing_new(disk: Disk, scan: ScanView, file: PathView)
    requires
        scan.pending.len() > 0,
        finds(disk, stepped(disk, scan), file),
    ensures
        finds(disk, scan, file),
{
    let next = stepped(disk, scan);
    let n = scan.pending.len() - 1;
    let last = scan.pending.last();
    assert(scan.pending[n] == last);
    if let Some(entries) = disk(last) {
        lemma_filtered_paths(entries, |entry: EntryView| is_scanned_dir(entry));
        lemma_filtered_paths(entries, |entry: EntryView| is_kept_file(entry));
        if next.found.contains(file) {
            let i = choose|i: int| 0 <= i < next.found.len() && next.found[i] == file;
            if i < scan.found.len() {
                assert(scan.found[i] == file);
            } else {
                assert(kept_files(entries)[i - scan.found.len()] == file);
                assert(kept_files(entries).contains(file));
                let k = choose|k: int|
                    0 <= k < entries.len() && is_kept_file(#[trigger] entries[k])
                        && entries[k].path == file;
                assert(lies_under(disk, scan.pending[n], file, 0));
            }
        } else {
            let (i, depth) = choose|i: int, depth: nat|
                0 <= i < next.pending.len() && #[trigger] lies_under(
                    disk,
                    next.pending[i],
                    file,
                    depth,
                );
            if i < n {
                assert(next.pending[i] == scan.pending[i]);
                assert(lies_under(disk, scan.pending[i], file, depth));
            } else {
                let directory = next.pending[i];
                assert(scanned_dirs(entries)[i - n] == directory);
                assert(scanned_dirs(entries).contains(directory));
                let k = choose|k: int|
                    0 <= k < entries.len() && is_scanned_dir(#[trigger] entries[k])
                        && entries[k].path == directory;
                assert(lies_under(disk, scan.pending[n], file, depth + 1));
            }
        }
    } else if !scan.found.contains(file) {
        let (i, depth) = choose|i: int, depth: nat|
            0 <= i < next.pending.len() && #[trigger] lies_under(
                disk,
                next.pending[i],
                file,
                depth,
            );
        assert(next.pending[i] == scan.pending[i]);
        assert(lies_under(disk, scan.pending[i], file, depth));
    }
}

/// A scan that has nothing left to read has found exactly what it finds.
pub proof fn finished_scans_have_found_everything(disk: Disk, scan: ScanView, file: PathView)
    requires
        scan.pending.len() == 0,
    ensures
        finds(disk, scan, file) <==> scan.found.contains(file),
{
}

/// What a scan is like after `n` steps, or at its end if that comes first.
pub open spec fn after_steps(disk: Disk, scan: ScanView, n: nat) -> ScanView
    decreases n,
{
    if n == 0 {
        scan
    } else {
        let earlier = after_steps(disk, scan, (n - 1) as nat);
        if earlier.pending.len() == 0 {
            earlier
        } else {
            stepped(disk, earlier)
        }
    }
}

/// A scan that has come to its end has found the sources that lie under its root, and nothing else.
pub proof fn scans_find_what_lies_under_the_root(
    disk: Disk,
    root: PathView,
    n: nat,
    file: PathView,
)
    requires
        after_steps(disk, started(root), n).pending.len() == 0,
    ensures
        after_steps(disk, started(root), n).found.contains(file) <==> exists|depth: nat|
            lies_under(disk, root, file, depth),
{
    scans_start_with_everything(disk, root, file);
    lemma_steps_keep_what_is_found(disk, started(root), n, file);
    finished_scans_have_found_everything(disk, after_steps(disk, started(root), n), file);
}

proof fn lemma_steps_keep_what_is_found(disk: Disk, scan: ScanView, n: nat, file: PathView)
    ensures
        finds(disk, after_steps(disk, scan, n), file) <==> finds(disk, scan, file),
    decreases n,
{
    if n > 0 {
        lemma_steps_keep_what_is_found(disk, scan, (n - 1) as nat, file);
        let earlier = after_steps(disk, scan, (n - 1) as nat);
        if earlier.pending.len() > 0 {
            steps_lose_nothing_and_add_nothing(disk, earlier, file);
        }
    }
}

/// Whether directories that are scanned lie at most `depth` deep under `directory`.
pub open spec fn is_at_most_deep(disk: Disk, directory: PathView, depth: nat) -> bool
    decreases depth,
{
    match disk(directory) {
        Some(entries) => forall|i: int|
            0 <= i < entries.len() && is_scanned_dir(#[trigger] entries[i]) ==> depth > 0
                && is_at_most_deep(disk, entries[i].path, (depth - 1) as nat),
        None => true,
    }
}

/// A scan ends if the directories under its root are not nested without end.
pub proof fn scans_end(disk: Disk, root: PathView, depth: nat)
    requires
        is_at_most_deep(disk, root, depth),
    ensures
        exists|n: nat| #[trigger] after_steps(disk, started(root), n).pending.len() == 0,
{
    let n = lemma_directory_is_finished(disk, started(root), depth);
    assert(after_steps(disk, started(root), n).pending.len() == 0);
}

/// How many steps it takes until the directory that is next, and all under it, has been read.
proof fn lemma_directory_is_finished(disk: Disk, scan: ScanView, depth: nat) -> (n: nat)
    requires
        scan.pending.len() > 0,
        is_at_most_deep(disk, scan.pending.last(), depth),
    ensures
        after_steps(disk, scan, n).pending == scan.pending.drop_last(),
    decreases depth, 1nat, 0nat,
{
    let rest = scan.pending.drop_last();
    let next = stepped(disk, scan);
    assert(after_steps(disk, scan, 1) == next) by {
        reveal_with_fuel(after_steps, 2);
    }
    match disk(scan.pending.last()) {
        Some(entries) => {
            let dirs = scanned_dirs(entries);
            lemma_filtered_paths(entries, |entry: EntryView| is_scanned_dir(entry));
            if dirs.len() == 0 {
                assert(next.pending =~= rest);
                1
            } else {
                assert forall|i: int| 0 <= i < dirs.len() implies depth > 0 && is_at_most_deep(
                    disk,
                    #[trigger] dirs[i],
                    (depth - 1) as nat,
                ) by {
                    assert(dirs.contains(dirs[i]));
                    let k = choose|k: int|
                        0 <= k < entries.len() && is_scanned_dir(#[trigger] entries[k])
                            && entries[k].path == dirs[i];
                }
                assert(depth > 0) by {
                    let dir = dirs[0];
                    assert(dirs.contains(dir));
                }
                let n = lemma_directories_are_finished(disk, next, rest, dirs, (depth - 1) as nat);
                lemma_steps_add_up(disk, scan, 1, n);
                1 + n
            }
        },
        None => {
            assert(next.pending =~= rest);
            1
        },
    }
}

/// How many steps it takes until the last of what is pending, and all under it, has been read.
proof fn lemma_directories_are_finished(
    disk: Disk,
    scan: ScanView,
    rest: Seq<PathView>,
    dirs: Seq<PathView>,
    depth: nat,
) -> (n: nat)
    requires
        scan.pending == rest + dirs,
        forall|i: int| 0 <= i < dirs.len() ==> is_at_most_deep(disk, #[trigger] dirs[i], depth),
    ensures
        after_steps(disk, scan, n).pending == rest,
    decreases depth, 2nat, dirs.len(),
{
    if dirs.len() == 0 {
        assert(rest + dirs =~= rest);
        0
    } else {
        let fewer = dirs.drop_last();
        assert(scan.pending.last() == dirs[dirs.len() - 1]);
        let first = lemma_directory_is_finished(disk, scan, depth);
        let next = after_steps(disk, scan, first);
        assert(next.pending =~= rest + fewer);
        assert forall|i: int| 0 <= i < fewer.len() implies is_at_most_deep(
            disk,
            #[trigger] fewer[i],
            depth,
        ) by {
            assert(fewer[i] == dirs[i]);
        }
        let n = lemma_directories_are_finished(disk, next, rest, fewer, depth);
        lemma_steps_add_up(disk, scan, first, n);
        first + n
    }
}

proof fn lemma_steps_add_up(disk: Disk, scan: ScanView, m: nat, n: nat)
    ensures
        after_steps(disk, after_steps(disk, scan, m), n) == after_steps(disk, scan, m + n),
    decreases n,
{
    if n > 0 {
        lemma_steps_add_up(disk, scan, m, (n - 1) as nat);
    }
}

/// Whether `path` is the `i`th entry of `directory`.
pub open spec fn is_entry(disk: Disk, directory: PathView, i: int, path: PathView) -> bool {
    disk(directory) matches Some(entries) && 0 <= i < entries.len() && entries[i].path == path
}

/// Whether no path is listed twice, in one directory or in two.
pub open spec fn lists_once(disk: Disk) -> bool {
    forall|a: PathView, i: int, b: PathView, j: int, path: PathView| #[trigger]
        is_entry(disk, a, i, path) && #[trigger] is_entry(disk, b, j, path) ==> a == b && i == j
}

/// Whether `path` is an entry of one of `directories`.
spec fn listed_in(disk: Disk, directories: Seq<PathView>, path: PathView) -> bool {
    exists|k: int, i: int|
        0 <= k < directories.len() && #[trigger] is_entry(disk, directories[k], i, path)
}

/// What holds of a scan that has read the directories `read`, each once.
spec fn nothing_twice(disk: Disk, root: PathView, scan: ScanView, read: Seq<PathView>) -> bool {
    &&& (read + scan.pending).no_duplicates()
    &&& scan.found.no_duplicates()
    &&& forall|path: PathView| #[trigger] scan.found.contains(path) ==> listed_in(disk, read, path)
    &&& forall|path: PathView| #[trigger]
        (read + scan.pending).contains(path) ==> path == root || listed_in(disk, read, path)
}

/// Where no path is listed twice, and the root is not listed at all, a scan finds nothing twice,
/// however far it has come.
pub proof fn scans_find_nothing_twice(disk: Disk, root: PathView, n: nat)
    requires
        lists_once(disk),
        forall|directory: PathView, i: int| !#[trigger] is_entry(disk, directory, i, root),
    ensures
        after_steps(disk, started(root), n).found.no_duplicates(),
{
    lemma_nothing_twice(disk, root, n);
}

proof fn lemma_nothing_twice(disk: Disk, root: PathView, n: nat) -> (read: Seq<PathView>)
    requires
        lists_once(disk),
        forall|directory: PathView, i: int| !#[trigger] is_entry(disk, directory, i, root),
    ensures
        nothing_twice(disk, root, after_steps(disk, started(root), n), read),
    decreases n,
{
    if n == 0 {
        let read: Seq<PathView> = seq![];
        assert(read + started(root).pending =~= seq![root]);
        read
    } else {
        let read = lemma_nothing_twice(disk, root, (n - 1) as nat);
        let earlier = after_steps(disk, started(root), (n - 1) as nat);
        if earlier.pending.len() == 0 {
            read
        } else {
            lemma_step_adds_nothing_twice(disk, root, earlier, read);
            read.push(earlier.pending.last())
        }
    }
}

proof fn lemma_step_adds_nothing_twice(
    disk: Disk,
    root: PathView,
    scan: ScanView,
    read: Seq<PathView>,
)
    requires
        lists_once(disk),
        forall|directory: PathView, i: int| !#[trigger] is_entry(disk, directory, i, root),
        nothing_twice(disk, root, scan, read),
        scan.pending.len() > 0,
    ensures
        nothing_twice(disk, root, stepped(disk, scan), read.push(scan.pending.last())),
{
    let last = scan.pending.last();
    let more = read.push(last);
    let known = read + scan.pending;
    let rest = scan.pending.drop_last();
    let next = stepped(disk, scan);
    assert(known[known.len() - 1] == last);
    assert(!read.contains(last)) by {
        if read.contains(last) {
            let k = choose|k: int| 0 <= k < read.len() && read[k] == last;
            assert(known[k] == last);
        }
    }
    assert forall|path: PathView| listed_in(disk, read, path) implies #[trigger] listed_in(
        disk,
        more,
        path,
    ) by {
        let (k, i) = choose|k: int, i: int|
            0 <= k < read.len() && #[trigger] is_entry(disk, read[k], i, path);
        assert(more[k] == read[k]);
        assert(is_entry(disk, more[k], i, path));
    }
    let shuffled = more + rest;
    assert forall|path: PathView| #[trigger] shuffled.contains(path) implies known.contains(
        path,
    ) by {
        let k = choose|k: int| 0 <= k < shuffled.len() && shuffled[k] == path;
        if k < read.len() {
            assert(known[k] == path);
        } else if k > read.len() {
            assert(known[k - 1] == path);
        }
    }
    assert(shuffled.no_duplicates()) by {
        assert forall|a: int, b: int|
            0 <= a < shuffled.len() && 0 <= b < shuffled.len() && a != b implies shuffled[a]
            != shuffled[b] by {
            let x = lemma_place_before(read, scan.pending, a);
            let y = lemma_place_before(read, scan.pending, b);
            assert(known[x] != known[y]);
        }
    }
    if let Some(entries) = disk(last) {
        let dirs = scanned_dirs(entries);
        let files = kept_files(entries);
        let is_dir = |entry: EntryView| is_scanned_dir(entry);
        let is_file = |entry: EntryView| is_kept_file(entry);
        assert forall|i: int, j: int|
            0 <= i < entries.len() && 0 <= j < entries.len() && entries[i].path
                == entries[j].path implies i == j by {
            assert(is_entry(disk, last, i, entries[i].path));
            assert(is_entry(disk, last, j, entries[i].path));
        }
        lemma_filtered_once(entries, is_dir);
        lemma_filtered_once(entries, is_file);
        lemma_filtered_paths(entries, is_dir);
        lemma_filtered_paths(entries, is_file);
        assert forall|path: PathView| (dirs.contains(path) || files.contains(path)) implies
            #[trigger] listed_in(disk, more, path) && !listed_in(disk, read, path) && path
            != root by {
            let i = choose|i: int| 0 <= i < entries.len() && (#[trigger] entries[i]).path == path;
            assert(more[read.len() as int] == last);
            assert(is_entry(disk, more[read.len() as int], i, path));
            if listed_in(disk, read, path) {
                let (k, j) = choose|k: int, j: int|
                    0 <= k < read.len() && #[trigger] is_entry(disk, read[k], j, path);
                assert(is_entry(disk, last, i, path));
                assert(read.contains(read[k]));
            }
        }
        assert(more + next.pending =~= shuffled + dirs);
        assert forall|path: PathView| #[trigger] dirs.contains(path) implies !shuffled.contains(
            path,
        ) by {
            assert(listed_in(disk, more, path));
        }
        assert forall|path: PathView| #[trigger] files.contains(path) implies !scan.found.contains(
            path,
        ) by {
            assert(listed_in(disk, more, path));
        }
        lemma_joined_once(shuffled, dirs);
        lemma_joined_once(scan.found, files);
    } else {
        assert(more + next.pending =~= shuffled);
    }
}

/// Where the `i`th of what is known after a step stood before it.
proof fn lemma_place_before(read: Seq<PathView>, pending: Seq<PathView>, i: int) -> (k: int)
    requires
        pending.len() > 0,
        0 <= i < read.len() + pending.len(),
    ensures
        0 <= k < read.len() + pending.len(),
        (read + pending)[k] == (read.push(pending.last()) + pending.drop_last())[i],
        k == (if i < read.len() {
            i
        } else if i == read.len() {
            read.len() + pending.len() - 1
        } else {
            i - 1
        }),
{
    if i < read.len() {
        i
    } else if i == read.len() {
        read.len() + pending.len() - 1
    } else {
        i - 1
    }
}

/// Two lists without repetitions that share nothing make one without repetitions.
proof fn lemma_joined_once(a: Seq<PathView>, b: Seq<PathView>)
    requires
        a.no_duplicates(),
        b.no_duplicates(),
        forall|path: PathView| #[trigger] b.contains(path) ==> !a.contains(path),
    ensures
        (a + b).no_duplicates(),
        forall|path: PathView| #[trigger]
            (a + b).contains(path) <==> a.contains(path) || b.contains(path),
{
    let whole = a + b;
    assert forall|i: int, j: int|
        0 <= i < whole.len() && 0 <= j < whole.len() && i != j implies whole[i] != whole[j] by {
        if i < a.len() && j >= a.len() {
            assert(b.contains(b[j - a.len()]));
            assert(a.contains(a[i]));
        }
        if j < a.len() && i >= a.len() {
            assert(b.contains(b[i - a.len()]));
            assert(a.contains(a[j]));
        }
    }
    assert forall|path: PathView| #[trigger] whole.contains(path) <==> a.contains(path)
        || b.contains(path) by {
        if a.contains(path) {
            let i = choose|i: int| 0 <= i < a.len() && a[i] == path;
            assert(whole[i] == path);
        }
        if b.contains(path) {
            let i = choose|i: int| 0 <= i < b.len() && b[i] == path;
            assert(whole[a.len() + i] == path);
        }
        if whole.contains(path) {
            let i = choose|i: int| 0 <= i < whole.len() && whole[i] == path;
            if i < a.len() {
                assert(a[i] == path);
            } else {
                assert(b[i - a.len()] == path);
            }
        }
    }
}

/// Filtering entries whose paths all differ gives paths that all differ.
proof fn lemma_filtered_once(entries: Seq<EntryView>, keep: spec_fn(EntryView) -> bool)
    requires
        forall|i: int, j: int|
            0 <= i < entries.len() && 0 <= j < entries.len() && (#[trigger] entries[i]).path == (
            #[trigger] entries[j]).path ==> i == j,
    ensures
        filtered_paths(entries, keep).no_duplicates(),
    decreases entries.len(),
{
    reveal(Seq::filter);
    if entries.len() > 0 {
        let init = entries.drop_last();
        let last = entries[entries.len() - 1];
        let earlier = filtered_paths(init, keep);
        assert forall|i: int, j: int|
            0 <= i < init.len() && 0 <= j < init.len() && (#[trigger] init[i]).path == (
            #[trigger] init[j]).path implies i == j by {
            assert(init[i] == entries[i] && init[j] == entries[j]);
        }
        lemma_filtered_once(init, keep);
        lemma_filtered_paths(init, keep);
        if keep(last) {
            assert(filtered_paths(entries, keep) =~= earlier.push(last.path));
            assert(!earlier.contains(last.path)) by {
                if earlier.contains(last.path) {
                    let k = choose|k: int|
                        0 <= k < init.len() && keep(#[trigger] init[k]) && init[k].path
                            == last.path;
                    assert(entries[k] == init[k]);
                }
            }
            assert forall|i: int, j: int|
                0 <= i <= earlier.len() && 0 <= j <= earlier.len() && i != j implies earlier.push(
                last.path,
            )[i] != earlier.push(last.path)[j] by {
                if i == earlier.len() {
                    assert(earlier.contains(earlier[j]));
                }
                if j == earlier.len() {
                    assert(earlier.contains(earlier[i]));
                }
            }
        } else {
            assert(filtered_paths(entries, keep) =~= earlier);
        }
    }
}

/// Filtering keeps the paths of the entries that are to be kept, and no others.
pub proof fn lemma_filtered_paths(entries: Seq<EntryView>, keep: spec_fn(EntryView) -> bool)
    ensures
        forall|path: PathView| #[trigger]
            filtered_paths(entries, keep).contains(path) <==> exists|k: int|
                0 <= k < entries.len() && keep(#[trigger] entries[k]) && entries[k].path == path,
    decreases entries.len(),
{
    reveal(Seq::filter);
    let paths = filtered_paths(entries, keep);
    if entries.len() > 0 {
        let init = entries.drop_last();
        lemma_filtered_paths(init, keep);
        let earlier = filtered_paths(init, keep);
        let last = entries[entries.len() - 1];
        assert forall|path: PathView| #[trigger] paths.contains(path) <==> exists|k: int|
            0 <= k < entries.len() && keep(#[trigger] entries[k]) && entries[k].path == path by {
            if keep(last) {
                assert(paths =~= earlier.push(last.path));
            } else {
                assert(paths =~= earlier);
            }
            if paths.contains(path) {
                let i = choose|i: int| 0 <= i < paths.len() && paths[i] == path;
                if i < earlier.len() {
                    assert(earlier[i] == path);
                    assert(earlier.contains(path));
                    let k = choose|k: int|
                        0 <= k < init.len() && keep(#[trigger] init[k]) && init[k].path == path;
                    assert(entries[k] == init[k]);
                }
            }
            if exists|k: int|
                0 <= k < entries.len() && keep(#[trigger] entries[k]) && entries[k].path == path {
                let k = choose|k: int|
                    0 <= k < entries.len() && keep(#[trigger] entries[k]) && entries[k].path
                        == path;
                if k < init.len() {
                    assert(init[k] == entries[k]);
                    assert(earlier.contains(path));
                    let i = choose|i: int| 0 <= i < earlier.len() && earlier[i] == path;
                    assert(paths[i] == path);
                } else {
                    assert(paths[paths.len() - 1] == path);
                }
            }
        }
    }
}

} // verus!
