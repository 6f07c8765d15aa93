//! The set of Monkey C sources that names are resolved against.
//!
//! Cross-file navigation has to see files the editor never opened, so the workspace is seeded from
//! disk at startup, and what the client says takes precedence from then on: an open buffer is the
//! truth for its file, and closing one falls back to disk rather than forgetting the file.
//!
//! Sources are keyed by path rather than by URI; [`crate::uri`] says why. Reading the disk is left
//! to the caller, who hands in what was read.
use crate::order::{Order, strict_total};
use crate::path::{
    Component, FilePath, PathView, components, components_before, paths_are_totally_ordered,
};
use vstd::prelude::*;

verus! {

/// A source and where it lives.
struct Source {
    path: FilePath,
    text: String,
}

/// What is known of a source: its path, as it was first spelled, and its text.
#[verifier::ext_equal]
pub struct SourceView {
    pub path: PathView,
    pub text: Seq<char>,
}

/// What tells one file from another.
pub type Key = Seq<Component<Seq<u8>>>;

/// The file that a path names.
pub open spec fn key(path: PathView) -> Key {
    components(path)
}

/// Whether `listing` has the file `file` at `i`.
pub open spec fn listed_at(listing: Seq<SourceView>, file: Key, i: int) -> bool {
    0 <= i < listing.len() && key(listing[i].path) == file
}

/// The sources of a listing by the file they are.
pub open spec fn by_file(listing: Seq<SourceView>) -> Map<Key, SourceView> {
    Map::new(
        |file: Key| exists|i: int| listed_at(listing, file, i),
        |file: Key| listing[choose|i: int| listed_at(listing, file, i)],
    )
}

/// Whether a listing is in path order, which also means that it lists no file twice.
pub open spec fn in_path_order(listing: Seq<SourceView>) -> bool {
    forall|i: int, j: int|
        0 <= i < j < listing.len() ==> components_before(
            key(#[trigger] listing[i].path),
            key(#[trigger] listing[j].path),
        )
}

/// The sources `files` with `text` for the file at `path`. A file that is known already keeps the
/// spelling of its path.
pub open spec fn with_source(
    files: Map<Key, SourceView>,
    path: PathView,
    text: Seq<char>,
) -> Map<Key, SourceView> {
    let known = files.contains_key(key(path));
    files.insert(
        key(path),
        SourceView {
            path: if known {
                files[key(path)].path
            } else {
                path
            },
            text,
        },
    )
}

/// The Monkey C sources that are known.
pub struct Workspace {
    files: Vec<Source>,
}

impl Workspace {
    #[verifier::type_invariant]
    spec fn ordered(self) -> bool {
        in_path_order(self.listing())
    }

    /// The sources in path order.
    pub closed spec fn listing(self) -> Seq<SourceView> {
        source_views(self.files@)
    }
}

impl View for Workspace {
    type V = Map<Key, SourceView>;

    open spec fn view(&self) -> Map<Key, SourceView> {
        by_file(self.listing())
    }
}

spec fn source_view(source: Source) -> SourceView {
    SourceView { path: source.path@, text: source.text@ }
}

spec fn source_views(files: Seq<Source>) -> Seq<SourceView> {
    files.map_values(|source: Source| source_view(source))
}

/// No file is listed twice.
pub proof fn lemma_listed_once(listing: Seq<SourceView>, i: int, j: int)
    requires
        in_path_order(listing),
        0 <= i < listing.len(),
        0 <= j < listing.len(),
        key(listing[i].path) == key(listing[j].path),
    ensures
        i == j,
{
    paths_are_totally_ordered();
    let before = |a: Key, b: Key| components_before(a, b);
    assert(!before(key(listing[i].path), key(listing[i].path)));
    if i < j {
        assert(before(key(listing[i].path), key(listing[j].path)));
    }
    if j < i {
        assert(before(key(listing[j].path), key(listing[i].path)));
    }
}

/// Looking a file up finds it where it is listed.
pub proof fn lemma_by_file(listing: Seq<SourceView>, i: int)
    requires
        in_path_order(listing),
        0 <= i < listing.len(),
    ensures
        by_file(listing).contains_key(key(listing[i].path)),
        by_file(listing)[key(listing[i].path)] == listing[i],
{
    let file = key(listing[i].path);
    assert(listed_at(listing, file, i));
    let j = choose|j: int| listed_at(listing, file, j);
    lemma_listed_once(listing, i, j);
}

proof fn lemma_same_files(left: Map<Key, SourceView>, right: Map<Key, SourceView>)
    requires
        forall|file: Key| #[trigger]
            left.contains_key(file) ==> right.contains_key(file) && left[file] == right[file],
        forall|file: Key| #[trigger] right.contains_key(file) ==> left.contains_key(file),
    ensures
        left == right,
{
    assert forall|file: Key| left.dom().contains(file) <==> right.dom().contains(file) by {
        assert(left.contains_key(file) <==> right.contains_key(file));
    }
    assert forall|file: Key| #[trigger] left.dom().contains(file) implies left[file]
        == right[file] by {
        assert(left.contains_key(file));
    }
    assert(left =~= right);
}

/// Putting a new file in its place adds it.
proof fn lemma_insert(listing: Seq<SourceView>, i: int, source: SourceView)
    requires
        in_path_order(listing),
        0 <= i <= listing.len(),
        forall|j: int|
            0 <= j < i ==> components_before(key(#[trigger] listing[j].path), key(source.path)),
        forall|j: int|
            i <= j < listing.len() ==> components_before(
                key(source.path),
                key(#[trigger] listing[j].path),
            ),
    ensures
        in_path_order(listing.insert(i, source)),
        !by_file(listing).contains_key(key(source.path)),
        by_file(listing.insert(i, source)) == by_file(listing).insert(key(source.path), source),
{
    let longer = listing.insert(i, source);
    assert forall|a: int, b: int| 0 <= a < b < longer.len() implies components_before(
        key(#[trigger] longer[a].path),
        key(#[trigger] longer[b].path),
    ) by {
        let x = if a < i {
            a
        } else {
            a - 1
        };
        let y = if b < i {
            b
        } else {
            b - 1
        };
        if a == i {
            assert(longer[b] == listing[y]);
        } else if b == i {
            assert(longer[a] == listing[x]);
        } else {
            assert(longer[a] == listing[x]);
            assert(longer[b] == listing[y]);
        }
    }
    if by_file(listing).contains_key(key(source.path)) {
        let j = choose|j: int| listed_at(listing, key(source.path), j);
        paths_are_totally_ordered();
        let before = |a: Key, b: Key| components_before(a, b);
        assert(!before(key(source.path), key(source.path)));
        assert(before(key(listing[j].path), key(source.path)) || before(
            key(source.path),
            key(listing[j].path),
        ));
    }
    let left = by_file(longer);
    let right = by_file(listing).insert(key(source.path), source);
    assert(longer[i] == source);
    lemma_by_file(longer, i);
    assert forall|file: Key| #[trigger] left.contains_key(file) implies right.contains_key(file)
        && left[file] == right[file] by {
        let a = choose|a: int| listed_at(longer, file, a);
        lemma_by_file(longer, a);
        if a != i {
            let x = if a < i {
                a
            } else {
                a - 1
            };
            assert(longer[a] == listing[x]);
            lemma_by_file(listing, x);
            if file == key(source.path) {
                lemma_listed_once(longer, a, i);
            }
        }
    }
    assert forall|file: Key| #[trigger] right.contains_key(file) implies left.contains_key(file) by {
        if file != key(source.path) {
            let x = choose|x: int| listed_at(listing, file, x);
            let a = if x < i {
                x
            } else {
                x + 1
            };
            assert(longer[a] == listing[x]);
            assert(listed_at(longer, file, a));
        }
    }
    lemma_same_files(left, right);
}

/// Giving a listed file another text changes that file and no other.
proof fn lemma_update(listing: Seq<SourceView>, i: int, text: Seq<char>)
    requires
        in_path_order(listing),
        0 <= i < listing.len(),
    ensures
        ({
            let source = SourceView { path: listing[i].path, text };
            &&& in_path_order(listing.update(i, source))
            &&& by_file(listing.update(i, source)) == by_file(listing).insert(
                key(source.path),
                source,
            )
        }),
{
    let source = SourceView { path: listing[i].path, text };
    let changed = listing.update(i, source);
    assert(forall|a: int| 0 <= a < listing.len() ==> #[trigger] changed[a].path == listing[a].path);
    let left = by_file(changed);
    let right = by_file(listing).insert(key(source.path), source);
    lemma_by_file(changed, i);
    assert forall|file: Key| #[trigger] left.contains_key(file) implies right.contains_key(file)
        && left[file] == right[file] by {
        let a = choose|a: int| listed_at(changed, file, a);
        lemma_by_file(changed, a);
        lemma_by_file(listing, a);
        if file == key(source.path) {
            lemma_listed_once(changed, a, i);
        }
    }
    assert forall|file: Key| #[trigger] right.contains_key(file) implies left.contains_key(file) by {
        if file != key(source.path) {
            let a = choose|a: int| listed_at(listing, file, a);
            assert(listed_at(changed, file, a));
        }
    }
    lemma_same_files(left, right);
}

/// Taking a listed file out forgets it and no other.
proof fn lemma_remove(listing: Seq<SourceView>, i: int)
    requires
        in_path_order(listing),
        0 <= i < listing.len(),
    ensures
        in_path_order(listing.remove(i)),
        by_file(listing.remove(i)) == by_file(listing).remove(key(listing[i].path)),
{
    let shorter = listing.remove(i);
    assert forall|a: int, b: int| 0 <= a < b < shorter.len() implies components_before(
        key(#[trigger] shorter[a].path),
        key(#[trigger] shorter[b].path),
    ) by {
        let x = if a < i {
            a
        } else {
            a + 1
        };
        let y = if b < i {
            b
        } else {
            b + 1
        };
        assert(shorter[a] == listing[x]);
        assert(shorter[b] == listing[y]);
    }
    let left = by_file(shorter);
    let right = by_file(listing).remove(key(listing[i].path));
    assert forall|file: Key| #[trigger] left.contains_key(file) implies right.contains_key(file)
        && left[file] == right[file] by {
        let a = choose|a: int| listed_at(shorter, file, a);
        let x = if a < i {
            a
        } else {
            a + 1
        };
        assert(shorter[a] == listing[x]);
        lemma_by_file(shorter, a);
        lemma_by_file(listing, x);
        if file == key(listing[i].path) {
            lemma_listed_once(listing, x, i);
        }
    }
    assert forall|file: Key| #[trigger] right.contains_key(file) implies left.contains_key(file) by {
        let x = choose|x: int| listed_at(listing, file, x);
        let a = if x < i {
            x
        } else {
            x - 1
        };
        assert(x != i);
        assert(shorter[a] == listing[x]);
        assert(listed_at(shorter, file, a));
    }
    lemma_same_files(left, right);
}

/// Where a file is listed, or where it would have to be.
struct Place {
    index: usize,
    found: bool,
}

spec fn is_place(listing: Seq<SourceView>, file: Key, place: Place) -> bool {
    &&& place.index <= listing.len()
    &&& forall|j: int|
        0 <= j < place.index ==> components_before(key(#[trigger] listing[j].path), file)
    &&& place.found ==> place.index < listing.len() && key(listing[place.index as int].path) == file
    &&& !place.found ==> forall|j: int|
        place.index <= j < listing.len() ==> components_before(file, key(#[trigger] listing[j].path))
}

/// Find a file by halving the listing.
fn find(files: &Vec<Source>, path: &FilePath) -> (place: Place)
    requires
        in_path_order(source_views(files@)),
    ensures
        is_place(source_views(files@), key(path@), place),
{
    let ghost listing = source_views(files@);
    let ghost before = |a: Key, b: Key| components_before(a, b);
    proof {
        paths_are_totally_ordered();
    }
    let mut low: usize = 0;
    let mut high: usize = files.len();
    while low < high
        invariant
            low <= high <= files.len(),
            listing == source_views(files@),
            in_path_order(listing),
            before == (|a: Key, b: Key| components_before(a, b)),
            strict_total(before),
            forall|j: int| 0 <= j < low ==> before(key(#[trigger] listing[j].path), key(path@)),
            forall|j: int|
                high <= j < files.len() ==> before(key(path@), key(#[trigger] listing[j].path)),
        decreases high - low,
    {
        let middle = low + (high - low) / 2;
        assert(listing[middle as int].path == files@[middle as int].path@);
        match files[middle].path.order(path) {
            Order::Before => {
                assert forall|j: int| 0 <= j < middle + 1 implies before(
                    key(#[trigger] listing[j].path),
                    key(path@),
                ) by {
                    if j < middle {
                        assert(before(key(listing[j].path), key(listing[middle as int].path)));
                        assert(before(key(listing[middle as int].path), key(path@)));
                    }
                }
                low = middle + 1;
            },
            Order::Same => {
                assert forall|j: int| 0 <= j < middle implies before(
                    key(#[trigger] listing[j].path),
                    key(path@),
                ) by {
                    assert(before(key(listing[j].path), key(listing[middle as int].path)));
                }
                return Place { index: middle, found: true };
            },
            Order::After => {
                assert forall|j: int| middle <= j < files.len() implies before(
                    key(path@),
                    key(#[trigger] listing[j].path),
                ) by {
                    if middle < j {
                        assert(before(key(listing[middle as int].path), key(listing[j].path)));
                        assert(before(key(path@), key(listing[middle as int].path)));
                    }
                }
                high = middle;
            },
        }
    }
    Place { index: low, found: false }
}

/// A file is in a listing if and only if it has a place there.
proof fn lemma_place(listing: Seq<SourceView>, file: Key, place: Place)
    requires
        in_path_order(listing),
        is_place(listing, file, place),
    ensures
        place.found == by_file(listing).contains_key(file),
        place.found ==> by_file(listing)[file] == listing[place.index as int],
{
    if place.found {
        lemma_by_file(listing, place.index as int);
    } else if by_file(listing).contains_key(file) {
        let i = choose|i: int| listed_at(listing, file, i);
        paths_are_totally_ordered();
        let before = |a: Key, b: Key| components_before(a, b);
        assert(!before(file, file));
        assert(before(key(listing[i].path), file) || before(file, key(listing[i].path)));
    }
}

impl Default for Workspace {
    fn default() -> (workspace: Workspace)
        ensures
            workspace@ == Map::<Key, SourceView>::empty(),
            workspace.listing() == Seq::<SourceView>::empty(),
    {
        let workspace = Workspace { files: Vec::new() };
        assert(workspace.listing() =~= Seq::empty());
        assert(workspace@ =~= Map::empty());
        workspace
    }
}

impl Workspace {
    /// Take `text` for the file at `path`.
    pub fn set(&mut self, path: FilePath, text: String)
        ensures
            final(self)@ == with_source(old(self)@, path@, text@),
    {
        proof {
            use_type_invariant(&*self);
        }
        let mut files: Vec<Source> = Vec::new();
        std::mem::swap(&mut files, &mut self.files);
        put(&mut files, path, text);
        self.files = files;
    }

    /// The text of the file at `path`.
    pub fn text(&self, path: &FilePath) -> (text: Option<&str>)
        ensures
            (match text {
                Some(text) => Some(text@),
                None => None,
            }) == (if self@.contains_key(key(path@)) {
                Some(self@[key(path@)].text)
            } else {
                None
            }),
    {
        proof {
            use_type_invariant(self);
        }
        let place = find(&self.files, path);
        proof {
            lemma_place(self.listing(), key(path@), place);
        }
        if place.found {
            Some(self.files[place.index].text.as_str())
        } else {
            None
        }
    }
}

/// Put a source in its place, or give it another text if it is listed.
fn put(files: &mut Vec<Source>, path: FilePath, text: String)
    requires
        in_path_order(source_views(old(files)@)),
    ensures
        in_path_order(source_views(final(files)@)),
        by_file(source_views(final(files)@)) == with_source(
            by_file(source_views(old(files)@)),
            path@,
            text@,
        ),
{
    let ghost listing = source_views(files@);
    let place = find(files, &path);
    let ghost i = place.index as int;
    proof {
        lemma_place(listing, key(path@), place);
    }
    if place.found {
        let known = files.remove(place.index);
        proof {
            lemma_update(listing, i, text@);
        }
        files.insert(place.index, Source { path: known.path, text });
        assert(source_views(files@) =~= listing.update(
            i,
            SourceView { path: listing[i].path, text: text@ },
        ));
    } else {
        proof {
            lemma_insert(listing, i, SourceView { path: path@, text: text@ });
        }
        files.insert(place.index, Source { path, text });
        assert(source_views(files@) =~= listing.insert(
            i,
            SourceView { path: path@, text: text@ },
        ));
    }
}

/// What reading a file gave: its path, and its text if it could be read.
pub open spec fn read_view(file: (FilePath, Option<String>)) -> (PathView, Option<Seq<char>>) {
    (
        file.0@,
        match file.1 {
            Some(text) => Some(text@),
            None => None,
        },
    )
}

pub open spec fn read_views(files: Seq<(FilePath, Option<String>)>) -> Seq<
    (PathView, Option<Seq<char>>),
> {
    files.map_values(|file: (FilePath, Option<String>)| read_view(file))
}

/// `files` and a file that was read from disk. One that is known already stays as it is, and one
/// that could not be read adds nothing.
pub open spec fn seeded_with(
    files: Map<Key, SourceView>,
    file: (PathView, Option<Seq<char>>),
) -> Map<Key, SourceView> {
    match file.1 {
        Some(text) => if files.contains_key(key(file.0)) {
            files
        } else {
            files.insert(key(file.0), SourceView { path: file.0, text })
        },
        None => files,
    }
}

/// `files` and everything that was read from disk, first come first served.
pub open spec fn seeded(
    files: Map<Key, SourceView>,
    read: Seq<(PathView, Option<Seq<char>>)>,
) -> Map<Key, SourceView>
    decreases read.len(),
{
    if read.len() == 0 {
        files
    } else {
        seeded_with(seeded(files, read.drop_last()), read.last())
    }
}

/// What stands on disk where a file is looked for.
pub enum OnDisk {
    Text(String),
    /// Something is there, or may be, but it cannot be read as text.
    Unreadable,
    /// There is no such file any more.
    Gone,
}

/// What an [`OnDisk`] holds.
pub enum OnDiskView {
    Text(Seq<char>),
    Unreadable,
    Gone,
}

impl View for OnDisk {
    type V = OnDiskView;

    open spec fn view(&self) -> OnDiskView {
        match self {
            OnDisk::Text(text) => OnDiskView::Text(text@),
            OnDisk::Unreadable => OnDiskView::Unreadable,
            OnDisk::Gone => OnDiskView::Gone,
        }
    }
}

/// `files` once the client has closed the file at `path`. What cannot be read stays as it is known.
pub open spec fn closed_file(
    files: Map<Key, SourceView>,
    path: PathView,
    disk: OnDiskView,
) -> Map<Key, SourceView> {
    match disk {
        OnDiskView::Text(text) => with_source(files, path, text),
        OnDiskView::Unreadable => files,
        OnDiskView::Gone => files.remove(key(path)),
    }
}

pub open spec fn source_ref_views(sources: Seq<(&FilePath, &str)>) -> Seq<SourceView> {
    sources.map_values(
        |source: (&FilePath, &str)| (SourceView { path: source.0@, text: source.1@ }),
    )
}

impl Workspace {
    /// Seed from the files that were found under a root and read, without disturbing buffers the
    /// client already sent.
    pub fn load_root(&mut self, files: Vec<(FilePath, Option<String>)>)
        ensures
            final(self)@ == seeded(old(self)@, read_views(files@)),
    {
        let ghost before = self@;
        let ghost read = read_views(files@);
        assert(read.take(0) =~= seq![]);
        for file in it: files
            invariant
                read_views(it.seq()) == read,
                self@ == seeded(before, read.take(it.index() as int)),
        {
            let ghost i = it.index() as int;
            proof {
                assert(read[i] == read_view(it.seq()[i]));
                assert(read.take(i + 1).drop_last() =~= read.take(i));
                assert(read.take(i + 1).last() == read[i]);
            }
            let (path, text) = file;
            if let Some(text) = text {
                self.seed(path, text);
            }
        }
        assert(read.take(read.len() as int) =~= read);
    }

    /// Take `text` for the file at `path` unless the file is known.
    fn seed(&mut self, path: FilePath, text: String)
        ensures
            final(self)@ == seeded_with(old(self)@, (path@, Some(text@))),
    {
        if self.text(&path).is_none() {
            self.set(path, text);
        }
    }

    /// Drop the client's buffer for `path`, given what is on disk there. The file stays in the
    /// workspace at its on-disk contents so other files can still resolve into it; only a file that
    /// has gone from disk is forgotten. One that is there but cannot be read stays as it is known.
    pub fn close(&mut self, path: &FilePath, disk: OnDisk)
        ensures
            final(self)@ == closed_file(old(self)@, path@, disk@),
    {
        match disk {
            OnDisk::Text(text) => {
                self.set(path.clone(), text);
            },
            OnDisk::Unreadable => {},
            OnDisk::Gone => {
                self.forget(path);
            },
        }
    }

    fn forget(&mut self, path: &FilePath)
        ensures
            final(self)@ == old(self)@.remove(key(path@)),
    {
        proof {
            use_type_invariant(&*self);
        }
        let ghost listing = self.listing();
        let mut files: Vec<Source> = Vec::new();
        std::mem::swap(&mut files, &mut self.files);
        let place = find(&files, path);
        proof {
            lemma_place(listing, key(path@), place);
        }
        if place.found {
            let ghost i = place.index as int;
            proof {
                lemma_remove(listing, i);
            }
            files.remove(place.index);
            assert(source_views(files@) =~= listing.remove(i));
        } else {
            assert(by_file(listing).remove(key(path@)) =~= by_file(listing));
        }
        self.files = files;
    }

    /// Every known source, in a stable path order so results don't shuffle between requests.
    pub fn sources(&self) -> (sources: Vec<(&FilePath, &str)>)
        ensures
            source_ref_views(sources@) == self.listing(),
            in_path_order(self.listing()),
    {
        proof {
            use_type_invariant(self);
        }
        let mut sources: Vec<(&FilePath, &str)> = Vec::new();
        let mut i: usize = 0;
        while i < self.files.len()
            invariant
                i <= self.files.len(),
                source_ref_views(sources@) == self.listing().take(i as int),
            decreases self.files.len() - i,
        {
            let ghost before = sources@;
            sources.push((&self.files[i].path, self.files[i].text.as_str()));
            proof {
                assert(source_ref_views(sources@) =~= source_ref_views(before).push(
                    self.listing()[i as int],
                ));
                assert(self.listing().take(i + 1) =~= self.listing().take(i as int).push(
                    self.listing()[i as int],
                ));
            }
            i += 1;
        }
        assert(self.listing().take(i as int) =~= self.listing());
        sources
    }
}

// Laws.

/// The last text that a file was given is the one that is read, under whatever spelling of its path,
/// and no other file is disturbed.
pub proof fn the_last_text_is_read_back(
    files: Map<Key, SourceView>,
    path: PathView,
    text: Seq<char>,
    other: PathView,
)
    ensures
        key(other) == key(path) ==> with_source(files, path, text).contains_key(key(other))
            && with_source(files, path, text)[key(other)].text == text,
        key(other) != key(path) ==> with_source(files, path, text).contains_key(key(other))
            == files.contains_key(key(other)) && with_source(files, path, text)[key(other)]
            == files[key(other)],
{
}

/// Seeding from disk leaves everything alone that is known already.
pub proof fn seeding_keeps_what_is_known(
    files: Map<Key, SourceView>,
    read: Seq<(PathView, Option<Seq<char>>)>,
    file: Key,
)
    requires
        files.contains_key(file),
    ensures
        seeded(files, read).contains_key(file),
        seeded(files, read)[file] == files[file],
    decreases read.len(),
{
    if read.len() > 0 {
        seeding_keeps_what_is_known(files, read.drop_last(), file);
    }
}

/// Seeding takes in every file that could be read, at the text that was read first.
pub proof fn seeding_adds_what_was_read(
    files: Map<Key, SourceView>,
    read: Seq<(PathView, Option<Seq<char>>)>,
    i: int,
)
    requires
        0 <= i < read.len(),
        read[i].1 is Some,
        !files.contains_key(key(read[i].0)),
        forall|j: int|
            0 <= j < i ==> (#[trigger] read[j]).1 is None || key(read[j].0) != key(read[i].0),
    ensures
        seeded(files, read).contains_key(key(read[i].0)),
        seeded(files, read)[key(read[i].0)] == (SourceView {
            path: read[i].0,
            text: read[i].1->0,
        }),
    decreases read.len(),
{
    let init = read.drop_last();
    if i < init.len() {
        assert forall|j: int| 0 <= j < i implies (#[trigger] init[j]).1 is None || key(init[j].0)
            != key(init[i].0) by {
            assert(init[j] == read[j]);
        }
        seeding_adds_what_was_read(files, init, i);
    } else {
        lemma_unread_files_stay_unknown(files, init, key(read[i].0));
    }
}

/// Seeding takes in nothing else.
pub proof fn seeding_adds_nothing_else(
    files: Map<Key, SourceView>,
    read: Seq<(PathView, Option<Seq<char>>)>,
    file: Key,
)
    requires
        !files.contains_key(file),
        seeded(files, read).contains_key(file),
    ensures
        exists|i: int|
            0 <= i < read.len() && (#[trigger] read[i]).1 is Some && key(read[i].0) == file,
{
    if !(exists|i: int|
        0 <= i < read.len() && (#[trigger] read[i]).1 is Some && key(read[i].0) == file) {
        lemma_unread_files_stay_unknown(files, read, file);
    }
}

proof fn lemma_unread_files_stay_unknown(
    files: Map<Key, SourceView>,
    read: Seq<(PathView, Option<Seq<char>>)>,
    file: Key,
)
    requires
        !files.contains_key(file),
        forall|j: int|
            0 <= j < read.len() ==> (#[trigger] read[j]).1 is None || key(read[j].0) != file,
    ensures
        !seeded(files, read).contains_key(file),
    decreases read.len(),
{
    if read.len() > 0 {
        let init = read.drop_last();
        assert forall|j: int| 0 <= j < init.len() implies (#[trigger] init[j]).1 is None || key(
            init[j].0,
        ) != file by {
            assert(init[j] == read[j]);
        }
        lemma_unread_files_stay_unknown(files, init, file);
        let last = read[read.len() - 1];
        assert(last.1 is None || key(last.0) != file);
    }
}

/// Closing a file undoes what opening and editing it did: what is on disk stands as if it had never
/// been open, and a file that has gone from disk is as unknown as if it had never been.
pub proof fn closing_undoes_opening(
    files: Map<Key, SourceView>,
    path: PathView,
    buffer: Seq<char>,
    disk: OnDiskView,
)
    requires
        disk !is Unreadable,
    ensures
        closed_file(with_source(files, path, buffer), path, disk) == closed_file(files, path, disk),
{
    assert(closed_file(with_source(files, path, buffer), path, disk) =~= closed_file(
        files,
        path,
        disk,
    ));
}

/// Closing forgets a file only if it is the one that is closed and it has gone from disk. Every other
/// known file stays known, and closing a file leaves the others as they are.
pub proof fn only_what_has_gone_is_forgotten(
    files: Map<Key, SourceView>,
    path: PathView,
    disk: OnDiskView,
    file: Key,
)
    requires
        files.contains_key(file),
    ensures
        closed_file(files, path, disk).contains_key(file) <==> !(disk is Gone && file == key(path)),
        file != key(path) ==> closed_file(files, path, disk)[file] == files[file],
        disk is Unreadable ==> closed_file(files, path, disk)[file] == files[file],
{
}

/// There is one listing of a set of sources: path order leaves no choice.
pub proof fn listings_are_stable(a: Seq<SourceView>, b: Seq<SourceView>)
    requires
        in_path_order(a),
        in_path_order(b),
        by_file(a) == by_file(b),
    ensures
        a == b,
{
    lemma_listings_agree(a, b, 0);
}

/// Where a source that a listing did not have comes to stand: the listing is the same but for it.
pub proof fn a_new_source_takes_one_place(
    listing: Seq<SourceView>,
    longer: Seq<SourceView>,
    path: PathView,
    text: Seq<char>,
) -> (i: int)
    requires
        in_path_order(listing),
        in_path_order(longer),
        !by_file(listing).contains_key(key(path)),
        by_file(longer) == with_source(by_file(listing), path, text),
    ensures
        0 <= i < longer.len(),
        longer[i] == (SourceView { path, text }),
        longer.remove(i) == listing,
{
    let i = choose|i: int| listed_at(longer, key(path), i);
    assert(by_file(longer).contains_key(key(path)));
    lemma_by_file(longer, i);
    lemma_remove(longer, i);
    assert(by_file(longer).remove(key(path)) =~= by_file(listing));
    listings_are_stable(longer.remove(i), listing);
    i
}

proof fn lemma_listings_agree(a: Seq<SourceView>, b: Seq<SourceView>, k: int)
    requires
        in_path_order(a),
        in_path_order(b),
        by_file(a) == by_file(b),
        0 <= k <= a.len(),
        k <= b.len(),
        forall|j: int| 0 <= j < k ==> #[trigger] a[j] == b[j],
    ensures
        a == b,
    decreases a.len() - k,
{
    if k == a.len() && k == b.len() {
        assert(a =~= b);
    } else if k == a.len() {
        lemma_next_is_later(b, a, k);
    } else if k == b.len() {
        lemma_next_is_later(a, b, k);
    } else {
        let i = lemma_next_is_later(a, b, k);
        let j = lemma_next_is_later(b, a, k);
        paths_are_totally_ordered();
        let before = |x: Key, y: Key| components_before(x, y);
        if i > k && j > k {
            assert(before(key(b[k].path), key(b[i].path)));
            assert(before(key(a[k].path), key(a[j].path)));
            assert(before(key(a[k].path), key(a[k].path)));
        }
        lemma_by_file(a, k);
        lemma_by_file(b, k);
        assert(a[k] == b[k]);
        lemma_listings_agree(a, b, k + 1);
    }
}

/// What `a` lists at `k` is listed in `b` at or behind `k`, if the two agree before.
proof fn lemma_next_is_later(a: Seq<SourceView>, b: Seq<SourceView>, k: int) -> (i: int)
    requires
        in_path_order(a),
        in_path_order(b),
        by_file(a) == by_file(b),
        0 <= k < a.len(),
        k <= b.len(),
        forall|j: int| 0 <= j < k ==> #[trigger] a[j] == b[j],
    ensures
        k <= i < b.len(),
        key(b[i].path) == key(a[k].path),
{
    lemma_by_file(a, k);
    assert(by_file(b).contains_key(key(a[k].path)));
    let i = choose|i: int| listed_at(b, key(a[k].path), i);
    if i < k {
        assert(a[i] == b[i]);
        lemma_listed_once(a, i, k);
    }
    i
}

} // verus!
