//! File paths.
//!
//! A path is the bytes the operating system knows a file by, and the rules that the system reads them
//! by. Two paths name one file when they are made of the same components, so `/src//Combo.mc` and
//! `/src/./Combo.mc` are both `/src/Combo.mc`. The case of a drive letter never tells files apart,
//! whatever the system: clients differ in how they spell it.
//!
//! On Windows, where file names are made of UTF-16 code units, the bytes are UTF-8 in which a
//! surrogate that lacks its other half is encoded as other code points are.
use crate::ascii::{DOT, to_upper_case, upper_case};
use crate::order::{
    Order, bytes_before, lemma_lex_strict_total, lex_before, order_bytes, parts_at, strict_total,
};
use crate::prefix::{
    Prefix, Reading, end_of_name, find_prefix, has_drive, is_separator, is_verbatim,
    lemma_prefix_fits, lemma_same_names, lemma_same_prefix, lemma_skipped_alike, prefix_len,
    prefix_of, reading_behind, same_but_for_slash, same_but_for_slashes, separator,
    starts_with_drive,
};
use crate::seqs::first_index;
use vstd::prelude::*;
use vstd::slice::{slice_subrange, slice_to_vec};
use vstd::utf8::*;

verus! {

/// One step of a path. `N` is how a name is held.
#[derive(Debug)]
pub enum Component<N> {
    /// What a path on Windows may start with, such as `C:`.
    Prefix(Prefix<N>),
    /// The `/` that an absolute path starts with, after its prefix if it has one.
    RootDir,
    /// The `.` that a relative path starts with. Elsewhere a `.` goes nowhere and is no component,
    /// but for those behind a verbatim prefix.
    CurDir,
    /// `..`
    ParentDir,
    Normal(N),
}

impl View for Component<Vec<u8>> {
    type V = Component<Seq<u8>>;

    open spec fn view(&self) -> Component<Seq<u8>> {
        match self {
            Component::Prefix(prefix) => Component::Prefix(prefix@),
            Component::RootDir => Component::RootDir,
            Component::CurDir => Component::CurDir,
            Component::ParentDir => Component::ParentDir,
            Component::Normal(name) => Component::Normal(name@),
        }
    }
}

pub open spec fn component_views(components: Seq<Component<Vec<u8>>>) -> Seq<
    Component<Seq<u8>>,
> {
    components.map_values(|component: Component<Vec<u8>>| component@)
}

/// Which operating system reads a path.
#[derive(Debug, Clone, Copy, PartialEq, Eq, Structural)]
pub enum PathStyle {
    /// `/` separates components.
    Unix,
    /// Either slash separates components, and a path may start with a prefix.
    Windows,
}

/// What a [`FilePath`] holds.
#[verifier::ext_equal]
pub struct PathView {
    pub bytes: Seq<u8>,
    pub style: PathStyle,
}

/// What stands between two separators.
pub open spec fn segment_component(segment: Seq<u8>, reading: Reading) -> Seq<Component<Seq<u8>>> {
    if segment.len() == 0 {
        seq![]
    } else if segment == seq![DOT] {
        if reading == Reading::Verbatim {
            seq![Component::CurDir]
        } else {
            seq![]
        }
    } else if segment == seq![DOT, DOT] {
        seq![Component::ParentDir]
    } else {
        seq![Component::Normal(segment)]
    }
}

/// The components that separators split `rest` into.
pub open spec fn segment_components(rest: Seq<u8>, reading: Reading) -> Seq<Component<Seq<u8>>>
    decreases rest.len(),
{
    let end = first_index(rest, separator(reading));
    if end < rest.len() {
        segment_component(rest.take(end as int), reading) + segment_components(
            rest.skip(end as int + 1),
            reading,
        )
    } else {
        segment_component(rest, reading)
    }
}

/// How a path without a prefix starts: at the root, at `.`, or neither.
pub open spec fn start_component(path: Seq<u8>, reading: Reading) -> Seq<Component<Seq<u8>>> {
    if path.len() > 0 && separator(reading)(path[0]) {
        seq![Component::RootDir]
    } else if path.len() > 0 && path[0] == DOT && (path.len() == 1 || separator(reading)(path[1])) {
        seq![Component::CurDir]
    } else {
        seq![]
    }
}

/// The components of a path without a prefix.
pub open spec fn plain_parts(path: Seq<u8>, reading: Reading) -> Seq<Component<Seq<u8>>> {
    start_component(path, reading) + segment_components(path, reading)
}

/// Whether what follows a prefix starts with a slash.
pub open spec fn is_rooted(rest: Seq<u8>) -> bool {
    rest.len() > 0 && separator(Reading::Windows)(rest[0])
}

/// The components of a path that starts with `prefix`; `rest` is what follows. A share or a device
/// is at its root even without a slash.
pub open spec fn prefixed_parts(prefix: Prefix<Seq<u8>>, rest: Seq<u8>) -> Seq<
    Component<Seq<u8>>,
> {
    seq![Component::Prefix(prefix)] + (if is_rooted(rest) || prefix is Share || prefix is Device {
        seq![Component::RootDir]
    } else {
        seq![]
    }) + segment_components(
        if is_rooted(rest) {
            rest.skip(1)
        } else {
            rest
        },
        reading_behind(prefix),
    )
}

/// The components that a path is spelled with.
pub open spec fn parts(path: Seq<u8>, style: PathStyle) -> Seq<Component<Seq<u8>>> {
    match style {
        PathStyle::Unix => plain_parts(path, Reading::Unix),
        PathStyle::Windows => match prefix_of(path) {
            Some(prefix) => prefixed_parts(prefix, path.skip(prefix_len(prefix) as int)),
            None => plain_parts(path, Reading::Windows),
        },
    }
}

/// A path with its drive letter, if it starts with one, in upper case.
pub open spec fn folded(path: Seq<u8>) -> Seq<u8> {
    if has_drive(path) {
        path.update(0, upper_case(path[0]))
    } else {
        path
    }
}

/// What a path is made of, whatever the case of a drive letter. This is what tells one file from
/// another.
pub open spec fn components(path: PathView) -> Seq<Component<Seq<u8>>> {
    parts(folded(path.bytes), path.style)
}

/// The name of the file or directory that a path leads to, if it ends in a name.
pub open spec fn file_name(path: PathView) -> Option<Seq<u8>> {
    let parts = parts(path.bytes, path.style);
    if parts.len() == 0 {
        None
    } else {
        match parts.last() {
            Component::Normal(name) => Some(name),
            _ => None,
        }
    }
}

/// Prefixes come before roots, those before `.`, those before `..`, and names come last.
pub open spec fn rank(component: Component<Seq<u8>>) -> int {
    match component {
        Component::Prefix(Prefix::Verbatim(_)) => 0,
        Component::Prefix(Prefix::VerbatimShare(_, _)) => 1,
        Component::Prefix(Prefix::VerbatimDrive(_)) => 2,
        Component::Prefix(Prefix::Device(_)) => 3,
        Component::Prefix(Prefix::Share(_, _)) => 4,
        Component::Prefix(Prefix::Drive(_)) => 5,
        Component::RootDir => 6,
        Component::CurDir => 7,
        Component::ParentDir => 8,
        Component::Normal(_) => 9,
    }
}

/// What tells components of one rank apart.
pub open spec fn content(component: Component<Seq<u8>>) -> Seq<u8> {
    match component {
        Component::Prefix(Prefix::Verbatim(name)) => name,
        Component::Prefix(Prefix::VerbatimShare(server, _)) => server,
        Component::Prefix(Prefix::VerbatimDrive(letter)) => seq![letter],
        Component::Prefix(Prefix::Device(name)) => name,
        Component::Prefix(Prefix::Share(server, _)) => server,
        Component::Prefix(Prefix::Drive(letter)) => seq![letter],
        Component::Normal(name) => name,
        _ => seq![],
    }
}

/// What tells the shares of one server apart.
pub open spec fn detail(component: Component<Seq<u8>>) -> Seq<u8> {
    match component {
        Component::Prefix(Prefix::VerbatimShare(_, share)) => share,
        Component::Prefix(Prefix::Share(_, share)) => share,
        _ => seq![],
    }
}

pub open spec fn component_before(a: Component<Seq<u8>>, b: Component<Seq<u8>>) -> bool {
    ||| rank(a) < rank(b)
    ||| rank(a) == rank(b) && bytes_before(content(a), content(b))
    ||| rank(a) == rank(b) && content(a) == content(b) && bytes_before(detail(a), detail(b))
}

/// Components are told apart by their rank, their content and its detail.
proof fn lemma_told_apart(a: Component<Seq<u8>>, b: Component<Seq<u8>>)
    requires
        rank(a) == rank(b),
        content(a) == content(b),
        detail(a) == detail(b),
    ensures
        a == b,
{
    match (a, b) {
        (
            Component::Prefix(Prefix::VerbatimDrive(x)),
            Component::Prefix(Prefix::VerbatimDrive(y)),
        ) => {
            assert(content(a)[0] == x && content(b)[0] == y);
        },
        (Component::Prefix(Prefix::Drive(x)), Component::Prefix(Prefix::Drive(y))) => {
            assert(content(a)[0] == x && content(b)[0] == y);
        },
        _ => {},
    }
}

/// The order on what paths are made of: dictionary order, component by component.
pub open spec fn components_before(
    a: Seq<Component<Seq<u8>>>,
    b: Seq<Component<Seq<u8>>>,
) -> bool {
    lex_before(
        a,
        b,
        |x: Component<Seq<u8>>, y: Component<Seq<u8>>| component_before(x, y),
    )
}

/// Two different files always stand in one order, and the order has no cycles.
pub proof fn paths_are_totally_ordered()
    ensures
        strict_total(
            |a: Seq<Component<Seq<u8>>>, b: Seq<Component<Seq<u8>>>| components_before(a, b),
        ),
{
    let bytes = |a: Seq<u8>, b: Seq<u8>| bytes_before(a, b);
    lemma_lex_strict_total(|x: u8, y: u8| x < y);
    assert(bytes =~= (|a: Seq<u8>, b: Seq<u8>|
        lex_before(a, b, |x: u8, y: u8| x < y)));
    let before = |x: Component<Seq<u8>>, y: Component<Seq<u8>>| component_before(x, y);
    assert forall|x: Component<Seq<u8>>| !#[trigger] before(x, x) by {
        assert(!bytes(content(x), content(x)));
        assert(!bytes(detail(x), detail(x)));
    }
    assert forall|x: Component<Seq<u8>>, y: Component<Seq<u8>>, z: Component<Seq<u8>>|
        #![trigger before(x, y), before(y, z)]
        before(x, y) && before(y, z) implies before(x, z) by {
        if rank(x) == rank(y) && rank(y) == rank(z) {
            if bytes(content(x), content(y)) && bytes(content(y), content(z)) {
                assert(bytes(content(x), content(z)));
            } else if !bytes(content(x), content(y)) && !bytes(content(y), content(z)) {
                assert(bytes(detail(x), detail(y)) && bytes(detail(y), detail(z)));
                assert(bytes(detail(x), detail(z)));
            }
        }
    }
    assert forall|x: Component<Seq<u8>>, y: Component<Seq<u8>>|
        x == y || #[trigger] before(x, y) || before(y, x) by {
        assert(content(x) == content(y) || bytes(content(x), content(y)) || bytes(
            content(y),
            content(x),
        ));
        assert(detail(x) == detail(y) || bytes(detail(x), detail(y)) || bytes(
            detail(y),
            detail(x),
        ));
        if rank(x) == rank(y) && content(x) == content(y) && detail(x) == detail(y) {
            lemma_told_apart(x, y);
        }
    }
    lemma_lex_strict_total(before);
    assert((|a: Seq<Component<Seq<u8>>>, b: Seq<Component<Seq<u8>>>| components_before(a, b)) =~= (
    |a: Seq<Component<Seq<u8>>>, b: Seq<Component<Seq<u8>>>|
        lex_before(a, b, before)));
}

/// The case of a drive letter does not tell files apart.
pub proof fn drive_letter_case_names_one_file(a: PathView, b: PathView)
    requires
        has_drive(a.bytes),
        has_drive(b.bytes),
        upper_case(a.bytes[0]) == upper_case(b.bytes[0]),
        a.bytes.skip(1) == b.bytes.skip(1),
        a.style == b.style,
    ensures
        components(a) == components(b),
{
    let x = folded(a.bytes);
    let y = folded(b.bytes);
    assert(a.bytes.len() == a.bytes.skip(1).len() + 1);
    assert(b.bytes.len() == b.bytes.skip(1).len() + 1);
    assert forall|i: int| 0 <= i < x.len() implies x[i] == y[i] by {
        if i > 0 {
            assert(a.bytes[i] == a.bytes.skip(1)[i - 1]);
            assert(b.bytes[i] == b.bytes.skip(1)[i - 1]);
        }
    }
    assert(x =~= y);
}

/// On Windows, either slash separates components, but for those of a verbatim path.
pub proof fn slashes_separate_alike_on_windows(a: Seq<u8>, b: Seq<u8>)
    requires
        same_but_for_slashes(a, b),
        !is_verbatim(a),
        !is_verbatim(b),
    ensures
        components(PathView { bytes: a, style: PathStyle::Windows }) == components(
            PathView { bytes: b, style: PathStyle::Windows },
        ),
{
    lemma_same_prefix(a, b);
    let x = folded(a);
    let y = folded(b);
    assert(same_but_for_slashes(x, y)) by {
        assert forall|i: int| 0 <= i < x.len() implies #[trigger] same_but_for_slash(x[i], y[i]) by {
            assert(same_but_for_slash(a[i], b[i]));
        }
    }
    lemma_same_prefix(x, y);
    lemma_prefix_fits(x);
    match prefix_of(x) {
        Some(prefix) => {
            let n = prefix_len(prefix) as int;
            let p = x.skip(n);
            let q = y.skip(n);
            lemma_skipped_alike(x, y, n);
            if p.len() > 0 {
                assert(same_but_for_slash(p[0], q[0]));
                lemma_skipped_alike(p, q, 1);
                lemma_same_segments(p.skip(1), q.skip(1));
            }
            lemma_same_segments(p, q);
        },
        None => {
            if x.len() > 0 {
                assert(same_but_for_slash(x[0], y[0]));
            }
            if x.len() > 1 {
                assert(same_but_for_slash(x[1], y[1]));
            }
            lemma_same_segments(x, y);
        },
    }
}

proof fn lemma_same_segments(a: Seq<u8>, b: Seq<u8>)
    requires
        same_but_for_slashes(a, b),
    ensures
        segment_components(a, Reading::Windows) == segment_components(b, Reading::Windows),
    decreases a.len(),
{
    lemma_same_names(a, b);
    let end = first_index(a, separator(Reading::Windows)) as int;
    if end < a.len() {
        lemma_same_segments(a.skip(end + 1), b.skip(end + 1));
    } else {
        assert(a.take(end) =~= a);
        assert(b.take(end) =~= b);
    }
}

/// A file's path.
#[derive(Debug)]
pub struct FilePath {
    bytes: Vec<u8>,
    style: PathStyle,
}

impl View for FilePath {
    type V = PathView;

    closed spec fn view(&self) -> PathView {
        PathView { bytes: self.bytes@, style: self.style }
    }
}

/// Split a path into the components that it is spelled with.
fn split(path: &[u8], style: PathStyle) -> (result: Vec<Component<Vec<u8>>>)
    ensures
        component_views(result@) == parts(path@, style),
{
    match style {
        PathStyle::Unix => split_plain(path, Reading::Unix),
        PathStyle::Windows => match find_prefix(path) {
            Some((prefix, len)) => split_behind(path, prefix, len),
            None => split_plain(path, Reading::Windows),
        },
    }
}

fn split_plain(path: &[u8], reading: Reading) -> (result: Vec<Component<Vec<u8>>>)
    ensures
        component_views(result@) == plain_parts(path@, reading),
{
    let mut result: Vec<Component<Vec<u8>>> = Vec::new();
    if path.len() > 0 && is_separator(reading, path[0]) {
        result.push(Component::RootDir);
    } else if path.len() > 0 && path[0] == DOT && (path.len() == 1 || is_separator(
        reading,
        path[1],
    )) {
        result.push(Component::CurDir);
    }
    assert(component_views(result@) =~= start_component(path@, reading));
    assert(path@.skip(0) =~= path@);
    push_segments(path, 0, reading, &mut result);
    result
}

/// Split a path that starts with a prefix of `len` bytes.
fn split_behind(path: &[u8], prefix: Prefix<Vec<u8>>, len: usize) -> (result: Vec<
    Component<Vec<u8>>,
>)
    requires
        len <= path@.len(),
    ensures
        component_views(result@) == prefixed_parts(prefix@, path@.skip(len as int)),
{
    let ghost rest = path@.skip(len as int);
    let reading = match &prefix {
        Prefix::Verbatim(_) | Prefix::VerbatimShare(_, _) | Prefix::VerbatimDrive(_) =>
            Reading::Verbatim,
        Prefix::Device(_) | Prefix::Share(_, _) | Prefix::Drive(_) => Reading::Windows,
    };
    let has_root = match &prefix {
        Prefix::Device(_) | Prefix::Share(_, _) => true,
        _ => false,
    };
    let rooted = len < path.len() && is_separator(Reading::Windows, path[len]);
    let mut result: Vec<Component<Vec<u8>>> = Vec::new();
    result.push(Component::Prefix(prefix));
    if rooted || has_root {
        result.push(Component::RootDir);
    }
    let ghost body = if rooted {
        rest.skip(1)
    } else {
        rest
    };
    assert(prefixed_parts(prefix@, rest) =~= component_views(result@) + segment_components(
        body,
        reading,
    ));
    let start = if rooted {
        len + 1
    } else {
        len
    };
    assert(path@.skip(start as int) =~= body);
    push_segments(path, start, reading, &mut result);
    result
}

/// Append the components that separators split a path into from `from` on.
fn push_segments(path: &[u8], from: usize, reading: Reading, result: &mut Vec<Component<Vec<u8>>>)
    requires
        from <= path@.len(),
    ensures
        component_views(final(result)@) == component_views(old(result)@) + segment_components(
            path@.skip(from as int),
            reading,
        ),
{
    let ghost whole = component_views(result@) + segment_components(
        path@.skip(from as int),
        reading,
    );
    let mut start: usize = from;
    loop
        invariant_except_break
            component_views(result@) + segment_components(path@.skip(start as int), reading)
                == whole,
        invariant
            start <= path.len(),
        ensures
            component_views(result@) == whole,
        decreases path.len() - start,
    {
        let end = end_of_name(path, start, reading);
        let ghost rest = path@.skip(start as int);
        let ghost before = component_views(result@);
        push_segment(slice_subrange(path, start, end), reading, result);
        assert(path@.subrange(start as int, end as int) =~= rest.take(end - start));
        if end == path.len() {
            assert(rest.take(end - start) =~= rest);
            break;
        }
        proof {
            let next = path@.skip(end + 1);
            assert(rest.skip(end - start + 1) =~= next);
            assert(component_views(result@) + segment_components(next, reading) =~= before + (
            segment_component(rest.take(end - start), reading) + segment_components(
                next,
                reading,
            )));
        }
        start = end + 1;
    }
}

impl FilePath {
    /// The path that `path` spells.
    pub fn new(path: &str, style: PathStyle) -> (result: FilePath)
        ensures
            result@ == (PathView { bytes: encode_utf8(path@), style }),
    {
        FilePath { bytes: slice_to_vec(path.as_bytes()), style }
    }

    pub fn from_bytes(bytes: Vec<u8>, style: PathStyle) -> (result: FilePath)
        ensures
            result@ == (PathView { bytes: bytes@, style }),
    {
        FilePath { bytes, style }
    }

    pub fn as_bytes(&self) -> (bytes: &[u8])
        ensures
            bytes@ == self@.bytes,
    {
        self.bytes.as_slice()
    }

    pub fn style(&self) -> (style: PathStyle)
        ensures
            style == self@.style,
    {
        self.style
    }

    /// What the path is made of.
    pub fn components(&self) -> (result: Vec<Component<Vec<u8>>>)
        ensures
            component_views(result@) == components(self@),
    {
        let mut path = slice_to_vec(self.bytes.as_slice());
        if starts_with_drive(path.as_slice()) {
            let upper = to_upper_case(path[0]);
            path.set(0, upper);
        }
        assert(path@ =~= folded(self@.bytes));
        split(path.as_slice(), self.style)
    }
}

/// Append what stands between two separators, if it is a component.
fn push_segment(segment: &[u8], reading: Reading, result: &mut Vec<Component<Vec<u8>>>)
    ensures
        component_views(final(result)@) == component_views(old(result)@) + segment_component(
            segment@,
            reading,
        ),
{
    if segment.len() == 0 {
        return;
    }
    if segment.len() == 1 && segment[0] == DOT {
        assert(segment@ =~= seq![DOT]);
        if reading == Reading::Verbatim {
            result.push(Component::CurDir);
        }
        return;
    }
    assert(segment@ != seq![DOT]);
    if segment.len() == 2 && segment[0] == DOT && segment[1] == DOT {
        assert(segment@ =~= seq![DOT, DOT]);
        result.push(Component::ParentDir);
        return;
    }
    assert(segment@ != seq![DOT, DOT]);
    result.push(Component::Normal(slice_to_vec(segment)));
}

/// The place of a component among the kinds of components.
fn component_rank(component: &Component<Vec<u8>>) -> (place: u8)
    ensures
        place == rank(component@),
{
    match component {
        Component::Prefix(prefix) => match prefix {
            Prefix::Verbatim(_) => 0,
            Prefix::VerbatimShare(_, _) => 1,
            Prefix::VerbatimDrive(_) => 2,
            Prefix::Device(_) => 3,
            Prefix::Share(_, _) => 4,
            Prefix::Drive(_) => 5,
        },
        Component::RootDir => 6,
        Component::CurDir => 7,
        Component::ParentDir => 8,
        Component::Normal(_) => 9,
    }
}

/// What tells a component from others of its rank.
fn component_content(component: &Component<Vec<u8>>) -> (bytes: Vec<u8>)
    ensures
        bytes@ == content(component@),
{
    let mut bytes: Vec<u8> = Vec::new();
    match component {
        Component::Prefix(prefix) => match prefix {
            Prefix::Verbatim(name) | Prefix::Device(name) => {
                bytes = slice_to_vec(name.as_slice());
            },
            Prefix::VerbatimShare(server, _) | Prefix::Share(server, _) => {
                bytes = slice_to_vec(server.as_slice());
            },
            Prefix::VerbatimDrive(letter) | Prefix::Drive(letter) => {
                bytes.push(*letter);
            },
        },
        Component::Normal(name) => {
            bytes = slice_to_vec(name.as_slice());
        },
        Component::RootDir | Component::CurDir | Component::ParentDir => {},
    }
    assert(bytes@ =~= content(component@));
    bytes
}

/// What tells a share from others of its server.
fn component_detail(component: &Component<Vec<u8>>) -> (bytes: Vec<u8>)
    ensures
        bytes@ == detail(component@),
{
    match component {
        Component::Prefix(Prefix::VerbatimShare(_, share)) => slice_to_vec(share.as_slice()),
        Component::Prefix(Prefix::Share(_, share)) => slice_to_vec(share.as_slice()),
        _ => Vec::new(),
    }
}

fn order_component(a: &Component<Vec<u8>>, b: &Component<Vec<u8>>) -> (order: Order)
    ensures
        match order {
            Order::Before => component_before(a@, b@),
            Order::Same => a@ == b@,
            Order::After => component_before(b@, a@),
        },
{
    let rank_a = component_rank(a);
    let rank_b = component_rank(b);
    if rank_a < rank_b {
        return Order::Before;
    }
    if rank_b < rank_a {
        return Order::After;
    }
    match order_bytes(component_content(a).as_slice(), component_content(b).as_slice()) {
        Order::Before => Order::Before,
        Order::After => Order::After,
        Order::Same => {
            let order = order_bytes(
                component_detail(a).as_slice(),
                component_detail(b).as_slice(),
            );
            proof {
                if detail(a@) == detail(b@) {
                    lemma_told_apart(a@, b@);
                }
            }
            order
        },
    }
}

impl FilePath {
    /// Where this path stands against `other`.
    pub fn order(&self, other: &FilePath) -> (order: Order)
        ensures
            match order {
                Order::Before => components_before(components(self@), components(other@)),
                Order::Same => components(self@) == components(other@),
                Order::After => components_before(components(other@), components(self@)),
            },
    {
        let a = self.components();
        let b = other.components();
        let ghost left = components(self@);
        let ghost right = components(other@);
        let ghost before = |x: Component<Seq<u8>>, y: Component<Seq<u8>>| component_before(x, y);
        let mut i: usize = 0;
        assert(left.take(0) =~= right.take(0));
        while i < a.len() && i < b.len()
            invariant
                i <= a.len(),
                i <= b.len(),
                left == component_views(a@),
                right == component_views(b@),
                left == components(self@),
                right == components(other@),
                before == (|x: Component<Seq<u8>>, y: Component<Seq<u8>>| component_before(x, y)),
                left.take(i as int) == right.take(i as int),
            decreases a.len() - i,
        {
            assert(left[i as int] == a@[i as int]@);
            assert(right[i as int] == b@[i as int]@);
            match order_component(&a[i], &b[i]) {
                Order::Before => {
                    assert(parts_at(left, right, before, i as int));
                    return Order::Before;
                },
                Order::After => {
                    assert(parts_at(right, left, before, i as int));
                    return Order::After;
                },
                Order::Same => {},
            }
            assert(left.take(i + 1) =~= left.take(i as int).push(left[i as int]));
            assert(right.take(i + 1) =~= right.take(i as int).push(right[i as int]));
            i += 1;
        }
        if i < b.len() {
            assert(parts_at(left, right, before, i as int));
            Order::Before
        } else if i < a.len() {
            assert(parts_at(right, left, before, i as int));
            Order::After
        } else {
            assert(left.take(i as int) =~= left);
            assert(right.take(i as int) =~= right);
            Order::Same
        }
    }

    /// The name that the path ends in, if it ends in one.
    pub fn file_name(&self) -> (name: Option<Vec<u8>>)
        ensures
            (match name {
                Some(name) => Some(name@),
                None => None,
            }) == file_name(self@),
    {
        let mut parts = split(self.bytes.as_slice(), self.style);
        let ghost views = component_views(parts@);
        assert(views.len() > 0 ==> views.last() == parts@.last()@);
        match parts.pop() {
            Some(Component::Normal(name)) => Some(name),
            _ => None,
        }
    }
}

impl Clone for FilePath {
    fn clone(&self) -> (result: FilePath)
        ensures
            result@ == self@,
    {
        FilePath { bytes: slice_to_vec(self.bytes.as_slice()), style: self.style }
    }
}

impl PartialEq for FilePath {
    fn eq(&self, other: &FilePath) -> (same: bool) {
        let order = self.order(other);
        proof {
            paths_are_totally_ordered();
            let before = |a: Seq<Component<Seq<u8>>>, b: Seq<Component<Seq<u8>>>|
                components_before(a, b);
            assert(!before(components(self@), components(self@)));
        }
        match order {
            Order::Same => true,
            Order::Before | Order::After => false,
        }
    }
}

impl vstd::std_specs::cmp::PartialEqSpecImpl for FilePath {
    open spec fn obeys_eq_spec() -> bool {
        true
    }

    open spec fn eq_spec(&self, other: &FilePath) -> bool {
        components(self@) == components(other@)
    }
}

} // verus!
