//! Resolving a caret position to the declaration it refers to.
//!
//! The name under the caret is read from the tokens rather than from the syntax tree. Tokens still
//! leave out comments and string bodies, but they survive a syntax error anywhere else in the file,
//! so navigation keeps working while a file is mid-edit, which is exactly when it is wanted. The
//! answer still comes from parsed sources: only the *question* is lexical.
//!
//! Symbols from the Connect IQ SDK (`Toybox.*`) resolve to nothing, since the SDK is not part of the
//! workspace.
use crate::ast::{Ast, Span};
use crate::path::{FilePath, PathView};
use crate::seqs::{first_index, lemma_first_index, lemma_is_first_index};
use crate::symbols::{
    DeclView, Scope, ScopeView, chain, container_in, containers_at, decl_in, document_scope,
    scope_ref_views, scope_tree,
};
use crate::token::{KindView, Token, TokenKind, TokenView, token_views};
use crate::uri::{Uri, comes_back, from_path, path_of_uri, uri_of_path};
use crate::workspace::{
    SourceView, Workspace, a_new_source_takes_one_place, by_file, in_path_order, key, lemma_by_file,
    lemma_listed_once, listed_at, source_ref_views, with_source,
};
use vstd::prelude::*;
use vstd::slice::slice_subrange;

verus! {

/// What a lexer and a parser make of a source. A source that does not parse has no tree.
pub struct Syntax {
    pub tokens: Vec<Token>,
    pub ast: Option<Ast>,
}

/// Where a declaration stands: the file, and the bytes of the name in its text. The text comes along
/// because it takes the text to turn the span into lines and columns.
#[derive(Debug, PartialEq)]
pub struct Location<'a> {
    pub uri: Uri,
    pub text: &'a str,
    pub span: Span,
}

/// What a [`Location`] holds.
#[verifier::ext_equal]
pub struct LocationView {
    pub uri: Seq<char>,
    pub text: Seq<char>,
    pub span: Span,
}

impl<'a> View for Location<'a> {
    type V = LocationView;

    open spec fn view(&self) -> LocationView {
        LocationView { uri: self.uri@, text: self.text@, span: self.span }
    }
}

pub open spec fn location_views(locations: Seq<Location<'_>>) -> Seq<LocationView> {
    locations.map_values(|location: Location<'_>| location@)
}

pub open spec fn texts(names: Seq<String>) -> Seq<Seq<char>> {
    names.map_values(|name: String| name@)
}

// The question.

/// The name that a token spells, if it is an identifier.
pub open spec fn identifier(token: TokenView) -> Option<Seq<char>> {
    match token.kind {
        KindView::Identifier(name) => Some(name),
        _ => None,
    }
}

/// Whether the caret is on a token that is an identifier, its end among them.
pub open spec fn is_under_caret(token: TokenView, offset: usize) -> bool {
    identifier(token) is Some && token.start <= offset <= token.end
}

/// The dotted name that ends at token `i`, an identifier.
pub open spec fn dotted_name(tokens: Seq<TokenView>, i: int) -> Seq<Seq<char>>
    decreases i,
{
    let name = identifier(tokens[i])->0;
    if i >= 2 && tokens[i - 1].kind is Dot && identifier(tokens[i - 2]) is Some {
        dotted_name(tokens, i - 2).push(name)
    } else {
        seq![name]
    }
}

/// The dotted name that the caret sits in, ending with the segment it is on.
pub open spec fn reference(tokens: Seq<TokenView>, offset: usize) -> Option<Seq<Seq<char>>> {
    let i = first_index(tokens, |token: TokenView| is_under_caret(token, offset));
    if i < tokens.len() {
        Some(dotted_name(tokens, i as int))
    } else {
        None
    }
}

/// The dotted name the caret sits in, ending with the segment it is actually on: a caret on `Combo`
/// in `Combo.beats` asks about the module, not the member.
pub fn reference_at(tokens: &Vec<Token>, offset: usize) -> (segments: Option<Vec<String>>)
    ensures
        (match segments {
            Some(segments) => Some(texts(segments@)),
            None => None,
        }) == reference(token_views(tokens@), offset),
{
    let ghost views = token_views(tokens@);
    let ghost wanted = |token: TokenView| is_under_caret(token, offset);
    let mut i: usize = 0;
    while i < tokens.len()
        invariant
            i <= tokens.len(),
            views == token_views(tokens@),
            wanted == (|token: TokenView| is_under_caret(token, offset)),
            forall|j: int| 0 <= j < i ==> !wanted(#[trigger] views[j]),
        decreases tokens.len() - i,
    {
        assert(views[i as int] == tokens@[i as int]@);
        if let TokenKind::Identifier(name) = &tokens[i].kind {
            if tokens[i].start <= offset && offset <= tokens[i].end {
                proof {
                    lemma_is_first_index(views, wanted, i as int);
                }
                return Some(name_ending_at(tokens, i));
            }
        }
        i += 1;
    }
    proof {
        lemma_is_first_index(views, wanted, i as int);
    }
    None
}

/// The dotted name that ends at token `i`.
fn name_ending_at(tokens: &Vec<Token>, i: usize) -> (segments: Vec<String>)
    requires
        i < tokens@.len(),
        tokens@[i as int].kind is Identifier,
    ensures
        texts(segments@) == dotted_name(token_views(tokens@), i as int),
{
    let ghost views = token_views(tokens@);
    let mut segments: Vec<String> = Vec::new();
    segments.push(spelling(&tokens[i]));
    let mut index: usize = i;
    proof {
        assert(views[i as int] == tokens@[i as int]@);
        let whole = dotted_name(views, i as int);
        assert(whole =~= whole.drop_last() + texts(segments@));
    }
    while index >= 2 && is_dot(&tokens[index - 1]) && is_identifier(&tokens[index - 2])
        invariant
            index <= i < tokens@.len(),
            views == token_views(tokens@),
            tokens@[index as int].kind is Identifier,
            dotted_name(views, i as int) == dotted_name(views, index as int).drop_last() + texts(
                segments@,
            ),
        decreases index,
    {
        let ghost before = segments@;
        let qualifier = spelling(&tokens[index - 2]);
        segments.insert(0, qualifier);
        proof {
            assert(views[index - 1] == tokens@[index - 1]@);
            assert(views[index - 2] == tokens@[index - 2]@);
            let shorter = dotted_name(views, index - 2);
            assert(dotted_name(views, index as int).drop_last() =~= shorter);
            assert(texts(segments@) =~= seq![qualifier@] + texts(before));
            assert(shorter + texts(before) =~= shorter.drop_last() + texts(segments@));
        }
        index -= 2;
    }
    proof {
        if index >= 2 {
            assert(views[index - 1] == tokens@[index - 1]@);
            assert(views[index - 2] == tokens@[index - 2]@);
        }
        assert(dotted_name(views, index as int).drop_last() + texts(segments@) =~= texts(segments@));
    }
    segments
}

/// The name that an identifier spells.
fn spelling(token: &Token) -> (name: String)
    requires
        token.kind is Identifier,
    ensures
        identifier(token@) == Some(name@),
{
    match &token.kind {
        TokenKind::Identifier(name) => name.clone(),
        _ => String::new(),
    }
}

fn is_dot(token: &Token) -> (dot: bool)
    ensures
        dot == (token@.kind is Dot),
{
    match token.kind {
        TokenKind::Dot => true,
        _ => false,
    }
}

fn is_identifier(token: &Token) -> (is: bool)
    ensures
        is == (token.kind is Identifier),
        is == (identifier(token@) is Some),
{
    match token.kind {
        TokenKind::Identifier(_) => true,
        _ => false,
    }
}

// The answer.

/// A source and its syntax tree.
pub struct FileView {
    pub source: SourceView,
    pub ast: Option<Ast>,
}

/// The sources of a listing with their trees.
pub open spec fn parsed(listing: Seq<SourceView>, syntax: Seq<Syntax>) -> Seq<FileView> {
    Seq::new(listing.len(), |i: int| FileView { source: listing[i], ast: syntax[i].ast })
}

/// Where a declaration in `source` stands.
pub open spec fn location_in(source: SourceView, decl: DeclView) -> LocationView {
    LocationView { uri: uri_of_path(source.path), text: source.text, span: decl.name_span }
}

pub open spec fn as_seq(decl: Option<DeclView>) -> Seq<DeclView> {
    match decl {
        Some(decl) => seq![decl],
        None => seq![],
    }
}

/// What `find` finds in each file that parses, file by file.
pub open spec fn found_in_files(
    files: Seq<FileView>,
    find: spec_fn(ScopeView) -> Seq<DeclView>,
) -> Seq<LocationView>
    decreases files.len(),
{
    if files.len() == 0 {
        seq![]
    } else {
        found_in_files(files.drop_last(), find) + found_in_file(files.last(), find)
    }
}

pub open spec fn found_in_file(
    file: FileView,
    find: spec_fn(ScopeView) -> Seq<DeclView>,
) -> Seq<LocationView> {
    match file.ast {
        Some(ast) => find(document_scope(ast)).map_values(
            |decl: DeclView| location_in(file.source, decl),
        ),
        None => seq![],
    }
}

/// The container that `segments` lead to from `scope`, one container below the other.
pub open spec fn descended(scope: ScopeView, segments: Seq<Seq<char>>) -> Option<ScopeView>
    decreases segments.len(),
{
    if segments.len() == 0 {
        Some(scope)
    } else {
        match container_in(scope, segments[0]) {
            Some(container) => descended(container, segments.drop_first()),
            None => None,
        }
    }
}

/// The member `name` of what `segments` lead to from `root`.
pub open spec fn member(root: ScopeView, segments: Seq<Seq<char>>, name: Seq<char>) -> Option<
    DeclView,
> {
    match descended(root, segments) {
        Some(container) => decl_in(container, name),
        None => None,
    }
}

/// The members `name` of what `segments` lead to from each of `roots`.
pub open spec fn members(
    roots: Seq<ScopeView>,
    segments: Seq<Seq<char>>,
    name: Seq<char>,
) -> Seq<DeclView>
    decreases roots.len(),
{
    if roots.len() == 0 {
        seq![]
    } else {
        members(roots.drop_last(), segments, name) + as_seq(member(roots.last(), segments, name))
    }
}

/// What a dotted name refers to in a file: the first qualifier names a container anywhere in the
/// file, the others lead down from it, and the last segment is a member of where they arrive.
pub open spec fn qualified_in(qualifiers: Seq<Seq<char>>, name: Seq<char>) -> spec_fn(
    ScopeView,
) -> Seq<DeclView> {
    |document: ScopeView|
        members(containers_at(document, qualifiers[0]), qualifiers.drop_first(), name)
}

/// What a bare name refers to in a file that it is not written in.
pub open spec fn top_level_in(name: Seq<char>) -> spec_fn(ScopeView) -> Seq<DeclView> {
    |document: ScopeView| as_seq(decl_in(document, name))
}

/// The declaration of `name` in the innermost scope of a chain that has one.
pub open spec fn innermost(chain: Seq<ScopeView>, name: Seq<char>) -> Option<DeclView>
    decreases chain.len(),
{
    if chain.len() == 0 {
        None
    } else {
        match decl_in(chain.last(), name) {
            Some(decl) => Some(decl),
            None => innermost(chain.drop_last(), name),
        }
    }
}

/// The declaration of a bare name in the scopes around the caret.
pub open spec fn enclosing(ast: Option<Ast>, name: Seq<char>, offset: usize) -> Option<DeclView> {
    match ast {
        Some(ast) => innermost(chain(document_scope(ast), offset), name),
        None => None,
    }
}

/// What a dotted name under the caret refers to. `own` is the file that the caret is in.
pub open spec fn resolved(
    files: Seq<FileView>,
    own: FileView,
    segments: Seq<Seq<char>>,
    offset: usize,
) -> Seq<LocationView> {
    let name = segments.last();
    if segments.len() == 1 {
        match enclosing(own.ast, name, offset) {
            Some(decl) => seq![location_in(own.source, decl)],
            None => found_in_files(files, top_level_in(name)),
        }
    } else {
        found_in_files(files, qualified_in(segments.drop_last(), name))
    }
}

/// Every declaration that a caret at `offset` in the file at `path` could refer to. An answer in that
/// file spells its path as the caller does, and the others as the workspace does.
pub open spec fn definitions(
    listing: Seq<SourceView>,
    syntax: Seq<Syntax>,
    path: PathView,
    offset: usize,
) -> Seq<LocationView> {
    let i = first_index(listing, |source: SourceView| key(source.path) == key(path));
    if i < listing.len() {
        match reference(token_views(syntax[i as int].tokens@), offset) {
            Some(segments) => resolved(
                parsed(listing, syntax),
                FileView {
                    source: SourceView { path, text: listing[i as int].text },
                    ast: syntax[i as int].ast,
                },
                segments,
                offset,
            ),
            None => seq![],
        }
    } else {
        seq![]
    }
}

/// Every declaration the caret at `offset` could refer to. `syntax` holds, for each source of the
/// workspace in path order, what a lexer and a parser make of it.
///
/// More than one is returned when a qualified name matches in several files: Monkey C merges
/// same-named modules across a project, so both halves are honest answers and the editor offers the
/// choice.
pub fn definition<'a>(
    workspace: &'a Workspace,
    syntax: &Vec<Syntax>,
    path: &FilePath,
    offset: usize,
) -> (locations: Vec<Location<'a>>)
    requires
        syntax@.len() == workspace.listing().len(),
    ensures
        location_views(locations@) == definitions(workspace.listing(), syntax@, path@, offset),
{
    let sources = workspace.sources();
    let ghost listing = workspace.listing();
    let ghost wanted = |source: SourceView| key(source.path) == key(path@);
    let mut i: usize = 0;
    while i < sources.len() && !(*sources[i].0 == *path)
        invariant
            i <= sources@.len() == listing.len(),
            listing == source_ref_views(sources@),
            wanted == (|source: SourceView| key(source.path) == key(path@)),
            forall|j: int| 0 <= j < i ==> !wanted(#[trigger] listing[j]),
        decreases sources@.len() - i,
    {
        assert(listing[i as int].path == sources@[i as int].0@);
        i += 1;
    }
    proof {
        if i < listing.len() {
            assert(listing[i as int].path == sources@[i as int].0@);
        }
        lemma_is_first_index(listing, wanted, i as int);
    }
    let mut locations: Vec<Location<'a>> = Vec::new();
    assert(location_views(locations@) =~= seq![]);
    if i == sources.len() {
        return locations;
    }
    let mut segments = match reference_at(&syntax[i].tokens, offset) {
        Some(segments) => segments,
        None => {
            return locations;
        },
    };
    let ghost names = texts(segments@);
    proof {
        lemma_dotted_name_is_not_empty(
            token_views(syntax@[i as int].tokens@),
            first_index(
                token_views(syntax@[i as int].tokens@),
                |token: TokenView| is_under_caret(token, offset),
            ) as int,
        );
        assert(names.last() == segments@.last()@);
    }
    let name = match segments.pop() {
        Some(name) => name,
        None => {
            return locations;
        },
    };
    assert(texts(segments@) =~= names.drop_last());
    if segments.len() == 0 {
        unqualified(&sources, syntax, path, i, name.as_str(), offset)
    } else {
        qualified(&sources, syntax, &segments, name.as_str())
    }
}

proof fn lemma_dotted_name_is_not_empty(tokens: Seq<TokenView>, i: int)
    ensures
        dotted_name(tokens, i).len() > 0,
{
}

/// A bare name: the enclosing scopes decide, innermost first, so a parameter shadows a module
/// member of the same name. Only if nothing encloses it does the rest of the workspace get a say.
fn unqualified<'a>(
    sources: &Vec<(&'a FilePath, &'a str)>,
    syntax: &Vec<Syntax>,
    path: &FilePath,
    own: usize,
    name: &str,
    offset: usize,
) -> (locations: Vec<Location<'a>>)
    requires
        syntax@.len() == sources@.len(),
        own < syntax@.len(),
    ensures
        location_views(locations@) == match enclosing(syntax@[own as int].ast, name@, offset) {
            Some(decl) => seq![
                location_in(SourceView { path: path@, text: sources@[own as int].1@ }, decl),
            ],
            None => found_in_files(
                parsed(source_ref_views(sources@), syntax@),
                top_level_in(name@),
            ),
        },
{
    if let Some(ast) = &syntax[own].ast {
        let tree = scope_tree(ast);
        let mut scopes = tree.chain_at(offset);
        let ghost whole = scope_ref_views(scopes@);
        while scopes.len() > 0
            invariant
                innermost(whole, name@) == innermost(scope_ref_views(scopes@), name@),
                syntax@[own as int].ast == Some(*ast),
                whole == chain(document_scope(*ast), offset),
                own < sources@.len(),
            decreases scopes@.len(),
        {
            let ghost before = scope_ref_views(scopes@);
            if let Some(scope) = scopes.pop() {
                proof {
                    assert(before.last() == scope@);
                    assert(before.drop_last() =~= scope_ref_views(scopes@));
                }
                if let Some(decl) = scope.decl(name) {
                    let mut locations: Vec<Location<'a>> = Vec::new();
                    locations.push(location(path, sources[own].1, decl.name_span));
                    assert(location_views(locations@) =~= seq![
                        location_in(
                            SourceView { path: path@, text: sources@[own as int].1@ },
                            decl@,
                        ),
                    ]);
                    return locations;
                }
            }
        }
    }
    top_level(sources, syntax, name)
}

/// Names declared at the top level of any source: the modules and classes a file can refer to
/// without qualifying them.
fn top_level<'a>(
    sources: &Vec<(&'a FilePath, &'a str)>,
    syntax: &Vec<Syntax>,
    name: &str,
) -> (locations: Vec<Location<'a>>)
    requires
        syntax@.len() == sources@.len(),
    ensures
        location_views(locations@) == found_in_files(
            parsed(source_ref_views(sources@), syntax@),
            top_level_in(name@),
        ),
{
    let ghost files = parsed(source_ref_views(sources@), syntax@);
    let mut locations: Vec<Location<'a>> = Vec::new();
    proof {
        assert(files.take(0) =~= seq![]);
        assert(location_views(locations@) =~= seq![]);
    }
    let mut i: usize = 0;
    while i < sources.len()
        invariant
            i <= sources@.len() == syntax@.len(),
            files == parsed(source_ref_views(sources@), syntax@),
            location_views(locations@) == found_in_files(
                files.take(i as int),
                top_level_in(name@),
            ),
        decreases sources@.len() - i,
    {
        let ghost before = locations@;
        proof {
            assert(files.take(i + 1).drop_last() =~= files.take(i as int));
            assert(files.take(i + 1).last() == files[i as int]);
        }
        let ghost here = found_in_file(files[i as int], top_level_in(name@));
        if let Some(ast) = &syntax[i].ast {
            let tree = scope_tree(ast);
            if let Some(decl) = tree.decl(name) {
                locations.push(location(sources[i].0, sources[i].1, decl.name_span));
                assert(here =~= seq![location_in(files[i as int].source, decl@)]);
            } else {
                assert(here =~= seq![]);
            }
        }
        assert(location_views(locations@) =~= location_views(before) + here);
        i += 1;
    }
    assert(files.take(i as int) =~= files);
    locations
}

/// A dotted name: the leading segments name containers to descend through, and the last is looked
/// up among the members of whatever they arrive at.
pub fn qualified<'a>(
    sources: &Vec<(&'a FilePath, &'a str)>,
    syntax: &Vec<Syntax>,
    qualifiers: &Vec<String>,
    name: &str,
) -> (locations: Vec<Location<'a>>)
    requires
        syntax@.len() == sources@.len(),
        qualifiers@.len() > 0,
    ensures
        location_views(locations@) == found_in_files(
            parsed(source_ref_views(sources@), syntax@),
            qualified_in(texts(qualifiers@), name@),
        ),
{
    let ghost files = parsed(source_ref_views(sources@), syntax@);
    let ghost find = qualified_in(texts(qualifiers@), name@);
    let mut locations: Vec<Location<'a>> = Vec::new();
    proof {
        assert(files.take(0) =~= seq![]);
        assert(location_views(locations@) =~= seq![]);
    }
    let mut i: usize = 0;
    while i < sources.len()
        invariant
            i <= sources@.len() == syntax@.len(),
            qualifiers@.len() > 0,
            files == parsed(source_ref_views(sources@), syntax@),
            find == qualified_in(texts(qualifiers@), name@),
            location_views(locations@) == found_in_files(files.take(i as int), find),
        decreases sources@.len() - i,
    {
        proof {
            assert(files.take(i + 1).drop_last() =~= files.take(i as int));
            assert(files.take(i + 1).last() == files[i as int]);
        }
        let ghost before = location_views(locations@);
        if let Some(ast) = &syntax[i].ast {
            let tree = scope_tree(ast);
            qualified_in_file(&tree, sources[i], qualifiers, name, &mut locations);
        } else {
            assert(before + found_in_file(files[i as int], find) =~= before);
        }
        i += 1;
    }
    assert(files.take(i as int) =~= files);
    locations
}

/// Append what a dotted name refers to in one file.
fn qualified_in_file<'a>(
    tree: &Scope,
    source: (&'a FilePath, &'a str),
    qualifiers: &Vec<String>,
    name: &str,
    locations: &mut Vec<Location<'a>>,
)
    requires
        qualifiers@.len() > 0,
    ensures
        location_views(final(locations)@) == location_views(old(locations)@) + qualified_in(
            texts(qualifiers@),
            name@,
        )(tree@).map_values(
            |decl: DeclView| location_in(SourceView { path: source.0@, text: source.1@ }, decl),
        ),
{
    let ghost place = SourceView { path: source.0@, text: source.1@ };
    let ghost in_source = |decl: DeclView| location_in(place, decl);
    let ghost before = location_views(locations@);
    let ghost segments = texts(qualifiers@).drop_first();
    let mut roots: Vec<&Scope> = Vec::new();
    tree.containers_named(qualifiers[0].as_str(), &mut roots);
    let ghost containers = scope_ref_views(roots@);
    proof {
        let none: Seq<&Scope> = seq![];
        assert(scope_ref_views(none) =~= seq![]);
        assert(containers =~= containers_at(tree@, texts(qualifiers@)[0]));
        assert(containers.take(0) =~= seq![]);
        assert(members(containers.take(0), segments, name@).map_values(in_source) =~= seq![]);
        assert(before =~= before + seq![]);
    }
    let rest = slice_subrange(qualifiers.as_slice(), 1, qualifiers.len());
    assert(texts(rest@) =~= segments);
    let mut i: usize = 0;
    while i < roots.len()
        invariant
            i <= roots@.len(),
            containers == scope_ref_views(roots@),
            place == (SourceView { path: source.0@, text: source.1@ }),
            in_source == (|decl: DeclView| location_in(place, decl)),
            segments == texts(rest@),
            location_views(locations@) == before + members(
                containers.take(i as int),
                segments,
                name@,
            ).map_values(in_source),
        decreases roots@.len() - i,
    {
        let ghost earlier = locations@;
        let ghost found = members(containers.take(i as int), segments, name@);
        proof {
            assert(containers.take(i + 1).drop_last() =~= containers.take(i as int));
            assert(containers.take(i + 1).last() == roots@[i as int]@);
        }
        let ghost more = as_seq(member(containers[i as int], segments, name@));
        if let Some(container) = descend(roots[i], rest) {
            if let Some(decl) = container.decl(name) {
                locations.push(location(source.0, source.1, decl.name_span));
                assert(more == seq![decl@]);
            }
        }
        proof {
            assert(location_views(locations@) =~= location_views(earlier) + more.map_values(
                in_source,
            ));
            assert((found + more).map_values(in_source) =~= found.map_values(in_source)
                + more.map_values(in_source));
        }
        i += 1;
    }
    assert(containers.take(i as int) =~= containers);
}

/// The container that `segments` lead to from `scope`.
fn descend<'a>(scope: &'a Scope, segments: &[String]) -> (found: Option<&'a Scope>)
    ensures
        (match found {
            Some(container) => Some(container@),
            None => None,
        }) == descended(scope@, texts(segments@)),
{
    let mut current = scope;
    let mut i: usize = 0;
    assert(texts(segments@).skip(0) =~= texts(segments@));
    while i < segments.len()
        invariant
            i <= segments@.len(),
            descended(current@, texts(segments@).skip(i as int)) == descended(
                scope@,
                texts(segments@),
            ),
        decreases segments@.len() - i,
    {
        proof {
            let rest = texts(segments@).skip(i as int);
            assert(rest[0] == segments@[i as int]@);
            assert(rest.drop_first() =~= texts(segments@).skip(i + 1));
        }
        match current.container(segments[i].as_str()) {
            Some(container) => {
                current = container;
            },
            None => {
                return None;
            },
        }
        i += 1;
    }
    Some(current)
}

fn location<'a>(path: &FilePath, text: &'a str, span: Span) -> (result: Location<'a>)
    ensures
        result@ == (LocationView { uri: uri_of_path(path@), text: text@, span }),
{
    Location { uri: from_path(path), text, span }
}

// Laws.

/// A declaration shadows those of the same name further out: what the innermost scope that declares
/// a name says, stands.
pub proof fn inner_scopes_shadow_outer_ones(scopes: Seq<ScopeView>, name: Seq<char>, k: int)
    requires
        0 <= k < scopes.len(),
        decl_in(scopes[k], name) is Some,
        forall|j: int| k < j < scopes.len() ==> decl_in(#[trigger] scopes[j], name) is None,
    ensures
        innermost(scopes, name) == decl_in(scopes[k], name),
    decreases scopes.len(),
{
    if k < scopes.len() - 1 {
        let outer = scopes.drop_last();
        assert(decl_in(scopes[scopes.len() - 1], name) is None);
        assert forall|j: int| k < j < outer.len() implies decl_in(
            #[trigger] outer[j],
            name,
        ) is None by {
            assert(outer[j] == scopes[j]);
        }
        inner_scopes_shadow_outer_ones(outer, name, k);
    }
}

/// A name that no scope around the caret declares is not found there.
pub proof fn undeclared_names_are_not_enclosed(scopes: Seq<ScopeView>, name: Seq<char>)
    requires
        forall|j: int| 0 <= j < scopes.len() ==> decl_in(#[trigger] scopes[j], name) is None,
    ensures
        innermost(scopes, name) is None,
    decreases scopes.len(),
{
    if scopes.len() > 0 {
        let outer = scopes.drop_last();
        assert(decl_in(scopes[scopes.len() - 1], name) is None);
        assert forall|j: int| 0 <= j < outer.len() implies decl_in(
            #[trigger] outer[j],
            name,
        ) is None by {
            assert(outer[j] == scopes[j]);
        }
        undeclared_names_are_not_enclosed(outer, name);
    }
}

proof fn lemma_decl_bears_the_name(scope: ScopeView, name: Seq<char>)
    ensures
        decl_in(scope, name) matches Some(decl) ==> decl.name == name,
{
    lemma_first_index(scope.decls, |decl: DeclView| decl.name == name);
}

/// Whatever a bare name under the caret resolves to in the scopes around it is declared under that
/// name.
pub proof fn enclosing_answers_bear_the_name(ast: Option<Ast>, name: Seq<char>, offset: usize)
    ensures
        enclosing(ast, name, offset) matches Some(decl) ==> decl.name == name,
{
    if let Some(ast) = ast {
        lemma_innermost_bears_the_name(chain(document_scope(ast), offset), name);
    }
}

proof fn lemma_innermost_bears_the_name(scopes: Seq<ScopeView>, name: Seq<char>)
    ensures
        innermost(scopes, name) matches Some(decl) ==> decl.name == name,
    decreases scopes.len(),
{
    if scopes.len() > 0 {
        lemma_decl_bears_the_name(scopes.last(), name);
        lemma_innermost_bears_the_name(scopes.drop_last(), name);
    }
}

/// Whatever a bare name resolves to at the top level of a file is declared under that name.
pub proof fn top_level_answers_bear_the_name(document: ScopeView, name: Seq<char>, i: int)
    requires
        0 <= i < top_level_in(name)(document).len(),
    ensures
        top_level_in(name)(document)[i].name == name,
{
    lemma_decl_bears_the_name(document, name);
}

/// Whatever a dotted name resolves to in a file is declared under its last segment.
pub proof fn qualified_answers_bear_the_name(
    document: ScopeView,
    qualifiers: Seq<Seq<char>>,
    name: Seq<char>,
    i: int,
)
    requires
        0 <= i < qualified_in(qualifiers, name)(document).len(),
    ensures
        qualified_in(qualifiers, name)(document)[i].name == name,
{
    lemma_members_bear_the_name(
        containers_at(document, qualifiers[0]),
        qualifiers.drop_first(),
        name,
        i,
    );
}

proof fn lemma_members_bear_the_name(
    roots: Seq<ScopeView>,
    segments: Seq<Seq<char>>,
    name: Seq<char>,
    i: int,
)
    requires
        0 <= i < members(roots, segments, name).len(),
    ensures
        members(roots, segments, name)[i].name == name,
    decreases roots.len(),
{
    let init = members(roots.drop_last(), segments, name);
    if i < init.len() {
        lemma_members_bear_the_name(roots.drop_last(), segments, name, i);
    } else if let Some(container) = descended(roots.last(), segments) {
        lemma_decl_bears_the_name(container, name);
    }
}

/// Files answer one after the other, in the order they are listed in.
pub proof fn files_answer_in_order(
    a: Seq<FileView>,
    b: Seq<FileView>,
    find: spec_fn(ScopeView) -> Seq<DeclView>,
)
    ensures
        found_in_files(a + b, find) == found_in_files(a, find) + found_in_files(b, find),
    decreases b.len(),
{
    if b.len() == 0 {
        assert(a + b =~= a);
    } else {
        files_answer_in_order(a, b.drop_last(), find);
        assert((a + b).drop_last() =~= a + b.drop_last());
        assert((a + b).last() == b.last());
    }
    assert(found_in_files(a + b, find) =~= found_in_files(a, find) + found_in_files(b, find));
}

/// A file that does not parse does not keep the others from answering.
pub proof fn broken_files_are_passed_over(
    before: Seq<FileView>,
    broken: FileView,
    after: Seq<FileView>,
    find: spec_fn(ScopeView) -> Seq<DeclView>,
)
    requires
        broken.ast is None,
    ensures
        found_in_files(before + seq![broken] + after, find) == found_in_files(before + after, find),
{
    files_answer_in_order(before + seq![broken], after, find);
    files_answer_in_order(before, after, find);
    assert((before + seq![broken]).drop_last() =~= before);
    assert((before + seq![broken]).last() == broken);
    assert(found_in_files(before + seq![broken], find) =~= found_in_files(before, find));
}

/// Whether `syntax` is what a lexer and a parser make of the sources of a listing. `lex` and `parse`
/// are what they make of a text.
pub open spec fn is_syntax_of(
    listing: Seq<SourceView>,
    syntax: Seq<Syntax>,
    lex: spec_fn(Seq<char>) -> Seq<TokenView>,
    parse: spec_fn(Seq<char>) -> Option<Ast>,
) -> bool {
    syntax.len() == listing.len() && forall|i: int|
        0 <= i < listing.len() ==> token_views((#[trigger] syntax[i]).tokens@) == lex(
            listing[i].text,
        ) && syntax[i].ast == parse(listing[i].text)
}

/// A workspace that has one more source, which does not parse, finds what it found without it,
/// whatever is looked for.
pub proof fn broken_sources_add_nothing_and_stop_nothing(
    listing: Seq<SourceView>,
    syntax: Seq<Syntax>,
    longer: Seq<SourceView>,
    longer_syntax: Seq<Syntax>,
    path: PathView,
    text: Seq<char>,
    lex: spec_fn(Seq<char>) -> Seq<TokenView>,
    parse: spec_fn(Seq<char>) -> Option<Ast>,
    find: spec_fn(ScopeView) -> Seq<DeclView>,
)
    requires
        in_path_order(listing),
        in_path_order(longer),
        is_syntax_of(listing, syntax, lex, parse),
        is_syntax_of(longer, longer_syntax, lex, parse),
        !by_file(listing).contains_key(key(path)),
        by_file(longer) == with_source(by_file(listing), path, text),
        parse(text) is None,
    ensures
        found_in_files(parsed(longer, longer_syntax), find) == found_in_files(
            parsed(listing, syntax),
            find,
        ),
{
    let i = a_new_source_takes_one_place(listing, longer, path, text);
    let files = parsed(listing, syntax);
    let more = parsed(longer, longer_syntax);
    let before = files.take(i);
    let after = files.skip(i);
    assert(longer_syntax[i].ast is None);
    assert forall|j: int| 0 <= j < i implies more[j] == #[trigger] files[j] by {
        assert(longer.remove(i)[j] == longer[j]);
        assert(syntax[j].ast == longer_syntax[j].ast);
    }
    assert forall|j: int| i <= j < files.len() implies more[j + 1] == #[trigger] files[j] by {
        assert(longer.remove(i)[j] == longer[j + 1]);
        assert(syntax[j].ast == longer_syntax[j + 1].ast);
    }
    assert(more =~= before + seq![more[i]] + after);
    assert(files =~= before + after);
    broken_files_are_passed_over(before, more[i], after, find);
}

/// A source that does not parse changes the answers of no other file.
pub proof fn broken_sources_change_no_answers(
    listing: Seq<SourceView>,
    syntax: Seq<Syntax>,
    longer: Seq<SourceView>,
    longer_syntax: Seq<Syntax>,
    path: PathView,
    text: Seq<char>,
    lex: spec_fn(Seq<char>) -> Seq<TokenView>,
    parse: spec_fn(Seq<char>) -> Option<Ast>,
    other: PathView,
    offset: usize,
)
    requires
        in_path_order(listing),
        in_path_order(longer),
        is_syntax_of(listing, syntax, lex, parse),
        is_syntax_of(longer, longer_syntax, lex, parse),
        !by_file(listing).contains_key(key(path)),
        by_file(longer) == with_source(by_file(listing), path, text),
        parse(text) is None,
        key(other) != key(path),
    ensures
        definitions(longer, longer_syntax, other, offset) == definitions(
            listing,
            syntax,
            other,
            offset,
        ),
{
    let i = a_new_source_takes_one_place(listing, longer, path, text);
    if by_file(listing).contains_key(key(other)) {
        let own = choose|own: int| listed_at(listing, key(other), own);
        let there = if own < i {
            own
        } else {
            own + 1
        };
        assert(longer.remove(i)[own] == longer[there]);
        lemma_own_file(listing, other, own);
        lemma_own_file(longer, other, there);
        assert(token_views(syntax[own].tokens@) == token_views(longer_syntax[there].tokens@));
        assert(syntax[own].ast == longer_syntax[there].ast);
        if let Some(segments) = reference(token_views(syntax[own].tokens@), offset) {
            let name = segments.last();
            let find = if segments.len() == 1 {
                top_level_in(name)
            } else {
                qualified_in(segments.drop_last(), name)
            };
            broken_sources_add_nothing_and_stop_nothing(
                listing,
                syntax,
                longer,
                longer_syntax,
                path,
                text,
                lex,
                parse,
                find,
            );
        }
    } else {
        unknown_files_have_no_answers(listing, syntax, other, offset);
        unknown_files_have_no_answers(longer, longer_syntax, other, offset);
    }
}

/// If no file has anything to say, there is no answer.
proof fn lemma_nothing_found(files: Seq<FileView>, find: spec_fn(ScopeView) -> Seq<DeclView>)
    requires
        forall|i: int|
            0 <= i < files.len() ==> ((#[trigger] files[i]).ast matches Some(ast) ==> find(
                document_scope(ast),
            ).len() == 0),
    ensures
        found_in_files(files, find) == Seq::<LocationView>::empty(),
    decreases files.len(),
{
    if files.len() > 0 {
        let init = files.drop_last();
        assert forall|i: int| 0 <= i < init.len() implies ((#[trigger] init[i]).ast matches Some(
            ast,
        ) ==> find(document_scope(ast)).len() == 0) by {
            assert(init[i] == files[i]);
        }
        lemma_nothing_found(init, find);
        let last = files[files.len() - 1];
        assert(last.ast matches Some(ast) ==> find(document_scope(ast)).len() == 0);
        assert(found_in_file(last, find) =~= seq![]);
    }
}

/// A dotted name that starts with something outside the workspace, such as the SDK, resolves to
/// nothing.
pub proof fn foreign_qualifiers_resolve_to_nothing(
    files: Seq<FileView>,
    own: FileView,
    segments: Seq<Seq<char>>,
    offset: usize,
)
    requires
        segments.len() > 1,
        forall|i: int|
            0 <= i < files.len() ==> ((#[trigger] files[i]).ast matches Some(ast) ==> containers_at(
                document_scope(ast),
                segments[0],
            ).len() == 0),
    ensures
        resolved(files, own, segments, offset) == Seq::<LocationView>::empty(),
{
    let qualifiers = segments.drop_last();
    let name = segments.last();
    let find = qualified_in(qualifiers, name);
    assert forall|i: int| 0 <= i < files.len() implies ((#[trigger] files[i]).ast matches Some(
        ast,
    ) ==> find(document_scope(ast)).len() == 0) by {
        if let Some(ast) = files[i].ast {
            assert(containers_at(document_scope(ast), qualifiers[0]).len() == 0);
        }
    }
    lemma_nothing_found(files, find);
}

/// A bare name that is declared neither around the caret nor at the top level of any file resolves
/// to nothing.
pub proof fn unknown_names_resolve_to_nothing(
    files: Seq<FileView>,
    own: FileView,
    name: Seq<char>,
    offset: usize,
)
    requires
        enclosing(own.ast, name, offset) is None,
        forall|i: int|
            0 <= i < files.len() ==> ((#[trigger] files[i]).ast matches Some(ast) ==> decl_in(
                document_scope(ast),
                name,
            ) is None),
    ensures
        resolved(files, own, seq![name], offset) == Seq::<LocationView>::empty(),
{
    lemma_nothing_found(files, top_level_in(name));
}

/// A caret that is on no identifier, such as one in a string or a comment, asks about nothing.
pub proof fn carets_off_names_resolve_to_nothing(
    listing: Seq<SourceView>,
    syntax: Seq<Syntax>,
    path: PathView,
    offset: usize,
    i: int,
)
    requires
        in_path_order(listing),
        listed_at(listing, key(path), i),
        forall|j: int|
            0 <= j < syntax[i].tokens@.len() ==> !is_under_caret(
                (#[trigger] syntax[i].tokens@[j])@,
                offset,
            ),
    ensures
        definitions(listing, syntax, path, offset) == Seq::<LocationView>::empty(),
{
    lemma_own_file(listing, path, i);
    let views = token_views(syntax[i].tokens@);
    assert forall|j: int| 0 <= j < views.len() implies !is_under_caret(
        #[trigger] views[j],
        offset,
    ) by {
        assert(views[j] == syntax[i].tokens@[j]@);
    }
    lemma_is_first_index(
        views,
        |token: TokenView| is_under_caret(token, offset),
        views.len() as int,
    );
}

/// The file that a path names is the only one that it is found at.
pub proof fn lemma_own_file(listing: Seq<SourceView>, path: PathView, i: int)
    requires
        in_path_order(listing),
        listed_at(listing, key(path), i),
    ensures
        first_index(listing, |source: SourceView| key(source.path) == key(path)) == i,
{
    let wanted = |source: SourceView| key(source.path) == key(path);
    assert forall|j: int| 0 <= j < i implies !wanted(#[trigger] listing[j]) by {
        if key(listing[j].path) == key(path) {
            lemma_listed_once(listing, j, i);
        }
    }
    lemma_is_first_index(listing, wanted, i);
}

/// A file that is not in the workspace has no answers.
pub proof fn unknown_files_have_no_answers(
    listing: Seq<SourceView>,
    syntax: Seq<Syntax>,
    path: PathView,
    offset: usize,
)
    requires
        !by_file(listing).contains_key(key(path)),
    ensures
        definitions(listing, syntax, path, offset) == Seq::<LocationView>::empty(),
{
    let wanted = |source: SourceView| key(source.path) == key(path);
    assert forall|j: int| 0 <= j < listing.len() implies !wanted(#[trigger] listing[j]) by {
        if key(listing[j].path) == key(path) {
            assert(listed_at(listing, key(path), j));
        }
    }
    lemma_is_first_index(listing, wanted, listing.len() as int);
}

/// Whether an answer lies in a listed source: it has that source's text, and its URI is built from a
/// path of that source's file.
pub open spec fn lies_in_source(listing: Seq<SourceView>, answer: LocationView) -> bool {
    exists|j: int, path: PathView| #[trigger]
        listed_at(listing, key(path), j) && answer.text == listing[j].text && answer.uri
            == uri_of_path(path)
}

/// Every answer lies in a source of the workspace.
pub proof fn answers_lie_in_sources(
    listing: Seq<SourceView>,
    syntax: Seq<Syntax>,
    path: PathView,
    offset: usize,
    i: int,
)
    requires
        0 <= i < definitions(listing, syntax, path, offset).len(),
    ensures
        lies_in_source(listing, definitions(listing, syntax, path, offset)[i]),
{
    lemma_answer_is_spelled(listing, syntax, path, offset, i);
}

/// The path that an answer's URI is built from, and where its file is listed.
proof fn lemma_answer_is_spelled(
    listing: Seq<SourceView>,
    syntax: Seq<Syntax>,
    path: PathView,
    offset: usize,
    i: int,
) -> (at: (int, PathView))
    requires
        0 <= i < definitions(listing, syntax, path, offset).len(),
    ensures
        listed_at(listing, key(at.1), at.0),
        definitions(listing, syntax, path, offset)[i].text == listing[at.0].text,
        definitions(listing, syntax, path, offset)[i].uri == uri_of_path(at.1),
        at.1 == path || at.1 == listing[at.0].path,
{
    let wanted = |source: SourceView| key(source.path) == key(path);
    lemma_first_index(listing, wanted);
    let own = first_index(listing, wanted) as int;
    let segments = reference(token_views(syntax[own].tokens@), offset)->0;
    let name = segments.last();
    if segments.len() == 1 && enclosing(syntax[own].ast, name, offset) is Some {
        (own, path)
    } else {
        let files = parsed(listing, syntax);
        let k = if segments.len() == 1 {
            lemma_found_in_a_file(files, top_level_in(name), i)
        } else {
            lemma_found_in_a_file(files, qualified_in(segments.drop_last(), name), i)
        };
        (k, listing[k].path)
    }
}

/// The file that an answer was found in.
proof fn lemma_found_in_a_file(
    files: Seq<FileView>,
    find: spec_fn(ScopeView) -> Seq<DeclView>,
    i: int,
) -> (k: int)
    requires
        0 <= i < found_in_files(files, find).len(),
    ensures
        0 <= k < files.len(),
        found_in_files(files, find)[i].text == files[k].source.text,
        found_in_files(files, find)[i].uri == uri_of_path(files[k].source.path),
    decreases files.len(),
{
    if i < found_in_files(files.drop_last(), find).len() {
        lemma_found_in_a_file(files.drop_last(), find, i)
    } else {
        files.len() - 1
    }
}

/// An answer can be opened: its URI names a source of the workspace, with the text that the answer
/// points into, as long as the paths that URIs are built from come back from them. All paths are of
/// one system.
pub proof fn answers_name_sources(
    listing: Seq<SourceView>,
    syntax: Seq<Syntax>,
    path: PathView,
    offset: usize,
    i: int,
)
    requires
        in_path_order(listing),
        0 <= i < definitions(listing, syntax, path, offset).len(),
        comes_back(path),
        forall|j: int|
            0 <= j < listing.len() ==> comes_back((#[trigger] listing[j]).path)
                && listing[j].path.style == path.style,
    ensures
        ({
            let answer = definitions(listing, syntax, path, offset)[i];
            path_of_uri(answer.uri) matches Some(bytes) && {
                let named = PathView { bytes, style: path.style };
                by_file(listing).contains_key(key(named)) && by_file(listing)[key(named)].text
                    == answer.text
            }
        }),
{
    let (k, spelled) = lemma_answer_is_spelled(listing, syntax, path, offset, i);
    assert(comes_back(listing[k].path));
    lemma_by_file(listing, k);
}

/// The question is about the segment the caret is on: the name asked about ends with that segment,
/// whatever follows it in the source.
pub proof fn the_question_ends_at_the_caret(tokens: Seq<TokenView>, offset: usize, i: int)
    requires
        0 <= i < tokens.len(),
        is_under_caret(tokens[i], offset),
        forall|j: int| 0 <= j < i ==> !is_under_caret(#[trigger] tokens[j], offset),
    ensures
        reference(tokens, offset) matches Some(segments) && segments.len() > 0 && Some(
            segments.last(),
        ) == identifier(tokens[i]),
        reference(tokens, offset) == reference(tokens.take(i + 1), offset),
{
    let wanted = |token: TokenView| is_under_caret(token, offset);
    lemma_is_first_index(tokens, wanted, i);
    let read = tokens.take(i + 1);
    assert forall|j: int| 0 <= j < i implies !wanted(#[trigger] read[j]) by {
        assert(read[j] == tokens[j]);
    }
    lemma_is_first_index(read, wanted, i);
    lemma_same_dotted_name(tokens, read, i);
}

proof fn lemma_same_dotted_name(a: Seq<TokenView>, b: Seq<TokenView>, i: int)
    requires
        0 <= i < a.len(),
        i < b.len(),
        forall|j: int| 0 <= j <= i ==> #[trigger] a[j] == b[j],
    ensures
        dotted_name(a, i) == dotted_name(b, i),
    decreases i,
{
    assert(a[i] == b[i]);
    if i >= 2 {
        assert(a[i - 1] == b[i - 1]);
        assert(a[i - 2] == b[i - 2]);
        lemma_same_dotted_name(a, b, i - 2);
    }
}

} // verus!
