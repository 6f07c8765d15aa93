//! What a caret asks about, and which declarations answer.
use crate::ast::Ast;
use crate::definition::{
    FileView, Location, LocationView, Syntax, definitions, descended, dotted_name,
    enclosing, found_in_file, found_in_files, identifier, inner_scopes_shadow_outer_ones,
    is_under_caret, lemma_own_file, location_in, location_views, member, members, parsed,
    qualified_in, reference, texts, top_level_in, undeclared_names_are_not_enclosed,
};
use crate::laws::scopes::{
    containers_are_modules_and_classes, is_first_called, is_first_container, is_first_container_at,
    lemma_declared, none_called, scopes_answer_with_the_first_declaration,
};
use crate::path::PathView;
use crate::seqs::{first_index, lemma_first_index};
use crate::symbols::{DeclView, ScopeView, chain, container_in, containers_at, decl_in, document_scope};
use crate::token::{KindView, Token, TokenKind, TokenView, token_views};
use crate::uri::uri_of_path;
use crate::workspace::{SourceView, in_path_order, key, listed_at};
use vstd::prelude::*;

verus! {

// What is read and what is answered.

/// The views of tokens, locations and names hold what these hold.
pub proof fn views_hold_everything(
    token: Token,
    tokens: Seq<Token>,
    location: Location<'_>,
    locations: Seq<Location<'_>>,
    names: Seq<String>,
)
    ensures
        token@.start == token.start,
        token@.end == token.end,
        token.kind matches TokenKind::Identifier(name) ==> token@.kind == KindView::Identifier(name@),
        token@.kind is Identifier <==> token.kind is Identifier,
        token@.kind is Dot <==> token.kind is Dot,
        token@.kind is Eof <==> token.kind is Eof,
        token_views(tokens).len() == tokens.len(),
        forall|i: int| 0 <= i < tokens.len() ==> #[trigger] token_views(tokens)[i] == tokens[i]@,
        location@.uri == location.uri.0@,
        location@.text == location.text@,
        location@.span == location.span,
        location_views(locations).len() == locations.len(),
        forall|i: int|
            0 <= i < locations.len() ==> #[trigger] location_views(locations)[i] == locations[i]@,
        texts(names).len() == names.len(),
        forall|i: int| 0 <= i < names.len() ==> #[trigger] texts(names)[i] == names[i]@,
{
}

// The question.

/// Whether a caret at `offset` is on a name: anywhere from its start to its end, both among them.
pub open spec fn caret_on_name(token: TokenView, offset: usize) -> bool {
    token.kind is Identifier && token.start <= offset && offset <= token.end
}

/// Whether the tokens up to `last` end in `segments`, with dots between them, and no further name
/// and dot before.
pub open spec fn ends_in_dotted_name(
    tokens: Seq<TokenView>,
    last: int,
    segments: Seq<Seq<char>>,
) -> bool {
    let n = segments.len();
    let first = last - 2 * (n - 1);
    &&& n > 0
    &&& 0 <= first
    &&& last < tokens.len()
    &&& forall|k: int|
        0 <= k < n ==> tokens[first + 2 * k].kind == KindView::Identifier(#[trigger] segments[k])
            && (k > 0 ==> tokens[first + 2 * k - 1].kind is Dot)
    &&& !(first >= 2 && tokens[first - 1].kind is Dot && tokens[first - 2].kind is Identifier)
}

/// A caret asks about the first name that it is on, with every qualifier before it and nothing behind
/// it. It asks about nothing only if it is on no name.
pub proof fn questions_are_dotted_names(tokens: Seq<TokenView>, offset: usize)
    ensures
        reference(tokens, offset) matches Some(segments) ==> exists|i: int|
            0 <= i < tokens.len() && caret_on_name(#[trigger] tokens[i], offset) && (forall|j: int|
                0 <= j < i ==> !caret_on_name(#[trigger] tokens[j], offset))
                && ends_in_dotted_name(tokens, i, segments),
        reference(tokens, offset) is None ==> forall|i: int|
            0 <= i < tokens.len() ==> !caret_on_name(#[trigger] tokens[i], offset),
{
    let wanted = |token: TokenView| is_under_caret(token, offset);
    lemma_first_index(tokens, wanted);
    let i = first_index(tokens, wanted) as int;
    assert forall|j: int| 0 <= j < i implies !caret_on_name(#[trigger] tokens[j], offset) by {
        assert(!wanted(tokens[j]));
    }
    if i < tokens.len() {
        lemma_dotted_name(tokens, i);
        assert(caret_on_name(tokens[i], offset));
    }
}

proof fn lemma_dotted_name(tokens: Seq<TokenView>, i: int)
    requires
        0 <= i < tokens.len(),
        tokens[i].kind is Identifier,
    ensures
        ends_in_dotted_name(tokens, i, dotted_name(tokens, i)),
    decreases i,
{
    let segments = dotted_name(tokens, i);
    assert(tokens[i].kind == KindView::Identifier(segments.last()));
    if i >= 2 && tokens[i - 1].kind is Dot && identifier(tokens[i - 2]) is Some {
        let shorter = dotted_name(tokens, i - 2);
        lemma_dotted_name(tokens, i - 2);
        let n = segments.len();
        let first = i - 2 * (n - 1);
        assert(first == (i - 2) - 2 * (shorter.len() - 1));
        assert forall|k: int| 0 <= k < n implies tokens[first + 2 * k].kind
            == KindView::Identifier(#[trigger] segments[k]) && (k > 0 ==> tokens[first + 2 * k
            - 1].kind is Dot) by {
            if k < n - 1 {
                assert(segments[k] == shorter[k]);
            }
        }
        assert(!(first >= 2 && tokens[first - 1].kind is Dot && tokens[first
            - 2].kind is Identifier));
    } else {
        assert(segments.len() == 1);
    }
}

// A bare name.

/// Among the scopes around a caret, the innermost that declares a bare name decides what it means.
pub proof fn the_nearest_declaration_is_meant(
    ast: Ast,
    name: Seq<char>,
    offset: usize,
    k: int,
    decl: DeclView,
)
    requires
        0 <= k < chain(document_scope(ast), offset).len(),
        is_first_called(chain(document_scope(ast), offset)[k].decls, name, decl),
        forall|j: int|
            k < j < chain(document_scope(ast), offset).len() ==> none_called(
                (#[trigger] chain(document_scope(ast), offset)[j]).decls,
                name,
            ),
    ensures
        enclosing(Some(ast), name, offset) == Some(decl),
{
    let scopes = chain(document_scope(ast), offset);
    lemma_declared(scopes[k], name);
    assert forall|j: int| k < j < scopes.len() implies decl_in(#[trigger] scopes[j], name) is None by {
        lemma_declared(scopes[j], name);
    }
    inner_scopes_shadow_outer_ones(scopes, name, k);
}

/// Whether no scope around the caret declares `name`. A source that does not parse has no scopes.
pub open spec fn nothing_encloses(ast: Option<Ast>, name: Seq<char>, offset: usize) -> bool {
    ast matches Some(ast) ==> forall|j: int|
        0 <= j < chain(document_scope(ast), offset).len() ==> none_called(
            (#[trigger] chain(document_scope(ast), offset)[j]).decls,
            name,
        )
}

proof fn lemma_nothing_encloses(ast: Option<Ast>, name: Seq<char>, offset: usize)
    requires
        nothing_encloses(ast, name, offset),
    ensures
        enclosing(ast, name, offset) is None,
{
    if let Some(ast) = ast {
        let scopes = chain(document_scope(ast), offset);
        assert forall|j: int| 0 <= j < scopes.len() implies decl_in(
            #[trigger] scopes[j],
            name,
        ) is None by {
            lemma_declared(scopes[j], name);
        }
        undeclared_names_are_not_enclosed(scopes, name);
    }
}

/// A bare name that is declared around the caret has one answer: the nearest declaration, in the
/// file that was asked about.
pub proof fn bare_names_mean_what_is_nearest(
    listing: Seq<SourceView>,
    syntax: Seq<Syntax>,
    path: PathView,
    offset: usize,
    i: int,
    ast: Ast,
    name: Seq<char>,
    k: int,
    decl: DeclView,
)
    requires
        in_path_order(listing),
        0 <= i < listing.len(),
        key(listing[i].path) == key(path),
        reference(token_views(syntax[i].tokens@), offset) == Some(seq![name]),
        syntax[i].ast == Some(ast),
        0 <= k < chain(document_scope(ast), offset).len(),
        is_first_called(chain(document_scope(ast), offset)[k].decls, name, decl),
        forall|j: int|
            k < j < chain(document_scope(ast), offset).len() ==> none_called(
                (#[trigger] chain(document_scope(ast), offset)[j]).decls,
                name,
            ),
    ensures
        definitions(listing, syntax, path, offset) == seq![
            LocationView {
                uri: uri_of_path(path),
                text: listing[i].text,
                span: decl.name_span,
            },
        ],
{
    assert(listed_at(listing, key(path), i));
    lemma_own_file(listing, path, i);
    the_nearest_declaration_is_meant(ast, name, offset, k, decl);
    assert(seq![name].last() == name);
}

/// Whether `answers` are the declarations of `name` at the top level of the sources `which`, and no
/// other source has one.
pub open spec fn answered_at_top_level(
    listing: Seq<SourceView>,
    syntax: Seq<Syntax>,
    name: Seq<char>,
    answers: Seq<LocationView>,
    which: Seq<int>,
) -> bool {
    &&& which.len() == answers.len()
    &&& forall|m: int| 0 <= m < which.len() ==> 0 <= #[trigger] which[m] < listing.len()
    &&& forall|m: int, n: int|
        0 <= m < n < which.len() ==> #[trigger] which[m] < #[trigger] which[n]
    &&& forall|m: int|
        0 <= m < which.len() ==> declares_at_top_level(
            listing,
            syntax,
            name,
            #[trigger] which[m],
            answers[m],
        )
    &&& forall|j: int|
        0 <= j < listing.len() && ((#[trigger] syntax[j]).ast matches Some(ast) && !none_called(
            document_scope(ast).decls,
            name,
        )) ==> which.contains(j)
}

/// Whether `answer` is the first declaration of `name` at the top level of the `j`th source.
pub open spec fn declares_at_top_level(
    listing: Seq<SourceView>,
    syntax: Seq<Syntax>,
    name: Seq<char>,
    j: int,
    answer: LocationView,
) -> bool {
    syntax[j].ast matches Some(ast) && exists|decl: DeclView|
        #[trigger] is_first_called(document_scope(ast).decls, name, decl) && answer
            == (LocationView {
            uri: uri_of_path(listing[j].path),
            text: listing[j].text,
            span: decl.name_span,
        })
}

/// A bare name that nothing encloses is answered by every source that declares it at its top level,
/// whatever kind of thing it declares, once each and in the order of the listing.
pub proof fn bare_names_are_sought_at_every_top_level(
    listing: Seq<SourceView>,
    syntax: Seq<Syntax>,
    path: PathView,
    offset: usize,
    i: int,
    name: Seq<char>,
)
    requires
        in_path_order(listing),
        0 <= i < listing.len(),
        key(listing[i].path) == key(path),
        reference(token_views(syntax[i].tokens@), offset) == Some(seq![name]),
        nothing_encloses(syntax[i].ast, name, offset),
    ensures
        exists|which: Seq<int>| #[trigger]
            answered_at_top_level(
                listing,
                syntax,
                name,
                definitions(listing, syntax, path, offset),
                which,
            ),
{
    assert(listed_at(listing, key(path), i));
    lemma_own_file(listing, path, i);
    lemma_nothing_encloses(syntax[i].ast, name, offset);
    assert(seq![name].last() == name);
    let files = parsed(listing, syntax);
    let n = listing.len() as int;
    assert(files.take(n) =~= files);
    let which = lemma_top_level(listing, syntax, name, n);
    assert(definitions(listing, syntax, path, offset) == found_in_files(files, top_level_in(name)));
    assert(answered_at_top_level(
        listing,
        syntax,
        name,
        definitions(listing, syntax, path, offset),
        which,
    ));
}

/// The files among the first `n` that answer.
proof fn lemma_top_level(
    listing: Seq<SourceView>,
    syntax: Seq<Syntax>,
    name: Seq<char>,
    n: int,
) -> (which: Seq<int>)
    requires
        0 <= n <= listing.len(),
    ensures
        answered_at_top_level(
            listing.take(n),
            syntax,
            name,
            found_in_files(parsed(listing, syntax).take(n), top_level_in(name)),
            which,
        ),
        n == listing.len() ==> answered_at_top_level(
            listing,
            syntax,
            name,
            found_in_files(parsed(listing, syntax).take(n), top_level_in(name)),
            which,
        ),
    decreases n,
{
    let files = parsed(listing, syntax);
    let find = top_level_in(name);
    assert(n == listing.len() ==> listing.take(n) =~= listing);
    if n == 0 {
        assert(files.take(0) =~= seq![]);
        seq![]
    } else {
        let earlier = lemma_top_level(listing, syntax, name, n - 1);
        let init = files.take(n - 1);
        let file = files[n - 1];
        assert(files.take(n).drop_last() =~= init);
        assert(files.take(n).last() == file);
        let before = found_in_files(init, find);
        let here = found_in_file(file, find);
        let all = found_in_files(files.take(n), find);
        assert(all == before + here);
        let document = document_scope(file.ast->0);
        let answers = file.ast is Some && decl_in(document, name) is Some;
        if file.ast is Some {
            scopes_answer_with_the_first_declaration(document, name);
            lemma_declared(document, name);
        }
        let which = if answers {
            earlier.push(n - 1)
        } else {
            earlier
        };
        if answers {
            let decl = decl_in(document, name)->0;
            assert(here =~= seq![location_in(file.source, decl)]);
            assert(is_first_called(document.decls, name, decl));
            assert(declares_at_top_level(listing.take(n), syntax, name, n - 1, here[0]));
        } else {
            assert(here =~= seq![]);
            assert(all =~= before);
        }
        let shown = listing.take(n);
        assert forall|m: int| 0 <= m < which.len() implies 0 <= #[trigger] which[m] < shown.len()
            && declares_at_top_level(shown, syntax, name, which[m], all[m]) by {
            if m < earlier.len() {
                assert(which[m] == earlier[m]);
                assert(all[m] == before[m]);
                assert(declares_at_top_level(listing.take(n - 1), syntax, name, earlier[m], before[m]));
                assert(listing.take(n - 1)[earlier[m]] == shown[earlier[m]]);
            }
        }
        assert forall|m: int, k: int| 0 <= m < k < which.len() implies #[trigger] which[m]
            < #[trigger] which[k] by {
            assert(which[m] == earlier[m]);
            if k < earlier.len() {
                assert(which[k] == earlier[k]);
            }
        }
        assert forall|j: int|
            0 <= j < shown.len() && ((#[trigger] syntax[j]).ast matches Some(ast) && !none_called(
                document_scope(ast).decls,
                name,
            )) implies which.contains(j) by {
            if j < n - 1 {
                assert(earlier.contains(j));
                let m = choose|m: int| 0 <= m < earlier.len() && earlier[m] == j;
                assert(which[m] == j);
            } else {
                assert(file.ast == syntax[j].ast);
                if !answers {
                    assert(decl_in(document, name) is None);
                    assert(false);
                }
                assert(which[which.len() - 1] == j);
            }
        }
        which
    }
}

// A dotted name.

/// Whether `walk` goes down from `root` through the containers that `segments` name, one below the
/// other.
pub open spec fn leads_through(
    root: ScopeView,
    segments: Seq<Seq<char>>,
    walk: Seq<ScopeView>,
) -> bool {
    &&& walk.len() == segments.len() + 1
    &&& walk[0] == root
    &&& forall|k: int|
        0 <= k < segments.len() ==> is_first_container(
            walk[k].children,
            #[trigger] segments[k],
            walk[k + 1],
        )
}

/// A walk ends where its segments lead.
proof fn lemma_walk(root: ScopeView, segments: Seq<Seq<char>>, walk: Seq<ScopeView>)
    requires
        leads_through(root, segments, walk),
    ensures
        descended(root, segments) == Some(walk.last()),
    decreases segments.len(),
{
    if segments.len() > 0 {
        let next = walk[1];
        assert(is_first_container(walk[0].children, segments[0], walk[1]));
        lemma_first_container(root, segments[0], next);
        let rest = segments.drop_first();
        let tail = walk.drop_first();
        assert forall|k: int| 0 <= k < rest.len() implies is_first_container(
            tail[k].children,
            #[trigger] rest[k],
            tail[k + 1],
        ) by {
            assert(rest[k] == segments[k + 1]);
        }
        lemma_walk(next, rest, tail);
        assert(tail.last() == walk.last());
    }
}

proof fn lemma_first_container(scope: ScopeView, name: Seq<char>, inner: ScopeView)
    requires
        is_first_container(scope.children, name, inner),
    ensures
        container_in(scope, name) == Some(inner),
{
    containers_are_modules_and_classes(scope, name);
    let i = choose|i: int| #[trigger] is_first_container_at(scope.children, name, inner, i);
    let found = container_in(scope, name)->0;
    assert(scope.children[i] == inner);
    let j = choose|j: int| #[trigger] is_first_container_at(scope.children, name, found, j);
    if i < j {
        assert(scope.children[i] == inner);
    }
    if j < i {
        assert(scope.children[j] == found);
    }
}

/// Where segments lead, a walk goes.
proof fn lemma_walked(root: ScopeView, segments: Seq<Seq<char>>) -> (walk: Seq<ScopeView>)
    requires
        descended(root, segments) is Some,
    ensures
        leads_through(root, segments, walk),
        walk.last() == descended(root, segments)->0,
    decreases segments.len(),
{
    if segments.len() == 0 {
        seq![root]
    } else {
        containers_are_modules_and_classes(root, segments[0]);
        let next = container_in(root, segments[0])->0;
        let rest = segments.drop_first();
        let tail = lemma_walked(next, rest);
        let walk = seq![root] + tail;
        assert forall|k: int| 0 <= k < segments.len() implies is_first_container(
            walk[k].children,
            #[trigger] segments[k],
            walk[k + 1],
        ) by {
            if k > 0 {
                assert(segments[k] == rest[k - 1]);
                assert(walk[k] == tail[k - 1]);
                assert(walk[k + 1] == tail[k]);
            }
        }
        assert(walk.last() == tail.last());
        walk
    }
}

/// Whether `decl` is the first declaration of `name` in the container that `segments` lead to from
/// `root`, whatever kind of thing it declares.
pub open spec fn is_member(
    root: ScopeView,
    segments: Seq<Seq<char>>,
    name: Seq<char>,
    decl: DeclView,
) -> bool {
    exists|walk: Seq<ScopeView>|
        #[trigger] leads_through(root, segments, walk) && is_first_called(
            walk.last().decls,
            name,
            decl,
        )
}

/// Whether `found` are the members called `name` of what `segments` lead to from the roots `which`,
/// and from no other root they lead to one.
pub open spec fn answered_by_members(
    roots: Seq<ScopeView>,
    segments: Seq<Seq<char>>,
    name: Seq<char>,
    found: Seq<DeclView>,
    which: Seq<int>,
) -> bool {
    &&& which.len() == found.len()
    &&& forall|m: int| 0 <= m < which.len() ==> 0 <= #[trigger] which[m] < roots.len()
    &&& forall|m: int, n: int|
        0 <= m < n < which.len() ==> #[trigger] which[m] < #[trigger] which[n]
    &&& forall|m: int|
        0 <= m < which.len() ==> is_member(
            roots[#[trigger] which[m]],
            segments,
            name,
            found[m],
        )
    &&& forall|r: int, decl: DeclView|
        0 <= r < roots.len() && #[trigger] is_member(roots[r], segments, name, decl)
            ==> which.contains(r)
}

/// In a file, a dotted name means the members of that name in every container that its qualifiers
/// lead to: the first names a module or class at any depth, and the others go down from there.
pub proof fn dotted_names_mean_members(
    document: ScopeView,
    qualifiers: Seq<Seq<char>>,
    name: Seq<char>,
)
    requires
        qualifiers.len() > 0,
    ensures
        exists|which: Seq<int>| #[trigger]
            answered_by_members(
                containers_at(document, qualifiers[0]),
                qualifiers.drop_first(),
                name,
                qualified_in(qualifiers, name)(document),
                which,
            ),
{
    let roots = containers_at(document, qualifiers[0]);
    let segments = qualifiers.drop_first();
    let which = lemma_members(roots, segments, name);
    assert(answered_by_members(
        roots,
        segments,
        name,
        qualified_in(qualifiers, name)(document),
        which,
    ));
}

/// What a walk leads to is what is asked for a member.
proof fn lemma_member(root: ScopeView, segments: Seq<Seq<char>>, name: Seq<char>)
    ensures
        forall|decl: DeclView| #[trigger]
            is_member(root, segments, name, decl) <==> member(root, segments, name) == Some(decl),
{
    assert forall|decl: DeclView| #[trigger]
        is_member(root, segments, name, decl) <==> member(root, segments, name) == Some(decl) by {
        if is_member(root, segments, name, decl) {
            let walk = choose|walk: Seq<ScopeView>|
                #[trigger] leads_through(root, segments, walk) && is_first_called(
                    walk.last().decls,
                    name,
                    decl,
                );
            lemma_walk(root, segments, walk);
            lemma_declared(walk.last(), name);
        }
        if member(root, segments, name) == Some(decl) {
            let walk = lemma_walked(root, segments);
            scopes_answer_with_the_first_declaration(walk.last(), name);
            assert(leads_through(root, segments, walk));
        }
    }
}

proof fn lemma_members(
    roots: Seq<ScopeView>,
    segments: Seq<Seq<char>>,
    name: Seq<char>,
) -> (which: Seq<int>)
    ensures
        answered_by_members(roots, segments, name, members(roots, segments, name), which),
    decreases roots.len(),
{
    if roots.len() == 0 {
        seq![]
    } else {
        let init = roots.drop_last();
        let last = roots[roots.len() - 1];
        let earlier = lemma_members(init, segments, name);
        let before = members(init, segments, name);
        let all = members(roots, segments, name);
        lemma_member(last, segments, name);
        let at = roots.len() - 1;
        let answers = member(last, segments, name) is Some;
        let which = if answers {
            earlier.push(at)
        } else {
            earlier
        };
        if answers {
            assert(all =~= before.push(member(last, segments, name)->0));
            assert(is_member(last, segments, name, member(last, segments, name)->0));
        } else {
            assert(all =~= before);
        }
        assert forall|m: int| 0 <= m < which.len() implies 0 <= #[trigger] which[m] < roots.len()
            && is_member(roots[which[m]], segments, name, all[m]) by {
            if m < earlier.len() {
                assert(which[m] == earlier[m]);
                assert(init[earlier[m]] == roots[earlier[m]]);
                assert(all[m] == before[m]);
            }
        }
        assert forall|m: int, n: int| 0 <= m < n < which.len() implies #[trigger] which[m]
            < #[trigger] which[n] by {
            assert(which[m] == earlier[m]);
            if n < earlier.len() {
                assert(which[n] == earlier[n]);
            }
        }
        assert forall|r: int, decl: DeclView|
            0 <= r < roots.len() && #[trigger] is_member(
                roots[r],
                segments,
                name,
                decl,
            ) implies which.contains(r) by {
            if r < at {
                assert(init[r] == roots[r]);
                assert(is_member(init[r], segments, name, decl));
                assert(earlier.contains(r));
                let m = choose|m: int| 0 <= m < earlier.len() && earlier[m] == r;
                assert(which[m] == r);
            } else {
                assert(which[which.len() - 1] == at);
            }
        }
        which
    }
}

/// What a file answers: each declaration that is found in its tree, with the file's URI and text. A
/// file that does not parse answers nothing.
pub open spec fn answers_of(
    file: FileView,
    find: spec_fn(ScopeView) -> Seq<DeclView>,
) -> Seq<LocationView> {
    match file.ast {
        Some(ast) => Seq::new(
            find(document_scope(ast)).len(),
            |m: int|
                LocationView {
                    uri: uri_of_path(file.source.path),
                    text: file.source.text,
                    span: find(document_scope(ast))[m].name_span,
                },
        ),
        None => Seq::empty(),
    }
}

/// All files answer, one after the other.
pub proof fn every_file_answers(
    files: Seq<FileView>,
    find: spec_fn(ScopeView) -> Seq<DeclView>,
)
    ensures
        found_in_files(files, find) == files.map_values(
            |file: FileView| answers_of(file, find),
        ).flatten(),
    decreases files.len(),
{
    let one = |file: FileView| answers_of(file, find);
    if files.len() > 0 {
        let init = files.drop_last();
        every_file_answers(init, find);
        assert(files.map_values(one) =~= init.map_values(one).push(one(files.last())));
        init.map_values(one).lemma_flatten_push(one(files.last()));
        assert(found_in_file(files.last(), find) =~= one(files.last()));
    }
}

/// A dotted name is looked up in every source of the workspace.
pub proof fn dotted_names_are_sought_everywhere(
    listing: Seq<SourceView>,
    syntax: Seq<Syntax>,
    path: PathView,
    offset: usize,
    i: int,
    qualifiers: Seq<Seq<char>>,
    name: Seq<char>,
)
    requires
        in_path_order(listing),
        0 <= i < listing.len(),
        key(listing[i].path) == key(path),
        qualifiers.len() > 0,
        reference(token_views(syntax[i].tokens@), offset) == Some(qualifiers.push(name)),
    ensures
        definitions(listing, syntax, path, offset) == Seq::new(
            listing.len(),
            |j: int|
                answers_of(
                    FileView { source: listing[j], ast: syntax[j].ast },
                    qualified_in(qualifiers, name),
                ),
        ).flatten(),
{
    assert(listed_at(listing, key(path), i));
    lemma_own_file(listing, path, i);
    let segments = qualifiers.push(name);
    assert(segments.last() == name);
    assert(segments.drop_last() =~= qualifiers);
    let files = parsed(listing, syntax);
    let find = qualified_in(qualifiers, name);
    every_file_answers(files, find);
    assert(files.map_values(|file: FileView| answers_of(file, find)) =~= Seq::new(
        listing.len(),
        |j: int| answers_of(FileView { source: listing[j], ast: syntax[j].ast }, find),
    ));
}

} // verus!
