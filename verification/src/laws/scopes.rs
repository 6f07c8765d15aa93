//! What a source declares, and how names are looked up in its tree of scopes.
use crate::ast::{
    Ast, BlockStmt, CatchClause, ClassDecl, ConstDecl, DoWhileStmt, ElseBranch, EnumDecl, ForInit, ForStmt,
    FunctionDecl, IfStmt, ModuleDecl, Span, Stmt, SwitchCase, SwitchStmt, TryStmt, TypedefDecl,
    VarDecl, WhileStmt, span_of,
};
use crate::order::{lex_before, parts_at};
use crate::seqs::{first_index, lemma_first_index};
use crate::symbols::{
    Decl, DeclView, Scope, ScopeKind, ScopeView, at_or_below, bodies_declare_in_order, body_decls,
    body_scopes, cases_decls, catches_decls, chain, container_in, containers_among, containers_at,
    covers, decl_in, document_scope, if_decls, is_container_named, lemma_scope_views, node_decls,
    node_scopes, scope_ref_views, scope_views, stmt_decls, stmts_decls, with_body,
};
use vstd::prelude::*;
use vstd::utf8::*;

verus! {

// What a scope is.

/// The view of a declaration is its name and where the name stands.
pub proof fn declarations_hold_names(decl: Decl)
    ensures
        decl@.name == decl.name@,
        decl@.name_span == decl.name_span,
{
}

/// The view of a scope leaves nothing out: every declaration and every child is there, in order.
pub proof fn scopes_hold_everything(scope: Scope)
    ensures
        scope@.kind == scope.kind,
        scope@.name == (match scope.name {
            Some(name) => Some(name@),
            None => None,
        }),
        scope@.span == scope.span,
        scope@.decls.len() == scope.decls@.len(),
        forall|i: int| 0 <= i < scope.decls@.len() ==> #[trigger] scope@.decls[i] == scope.decls@[i]@,
        scope@.children.len() == scope.children@.len(),
        forall|i: int|
            0 <= i < scope.children@.len() ==> #[trigger] scope@.children[i]
                == scope.children@[i]@,
{
    lemma_scope_views(scope.children@);
    assert(scope@.children == scope_views(scope.children@));
}

/// The view of a list of scopes is the view of each.
pub proof fn lists_of_scopes_hold_everything(scopes: Seq<&Scope>)
    ensures
        scope_ref_views(scopes).len() == scopes.len(),
        forall|i: int| 0 <= i < scopes.len() ==> #[trigger] scope_ref_views(scopes)[i] == scopes[i]@,
{
}

// Looking names up.

/// Whether `decl` is the first of `decls` that is called `name`.
pub open spec fn is_first_called(decls: Seq<DeclView>, name: Seq<char>, decl: DeclView) -> bool {
    exists|i: int| #[trigger] is_first_called_at(decls, name, decl, i)
}

pub open spec fn is_first_called_at(
    decls: Seq<DeclView>,
    name: Seq<char>,
    decl: DeclView,
    i: int,
) -> bool {
    &&& 0 <= i < decls.len()
    &&& decls[i] == decl
    &&& decl.name == name
    &&& forall|j: int| 0 <= j < i ==> (#[trigger] decls[j]).name != name
}

/// Whether none of `decls` is called `name`.
pub open spec fn none_called(decls: Seq<DeclView>, name: Seq<char>) -> bool {
    forall|i: int| 0 <= i < decls.len() ==> (#[trigger] decls[i]).name != name
}

/// A scope answers with the first declaration of a name, whatever kind of thing is declared, and with
/// nothing only if it has none.
pub proof fn scopes_answer_with_the_first_declaration(scope: ScopeView, name: Seq<char>)
    ensures
        decl_in(scope, name) matches Some(decl) ==> is_first_called(scope.decls, name, decl),
        decl_in(scope, name) is None ==> none_called(scope.decls, name),
{
    let wanted = |decl: DeclView| decl.name == name;
    lemma_first_index(scope.decls, wanted);
    let k = first_index(scope.decls, wanted) as int;
    assert forall|j: int| 0 <= j < k implies (#[trigger] scope.decls[j]).name != name by {
        assert(!wanted(scope.decls[j]));
    }
    if let Some(decl) = decl_in(scope, name) {
        assert(is_first_called_at(scope.decls, name, decl, k));
    }
}

/// What [`decl_in`] gives for a name that is declared, or is not.
pub proof fn lemma_declared(scope: ScopeView, name: Seq<char>)
    ensures
        forall|decl: DeclView| #[trigger]
            is_first_called(scope.decls, name, decl) ==> decl_in(scope, name) == Some(decl),
        none_called(scope.decls, name) ==> decl_in(scope, name) is None,
{
    scopes_answer_with_the_first_declaration(scope, name);
    assert forall|decl: DeclView| #[trigger] is_first_called(scope.decls, name, decl) implies decl_in(
        scope,
        name,
    ) == Some(decl) by {
        let i = choose|i: int| #[trigger] is_first_called_at(scope.decls, name, decl, i);
        assert(scope.decls[i].name == name);
        let found = decl_in(scope, name)->0;
        the_first_declaration_is_one(scope.decls, name, decl, found);
    }
    if none_called(scope.decls, name) && decl_in(scope, name) is Some {
        let found = decl_in(scope, name)->0;
        let i = choose|i: int| #[trigger] is_first_called_at(scope.decls, name, found, i);
        assert(scope.decls[i].name != name);
    }
}

/// There is one first declaration of a name.
pub proof fn the_first_declaration_is_one(
    decls: Seq<DeclView>,
    name: Seq<char>,
    a: DeclView,
    b: DeclView,
)
    requires
        is_first_called(decls, name, a),
        is_first_called(decls, name, b),
    ensures
        a == b,
{
    let i = choose|i: int| #[trigger] is_first_called_at(decls, name, a, i);
    let j = choose|j: int| #[trigger] is_first_called_at(decls, name, b, j);
    if i < j {
        assert(decls[i].name != name);
    }
    if j < i {
        assert(decls[j].name != name);
    }
}

/// Whether `scope` is a module or a class called `name`.
pub open spec fn is_module_or_class(scope: ScopeView, name: Seq<char>) -> bool {
    scope.name == Some(name) && (scope.kind is Module || scope.kind is Class)
}

/// Whether `inner` is the first module or class called `name` among `scopes`.
pub open spec fn is_first_container(
    scopes: Seq<ScopeView>,
    name: Seq<char>,
    inner: ScopeView,
) -> bool {
    exists|i: int| #[trigger] is_first_container_at(scopes, name, inner, i)
}

pub open spec fn is_first_container_at(
    scopes: Seq<ScopeView>,
    name: Seq<char>,
    inner: ScopeView,
    i: int,
) -> bool {
    &&& 0 <= i < scopes.len()
    &&& scopes[i] == inner
    &&& is_module_or_class(inner, name)
    &&& forall|j: int| 0 <= j < i ==> !is_module_or_class(#[trigger] scopes[j], name)
}

/// A container of a name is the first child that is a module or a class of that name, and there is
/// none only if no child is.
pub proof fn containers_are_modules_and_classes(scope: ScopeView, name: Seq<char>)
    ensures
        container_in(scope, name) matches Some(inner) ==> is_first_container(
            scope.children,
            name,
            inner,
        ),
        container_in(scope, name) is None ==> forall|i: int|
            0 <= i < scope.children.len() ==> !is_module_or_class(
                #[trigger] scope.children[i],
                name,
            ),
{
    let wanted = |child: ScopeView| is_container_named(child, name);
    lemma_first_index(scope.children, wanted);
    let k = first_index(scope.children, wanted) as int;
    assert forall|j: int| 0 <= j < k implies !is_module_or_class(
        #[trigger] scope.children[j],
        name,
    ) by {
        assert(!wanted(scope.children[j]));
    }
    if let Some(inner) = container_in(scope, name) {
        assert(is_first_container_at(scope.children, name, inner, k));
    }
}

/// What stands at the end of a path of child numbers.
pub open spec fn at_path(scope: ScopeView, path: Seq<int>) -> Option<ScopeView>
    decreases path.len(),
{
    if path.len() == 0 {
        Some(scope)
    } else if 0 <= path[0] < scope.children.len() {
        at_path(scope.children[path[0]], path.drop_first())
    } else {
        None
    }
}

/// Whether one path comes before another in source order, a scope before what is inside it.
pub open spec fn path_before(a: Seq<int>, b: Seq<int>) -> bool {
    lex_before(a, b, |x: int, y: int| x < y)
}

/// Whether `paths` lead to each module and class called `name` at or below `scope`, in source order,
/// and `found` is what stands there.
pub open spec fn enumerates(
    scope: ScopeView,
    name: Seq<char>,
    found: Seq<ScopeView>,
    paths: Seq<Seq<int>>,
) -> bool {
    &&& paths.len() == found.len()
    &&& forall|i: int|
        0 <= i < found.len() ==> at_path(scope, #[trigger] paths[i]) == Some(found[i])
    &&& forall|i: int| 0 <= i < found.len() ==> is_module_or_class(#[trigger] found[i], name)
    &&& forall|i: int, j: int|
        0 <= i < j < paths.len() ==> path_before(#[trigger] paths[i], #[trigger] paths[j])
    &&& forall|path: Seq<int>|
        (#[trigger] at_path(scope, path) matches Some(inner) && is_module_or_class(inner, name))
            ==> paths.contains(path)
}

/// Every module and class of a name is found, once, in source order, each before those inside it.
pub proof fn containers_are_enumerated(scope: ScopeView, name: Seq<char>)
    ensures
        exists|paths: Seq<Seq<int>>|
            #[trigger] enumerates(scope, name, containers_at(scope, name), paths),
{
    let paths = lemma_enumerated(scope, name);
}

/// The same of the scopes in a list: a path starts with a place in the list.
spec fn enumerates_among(
    scopes: Seq<ScopeView>,
    name: Seq<char>,
    found: Seq<ScopeView>,
    paths: Seq<Seq<int>>,
) -> bool {
    &&& paths.len() == found.len()
    &&& forall|i: int| 0 <= i < found.len() ==> (#[trigger] paths[i]).len() > 0
    &&& forall|i: int| 0 <= i < found.len() ==> 0 <= (#[trigger] paths[i])[0] < scopes.len()
    &&& forall|i: int|
        0 <= i < found.len() ==> at_path(
            scopes[(#[trigger] paths[i])[0]],
            paths[i].drop_first(),
        ) == Some(found[i])
    &&& forall|i: int| 0 <= i < found.len() ==> is_module_or_class(#[trigger] found[i], name)
    &&& forall|i: int, j: int|
        0 <= i < j < paths.len() ==> path_before(#[trigger] paths[i], #[trigger] paths[j])
    &&& forall|k: int, path: Seq<int>|
        0 <= k < scopes.len() && (#[trigger] at_path(scopes[k], path) matches Some(inner)
            && is_module_or_class(inner, name)) ==> paths.contains(seq![k] + path)
}

proof fn lemma_enumerated(scope: ScopeView, name: Seq<char>) -> (paths: Seq<Seq<int>>)
    ensures
        enumerates(scope, name, containers_at(scope, name), paths),
    decreases scope, 1nat,
{
    let below = lemma_enumerated_among(scope.children, name);
    let own: Seq<Seq<int>> = if is_container_named(scope, name) {
        seq![Seq::<int>::empty()]
    } else {
        seq![]
    };
    let found = containers_at(scope, name);
    let inner = containers_among(scope.children, name);
    let paths = own + below;
    let n = own.len() as int;
    assert forall|i: int| 0 <= i < found.len() implies at_path(scope, #[trigger] paths[i]) == Some(
        found[i],
    ) && is_module_or_class(found[i], name) by {
        if i >= n {
            assert(paths[i] == below[i - n]);
            assert(found[i] == inner[i - n]);
        }
    }
    assert forall|i: int| 0 <= i < found.len() implies is_module_or_class(
        #[trigger] found[i],
        name,
    ) by {
        assert(at_path(scope, paths[i]) == Some(found[i]));
    }
    let before = |x: int, y: int| x < y;
    assert forall|i: int, j: int| 0 <= i < j < paths.len() implies path_before(
        #[trigger] paths[i],
        #[trigger] paths[j],
    ) by {
        assert(paths[j] == below[j - n]);
        if i < n {
            assert(paths[i].take(0) =~= paths[j].take(0));
            assert(parts_at(paths[i], paths[j], before, 0));
        } else {
            assert(paths[i] == below[i - n]);
        }
    }
    assert forall|path: Seq<int>|
        (#[trigger] at_path(scope, path) matches Some(inner) && is_module_or_class(
            inner,
            name,
        )) implies paths.contains(path) by {
        if path.len() == 0 {
            assert(path =~= Seq::<int>::empty());
            assert(paths[0] == path);
        } else {
            let k = path[0];
            let rest = path.drop_first();
            assert(at_path(scope.children[k], rest) == at_path(scope, path));
            assert(seq![k] + rest =~= path);
            assert(below.contains(path));
            let m = choose|m: int| 0 <= m < below.len() && below[m] == path;
            assert(paths[n + m] == path);
        }
    }
    paths
}

proof fn lemma_enumerated_among(scopes: Seq<ScopeView>, name: Seq<char>) -> (paths: Seq<Seq<int>>)
    ensures
        enumerates_among(scopes, name, containers_among(scopes, name), paths),
    decreases scopes, 0nat,
{
    if scopes.len() == 0 {
        seq![]
    } else {
        let init = scopes.drop_last();
        let last = scopes.last();
        let at = scopes.len() - 1;
        let earlier = lemma_enumerated_among(init, name);
        let inside = lemma_enumerated(last, name);
        let later = inside.map_values(|path: Seq<int>| seq![at] + path);
        let paths = earlier + later;
        let found = containers_among(scopes, name);
        let n = earlier.len() as int;
        let found_before = containers_among(init, name);
        let found_inside = containers_at(last, name);
        assert(found == found_before + found_inside);
        assert forall|i: int| 0 <= i < found.len() implies (#[trigger] paths[i]).len() > 0 && 0
            <= paths[i][0] < scopes.len() && at_path(scopes[paths[i][0]], paths[i].drop_first())
            == Some(found[i]) && is_module_or_class(found[i], name) by {
            if i < n {
                assert(paths[i] == earlier[i]);
                assert(init[earlier[i][0]] == scopes[earlier[i][0]]);
                assert(found[i] == found_before[i]);
            } else {
                assert(paths[i] == seq![at] + inside[i - n]);
                assert(paths[i].drop_first() =~= inside[i - n]);
                assert(found[i] == found_inside[i - n]);
            }
        }
        assert forall|i: int| 0 <= i < found.len() implies is_module_or_class(
            #[trigger] found[i],
            name,
        ) by {
            assert(paths[i].len() > 0);
        }
        let before = |x: int, y: int| x < y;
        assert forall|i: int, j: int| 0 <= i < j < paths.len() implies path_before(
            #[trigger] paths[i],
            #[trigger] paths[j],
        ) by {
            if j < n {
                assert(paths[i] == earlier[i] && paths[j] == earlier[j]);
            } else if i < n {
                assert(paths[i] == earlier[i]);
                assert(earlier[i][0] < at);
                assert(paths[j] == seq![at] + inside[j - n]);
                assert(paths[i].take(0) =~= paths[j].take(0));
                assert(parts_at(paths[i], paths[j], before, 0));
            } else {
                let x = inside[i - n];
                let y = inside[j - n];
                assert(paths[i] == seq![at] + x && paths[j] == seq![at] + y);
                assert(path_before(x, y));
                let k = choose|k: int| parts_at(x, y, before, k);
                assert(paths[i].take(k + 1) =~= seq![at] + x.take(k));
                assert(paths[j].take(k + 1) =~= seq![at] + y.take(k));
                assert(parts_at(paths[i], paths[j], before, k + 1));
            }
        }
        assert forall|k: int, path: Seq<int>|
            0 <= k < scopes.len() && (#[trigger] at_path(scopes[k], path) matches Some(inner)
                && is_module_or_class(inner, name)) implies paths.contains(seq![k] + path) by {
            if k < at {
                assert(init[k] == scopes[k]);
                assert(at_path(init[k], path) is Some);
                assert(earlier.contains(seq![k] + path));
                let m = choose|m: int| 0 <= m < earlier.len() && earlier[m] == seq![k] + path;
                assert(paths[m] == seq![k] + path);
            } else {
                assert(inside.contains(path));
                let m = choose|m: int| 0 <= m < inside.len() && inside[m] == path;
                assert(paths[n + m] == seq![k] + path);
            }
        }
        paths
    }
}

/// Whether a caret at `offset` is on `span`: from its start to its end, both among them.
pub open spec fn is_on(span: Span, offset: usize) -> bool {
    span.start <= offset && offset <= span.end
}

/// A span covers its start, its end and what lies between.
pub proof fn spans_cover_their_ends(span: Span, offset: usize)
    ensures
        covers(span, offset) <==> is_on(span, offset),
{
}

/// The scopes around an offset start with the outermost one. Each that follows is the first child of
/// the one before that the offset is on, and the last has no such child.
pub proof fn chains_follow_the_offset(scope: ScopeView, offset: usize)
    ensures
        chain(scope, offset).len() > 0,
        chain(scope, offset)[0] == scope,
        forall|k: int|
            #![trigger chain(scope, offset)[k]]
            0 < k < chain(scope, offset).len() ==> is_first_child_on(
                chain(scope, offset)[k - 1].children,
                offset,
                chain(scope, offset)[k],
            ),
        forall|i: int|
            0 <= i < chain(scope, offset).last().children.len() ==> !is_on(
                (#[trigger] chain(scope, offset).last().children[i]).span,
                offset,
            ),
    decreases scope,
{
    let wanted = |child: ScopeView| covers(child.span, offset);
    let i = first_index(scope.children, wanted) as int;
    lemma_first_index(scope.children, wanted);
    if i < scope.children.len() {
        let child = scope.children[i];
        let rest = chain(child, offset);
        let whole = chain(scope, offset);
        chains_follow_the_offset(child, offset);
        assert(whole == seq![scope] + rest);
        assert forall|j: int| 0 <= j < i implies !is_on(
            (#[trigger] scope.children[j]).span,
            offset,
        ) by {
            assert(!wanted(scope.children[j]));
        }
        assert(is_first_child_on_at(scope.children, offset, child, i));
        assert forall|k: int| #![trigger whole[k]] 0 < k < whole.len() implies is_first_child_on(
            whole[k - 1].children,
            offset,
            whole[k],
        ) by {
            assert(whole[k] == rest[k - 1]);
            if k > 1 {
                assert(whole[k - 1] == rest[k - 2]);
            }
        }
        assert(whole.last() == rest.last());
    } else {
        assert forall|j: int| 0 <= j < scope.children.len() implies !is_on(
            (#[trigger] scope.children[j]).span,
            offset,
        ) by {
            assert(!wanted(scope.children[j]));
        }
    }
}

/// Whether `child` is the first of `children` that the offset is on.
pub open spec fn is_first_child_on(
    children: Seq<ScopeView>,
    offset: usize,
    child: ScopeView,
) -> bool {
    exists|i: int| #[trigger] is_first_child_on_at(children, offset, child, i)
}

pub open spec fn is_first_child_on_at(
    children: Seq<ScopeView>,
    offset: usize,
    child: ScopeView,
    i: int,
) -> bool {
    &&& 0 <= i < children.len()
    &&& children[i] == child
    &&& is_on(child.span, offset)
    &&& forall|j: int| 0 <= j < i ==> !is_on((#[trigger] children[j]).span, offset)
}

// What statements declare.

proof fn lemma_one_statement(stmt: Stmt)
    ensures
        stmts_decls(seq![stmt]) == stmt_decls(stmt),
{
    let stmts = seq![stmt];
    assert(stmts.drop_last() =~= seq![]);
    assert(stmts.last() == stmt);
    reveal_with_fuel(stmts_decls, 2);
    assert(stmts_decls(stmts) =~= stmt_decls(stmt));
}

/// The names of a `var` are declared one by one, each where it stands.
pub proof fn variables_declare_each_name(decl: VarDecl)
    ensures
        stmts_decls(seq![Stmt::Var(decl)]) == Seq::new(
            decl.bindings@.len(),
            |i: int|
                DeclView {
                    name: decl.bindings@[i].name.node@,
                    name_span: decl.bindings@[i].name.span,
                },
        ),
{
    lemma_one_statement(Stmt::Var(decl));
}

/// A block and a loop declare what the statements inside them declare.
pub proof fn loops_declare_what_is_inside(block: BlockStmt)
    ensures
        stmts_decls(seq![Stmt::Block(block)]) == stmts_decls(block.stmts@),
        stmts_decls(seq![Stmt::While(WhileStmt { body: block })]) == stmts_decls(
            block.stmts@,
        ),
        stmts_decls(seq![Stmt::DoWhile(DoWhileStmt { body: block })]) == stmts_decls(
            block.stmts@,
        ),
{
    lemma_one_statement(Stmt::Block(block));
    lemma_one_statement(Stmt::While(WhileStmt { body: block }));
    lemma_one_statement(Stmt::DoWhile(DoWhileStmt { body: block }));
    reveal_with_fuel(stmts_decls, 2);
    reveal_with_fuel(stmt_decls, 2);
}

/// A branch declares what is inside it, and then what is inside every `else` behind it.
pub proof fn branches_declare_what_is_inside(stmt: IfStmt)
    ensures
        stmts_decls(seq![Stmt::If(stmt)]) == stmts_decls(stmt.then_branch.stmts@) + (
        match stmt.else_branch {
            Some(ElseBranch::Block(block)) => stmts_decls(block.stmts@),
            Some(ElseBranch::If(nested)) => stmts_decls(seq![Stmt::If(*nested)]),
            None => Seq::empty(),
        }),
{
    lemma_one_statement(Stmt::If(stmt));
    if let Some(ElseBranch::If(nested)) = stmt.else_branch {
        lemma_one_statement(Stmt::If(*nested));
    }
    reveal_with_fuel(stmts_decls, 2);
    reveal_with_fuel(stmt_decls, 2);
    reveal_with_fuel(if_decls, 2);
}

/// A `for` declares its variables and then what is inside it.
pub proof fn for_loops_declare_their_variables(stmt: ForStmt)
    ensures
        stmts_decls(seq![Stmt::For(stmt)]) == (match stmt.header.init {
            Some(ForInit::Var(decl)) => stmts_decls(seq![Stmt::Var(decl)]),
            _ => Seq::empty(),
        }) + stmts_decls(stmt.body.stmts@),
{
    lemma_one_statement(Stmt::For(stmt));
    if let Some(ForInit::Var(decl)) = stmt.header.init {
        lemma_one_statement(Stmt::Var(decl));
    }
    reveal_with_fuel(stmts_decls, 2);
    reveal_with_fuel(stmt_decls, 2);
}

/// A `switch` declares what the statements of all its cases declare, one case after the other.
pub proof fn switches_declare_what_is_inside(stmt: SwitchStmt)
    ensures
        stmts_decls(seq![Stmt::Switch(stmt)]) == stmt.cases@.map_values(
            |case: SwitchCase| stmts_decls(case.stmts@),
        ).flatten(),
{
    lemma_one_statement(Stmt::Switch(stmt));
    lemma_cases(stmt.cases@);
    reveal_with_fuel(stmts_decls, 2);
    reveal_with_fuel(stmt_decls, 2);
}

proof fn lemma_cases(cases: Seq<SwitchCase>)
    ensures
        cases_decls(cases) == cases.map_values(
            |case: SwitchCase| stmts_decls(case.stmts@),
        ).flatten(),
    decreases cases.len(),
{
    let inside = |case: SwitchCase| stmts_decls(case.stmts@);
    if cases.len() > 0 {
        let init = cases.drop_last();
        lemma_cases(init);
        assert(cases.map_values(inside) =~= init.map_values(inside).push(inside(cases.last())));
        init.map_values(inside).lemma_flatten_push(inside(cases.last()));
    }
}

/// A `try` declares what is inside it, then what is inside each `catch`, then what is inside its
/// `finally`.
pub proof fn tries_declare_what_is_inside(stmt: TryStmt)
    ensures
        stmts_decls(seq![Stmt::Try(stmt)]) == stmts_decls(stmt.body.stmts@)
            + stmt.catches@.map_values(
            |catch: CatchClause| stmts_decls(catch.body.stmts@),
        ).flatten() + (match stmt.finally {
            Some(block) => stmts_decls(block.stmts@),
            None => Seq::empty(),
        }),
{
    lemma_one_statement(Stmt::Try(stmt));
    lemma_catches(stmt.catches@);
    reveal_with_fuel(stmts_decls, 2);
    reveal_with_fuel(stmt_decls, 2);
}

proof fn lemma_catches(catches: Seq<CatchClause>)
    ensures
        catches_decls(catches) == catches.map_values(
            |catch: CatchClause| stmts_decls(catch.body.stmts@),
        ).flatten(),
    decreases catches.len(),
{
    let inside = |catch: CatchClause| stmts_decls(catch.body.stmts@);
    if catches.len() > 0 {
        let init = catches.drop_last();
        lemma_catches(init);
        assert(catches.map_values(inside) =~= init.map_values(inside).push(inside(catches.last())));
        init.map_values(inside).lemma_flatten_push(inside(catches.last()));
    }
}

/// The other statements declare nothing.
pub proof fn other_statements_declare_nothing()
    ensures
        stmts_decls(seq![Stmt::Break]) == Seq::<DeclView>::empty(),
        stmts_decls(seq![Stmt::Continue]) == Seq::<DeclView>::empty(),
        stmts_decls(seq![Stmt::Return]) == Seq::<DeclView>::empty(),
        stmts_decls(seq![Stmt::Throw]) == Seq::<DeclView>::empty(),
        stmts_decls(seq![Stmt::Expr]) == Seq::<DeclView>::empty(),
        stmts_decls(seq![]) == Seq::<DeclView>::empty(),
{
    lemma_one_statement(Stmt::Break);
    lemma_one_statement(Stmt::Continue);
    lemma_one_statement(Stmt::Return);
    lemma_one_statement(Stmt::Throw);
    lemma_one_statement(Stmt::Expr);
}

// What the nodes of a body declare, and which scopes they open.

proof fn lemma_one_node(node: Ast)
    ensures
        body_decls(seq![node]) == node_decls(node),
        body_scopes(seq![node]) == node_scopes(node),
{
    let nodes = seq![node];
    assert(nodes.drop_last() =~= seq![]);
    assert(nodes.last() == node);
    reveal_with_fuel(body_decls, 2);
    reveal_with_fuel(body_scopes, 2);
    assert(body_decls(nodes) =~= node_decls(node));
    assert(body_scopes(nodes) =~= node_scopes(node));
}

/// No nodes declare nothing and open nothing.
pub proof fn empty_bodies_declare_nothing()
    ensures
        body_decls(seq![]) == Seq::<DeclView>::empty(),
        body_scopes(seq![]) == Seq::<ScopeView>::empty(),
{
}

/// A module is declared under its name, and opens one scope that holds what its body declares and
/// opens.
pub proof fn modules_hold_their_bodies(decl: ModuleDecl)
    ensures
        body_decls(seq![Ast::Module(decl)]) == seq![
            DeclView { name: decl.name.node@, name_span: decl.name.span },
        ],
        body_scopes(seq![Ast::Module(decl)]) == seq![
            ScopeView {
                kind: ScopeKind::Module,
                name: Some(decl.name.node@),
                span: decl.span,
                decls: body_decls(decl.body@),
                children: body_scopes(decl.body@),
            },
        ],
{
    lemma_one_node(Ast::Module(decl));
    reveal_with_fuel(body_decls, 2);
    reveal_with_fuel(body_scopes, 2);
    reveal_with_fuel(node_scopes, 2);
}

/// A class is declared under its name, and opens one scope that holds what its body declares and
/// opens, its methods among it.
pub proof fn classes_hold_their_bodies(decl: ClassDecl)
    ensures
        body_decls(seq![Ast::Class(decl)]) == seq![
            DeclView { name: decl.name.node@, name_span: decl.name.span },
        ],
        body_scopes(seq![Ast::Class(decl)]) == seq![
            ScopeView {
                kind: ScopeKind::Class,
                name: Some(decl.name.node@),
                span: decl.span,
                decls: body_decls(decl.body@),
                children: body_scopes(decl.body@),
            },
        ],
{
    lemma_one_node(Ast::Class(decl));
    reveal_with_fuel(body_decls, 2);
    reveal_with_fuel(body_scopes, 2);
    reveal_with_fuel(node_scopes, 2);
}

/// What is declared inside a function: its parameters in order, and then its locals.
pub open spec fn inside_function(decl: FunctionDecl) -> Seq<DeclView> {
    Seq::new(
        decl.parameters@.len(),
        |i: int|
            DeclView {
                name: decl.parameters@[i].name.node@,
                name_span: decl.parameters@[i].name.span,
            },
    ) + (match decl.body {
        Some(block) => stmts_decls(block.stmts@),
        None => Seq::empty(),
    })
}

/// Whether `scope` is the one that a function opens: it holds the function's parameters and locals,
/// and no scopes.
pub open spec fn is_scope_of_function(scope: ScopeView, decl: FunctionDecl) -> bool {
    &&& scope.kind is Function
    &&& scope.name == Some(decl.name.node@)
    &&& scope.span == decl.span
    &&& scope.decls == inside_function(decl)
    &&& scope.children.len() == 0
}

/// A function is declared under its name, and opens one scope.
pub proof fn functions_hold_their_locals(decl: FunctionDecl)
    ensures
        body_decls(seq![Ast::Function(decl)]) == seq![
            DeclView { name: decl.name.node@, name_span: decl.name.span },
        ],
        body_scopes(seq![Ast::Function(decl)]).len() == 1,
        is_scope_of_function(body_scopes(seq![Ast::Function(decl)])[0], decl),
{
    lemma_one_node(Ast::Function(decl));
    let scope = body_scopes(seq![Ast::Function(decl)])[0];
    assert(scope.decls =~= inside_function(decl));
}

/// Constants, variables and types are declared name by name, and open no scopes.
pub proof fn members_are_declared(constants: ConstDecl, variables: VarDecl, typed: TypedefDecl)
    ensures
        body_decls(seq![Ast::Const(constants)]) == Seq::new(
            constants.bindings@.len(),
            |i: int|
                DeclView {
                    name: constants.bindings@[i].name.node@,
                    name_span: constants.bindings@[i].name.span,
                },
        ),
        body_decls(seq![Ast::Variable(variables)]) == Seq::new(
            variables.bindings@.len(),
            |i: int|
                DeclView {
                    name: variables.bindings@[i].name.node@,
                    name_span: variables.bindings@[i].name.span,
                },
        ),
        body_decls(seq![Ast::Typedef(typed)]) == seq![
            DeclView { name: typed.name.node@, name_span: typed.name.span },
        ],
        body_scopes(seq![Ast::Const(constants)]) == Seq::<ScopeView>::empty(),
        body_scopes(seq![Ast::Variable(variables)]) == Seq::<ScopeView>::empty(),
        body_scopes(seq![Ast::Typedef(typed)]) == Seq::<ScopeView>::empty(),
{
    lemma_one_node(Ast::Const(constants));
    lemma_one_node(Ast::Variable(variables));
    lemma_one_node(Ast::Typedef(typed));
}

/// An enum declares its name, if it has one, and then each variant by the bytes of its name, beside
/// itself and not below.
pub proof fn variants_are_declared_beside_their_enum(decl: EnumDecl)
    requires
        forall|i: int|
            0 <= i < decl.variants@.len() ==> (#[trigger] decl.variants@[i])@.span.start
                + encode_utf8(decl.variants@[i]@.name).len() <= usize::MAX,
    ensures
        ({
            let named: int = if decl.name is Some {
                1
            } else {
                0
            };
            let decls = body_decls(seq![Ast::Enum(decl)]);
            &&& decls.len() == named + decl.variants@.len()
            &&& decl.name matches Some(name) ==> decls[0].name == name.node@ && decls[0].name_span
                == name.span
            &&& forall|i: int|
                0 <= i < decl.variants@.len() ==> {
                    let variant = (#[trigger] decl.variants@[i])@;
                    let found = decls[named + i];
                    &&& found.name == variant.name
                    &&& found.name_span.start == variant.span.start
                    &&& found.name_span.end == variant.span.start + encode_utf8(variant.name).len()
                }
        }),
        body_scopes(seq![Ast::Enum(decl)]) == Seq::<ScopeView>::empty(),
{
    lemma_one_node(Ast::Enum(decl));
}

/// Annotations, imports and the end of the file declare nothing and open nothing.
pub proof fn silent_nodes_declare_nothing(span: Span)
    ensures
        body_decls(seq![Ast::Annotation(span)]) == Seq::<DeclView>::empty(),
        body_decls(seq![Ast::Import(span)]) == Seq::<DeclView>::empty(),
        body_decls(seq![Ast::Using(span)]) == Seq::<DeclView>::empty(),
        body_decls(seq![Ast::Eof]) == Seq::<DeclView>::empty(),
        body_scopes(seq![Ast::Annotation(span)]) == Seq::<ScopeView>::empty(),
        body_scopes(seq![Ast::Import(span)]) == Seq::<ScopeView>::empty(),
        body_scopes(seq![Ast::Using(span)]) == Seq::<ScopeView>::empty(),
        body_scopes(seq![Ast::Eof]) == Seq::<ScopeView>::empty(),
{
    lemma_one_node(Ast::Annotation(span));
    lemma_one_node(Ast::Import(span));
    lemma_one_node(Ast::Using(span));
    lemma_one_node(Ast::Eof);
}

/// The tree of a document is one nameless scope over its span, with what its nodes declare and open.
pub proof fn documents_hold_their_nodes(nodes: Vec<Ast>, span: Span)
    ensures
        document_scope(Ast::Document(nodes, span)) == (ScopeView {
            kind: ScopeKind::Document,
            name: None,
            span,
            decls: body_decls(nodes@),
            children: body_scopes(nodes@),
        }),
{
    reveal_with_fuel(body_decls, 2);
    reveal_with_fuel(body_scopes, 2);
    reveal_with_fuel(node_decls, 2);
    reveal_with_fuel(node_scopes, 2);
}

/// A tree whose root is not a document is one nameless scope over the root, with what it declares
/// and opens.
pub proof fn lone_nodes_are_read_as_documents(node: Ast)
    requires
        !(node is Document),
    ensures
        document_scope(node).kind is Document,
        document_scope(node).name is None,
        document_scope(node).decls == body_decls(seq![node]),
        document_scope(node).children == body_scopes(seq![node]),
        document_scope(node).span == (match node {
            Ast::Module(decl) => decl.span,
            Ast::Class(decl) => decl.span,
            Ast::Function(decl) => decl.span,
            Ast::Const(decl) => decl.span,
            Ast::Variable(decl) => decl.span,
            Ast::Typedef(decl) => decl.span,
            Ast::Enum(decl) => decl.span,
            Ast::Annotation(span) | Ast::Import(span) | Ast::Using(span) => span,
            Ast::Eof | Ast::Document(_, _) => Span { start: 0, end: 0 },
        }),
{
    lemma_one_node(node);
}

/// Every node but the end of the file spans what it says it spans.
pub proof fn nodes_span_themselves(node: Ast)
    ensures
        span_of(node) == (match node {
            Ast::Document(_, span) => Some(span),
            Ast::Module(decl) => Some(decl.span),
            Ast::Class(decl) => Some(decl.span),
            Ast::Function(decl) => Some(decl.span),
            Ast::Const(decl) => Some(decl.span),
            Ast::Variable(decl) => Some(decl.span),
            Ast::Typedef(decl) => Some(decl.span),
            Ast::Enum(decl) => Some(decl.span),
            Ast::Annotation(span) | Ast::Import(span) | Ast::Using(span) => Some(span),
            Ast::Eof => None,
        }),
{
}

/// Recording a body in a scope, of whatever kind, adds what the body declares behind what the scope
/// declares, and what it opens behind what the scope holds.
pub proof fn bodies_are_recorded_behind(scope: ScopeView, nodes: Seq<Ast>)
    ensures
        with_body(scope, nodes) == (ScopeView {
            kind: scope.kind,
            name: scope.name,
            span: scope.span,
            decls: scope.decls + body_decls(nodes),
            children: scope.children + body_scopes(nodes),
        }),
{
}

/// Whether `node` stands in a body, at any depth of modules, classes and documents.
pub open spec fn stands_in(nodes: Seq<Ast>, node: Ast) -> bool
    decreases nodes,
{
    exists|i: int|
        0 <= i < nodes.len() && (#[trigger] nodes[i] == node || match nodes[i] {
            Ast::Module(decl) => stands_in(decl.body@, node),
            Ast::Class(decl) => stands_in(decl.body@, node),
            Ast::Document(inner, _) => stands_in(inner@, node),
            _ => false,
        })
}

/// Whether `scope` is one of `scopes` or below one of them.
pub open spec fn among_or_below(scopes: Seq<ScopeView>, scope: ScopeView) -> bool {
    exists|i: int| 0 <= i < scopes.len() && at_or_below(#[trigger] scopes[i], scope)
}

/// Every function in a source, however deep in modules and classes it stands, has a scope in the
/// tree, with its parameters and its locals.
pub proof fn every_function_has_a_scope(nodes: Vec<Ast>, span: Span, decl: FunctionDecl)
    requires
        stands_in(nodes@, Ast::Function(decl)),
    ensures
        exists|scope: ScopeView|
            #[trigger] is_scope_of_function(scope, decl) && at_or_below(
                document_scope(Ast::Document(nodes, span)),
                scope,
            ),
{
    let scope = lemma_function_below(nodes@, decl);
    let document = document_scope(Ast::Document(nodes, span));
    documents_hold_their_nodes(nodes, span);
    let i = choose|i: int|
        0 <= i < body_scopes(nodes@).len() && at_or_below(
            #[trigger] body_scopes(nodes@)[i],
            scope,
        );
    assert(at_or_below(document.children[i], scope));
}

proof fn lemma_function_below(nodes: Seq<Ast>, decl: FunctionDecl) -> (scope: ScopeView)
    requires
        stands_in(nodes, Ast::Function(decl)),
    ensures
        is_scope_of_function(scope, decl),
        among_or_below(body_scopes(nodes), scope),
    decreases nodes,
{
    let node = Ast::Function(decl);
    let i = choose|i: int|
        0 <= i < nodes.len() && (#[trigger] nodes[i] == node || match nodes[i] {
            Ast::Module(decl) => stands_in(decl.body@, node),
            Ast::Class(decl) => stands_in(decl.body@, node),
            Ast::Document(inner, _) => stands_in(inner@, node),
            _ => false,
        });
    lemma_one_node(nodes[i]);
    if nodes[i] == node {
        functions_hold_their_locals(decl);
        let scope = body_scopes(seq![node])[0];
        assert(at_or_below(scope, scope));
        lemma_opened_in_body(nodes, i, 0, scope);
        scope
    } else {
        match nodes[i] {
            Ast::Module(outer) => {
                let scope = lemma_function_below(outer.body@, decl);
                modules_hold_their_bodies(outer);
                lemma_below_container(body_scopes(seq![nodes[i]])[0], scope);
                lemma_opened_in_body(nodes, i, 0, scope);
                scope
            },
            Ast::Class(outer) => {
                let scope = lemma_function_below(outer.body@, decl);
                classes_hold_their_bodies(outer);
                lemma_below_container(body_scopes(seq![nodes[i]])[0], scope);
                lemma_opened_in_body(nodes, i, 0, scope);
                scope
            },
            Ast::Document(inner, span) => {
                let scope = lemma_function_below(inner@, decl);
                documents_hold_their_nodes(inner, span);
                assert(node_scopes(nodes[i]) == body_scopes(inner@));
                let k = choose|k: int|
                    0 <= k < body_scopes(inner@).len() && at_or_below(
                        #[trigger] body_scopes(inner@)[k],
                        scope,
                    );
                lemma_opened_in_body(nodes, i, k, scope);
                scope
            },
            _ => arbitrary(),
        }
    }
}

proof fn lemma_below_container(outer: ScopeView, scope: ScopeView)
    requires
        among_or_below(outer.children, scope),
    ensures
        at_or_below(outer, scope),
{
    let i = choose|i: int|
        0 <= i < outer.children.len() && at_or_below(#[trigger] outer.children[i], scope);
    assert(at_or_below(outer.children[i], scope));
}

/// A scope that a node opens is among those that its body opens.
proof fn lemma_opened_in_body(nodes: Seq<Ast>, i: int, k: int, scope: ScopeView)
    requires
        0 <= i < nodes.len(),
        0 <= k < node_scopes(nodes[i]).len(),
        at_or_below(node_scopes(nodes[i])[k], scope),
    ensures
        among_or_below(body_scopes(nodes), scope),
{
    let before = nodes.take(i);
    let after = nodes.skip(i + 1);
    assert(nodes =~= before + seq![nodes[i]] + after);
    bodies_declare_in_order(before + seq![nodes[i]], after);
    bodies_declare_in_order(before, seq![nodes[i]]);
    lemma_one_node(nodes[i]);
    let at = body_scopes(before).len() + k;
    assert(body_scopes(nodes)[at as int] == node_scopes(nodes[i])[k]);
    assert(at_or_below(body_scopes(nodes)[at as int], scope));
}

} // verus!
