//! A scope tree over a parsed file, used to answer "where was this name declared?".
//!
//! The tree follows Monkey C's nesting: a document holds modules and classes, and those hold
//! functions. Each declaration is recorded with the span of its *name* rather than of the whole
//! declaration, because the name is what an editor selects when it jumps.
//!
//! A function body is one flat scope. Monkey C scopes a `var` to its enclosing block, but the two
//! readings differ only when a name is declared twice in sibling blocks, and jumping to the wrong
//! one of two same-named locals is a small error beside what block scopes would cost.
use crate::ast::{
    Ast, Binding, BlockStmt, CatchClause, ElseBranch, EnumVariant, EnumVariantView, ForInit,
    FunctionDecl, IfStmt, Parameter, Span, Spanned, Stmt, SwitchCase, span_of,
};
use crate::seqs::{first_index, first_match, lemma_is_first_index};
use crate::text::same_text;
use vstd::prelude::*;
use vstd::utf8::*;

verus! {

/// What introduced a scope. Modules and classes are named containers that a qualified path
/// (`Combo.beats`) can go through; functions are not.
#[derive(Debug, PartialEq, Eq, Clone, Copy, Structural)]
pub enum ScopeKind {
    Document,
    Module,
    Class,
    Function,
}

/// A declared name and where it stands.
#[derive(Debug, PartialEq)]
pub struct Decl {
    pub name: String,
    pub name_span: Span,
}

#[derive(Debug, PartialEq)]
pub struct Scope {
    pub kind: ScopeKind,
    pub name: Option<String>,
    pub span: Span,
    pub decls: Vec<Decl>,
    pub children: Vec<Scope>,
}

/// What a [`Decl`] holds.
#[verifier::ext_equal]
pub struct DeclView {
    pub name: Seq<char>,
    pub name_span: Span,
}

/// What a [`Scope`] holds.
#[verifier::ext_equal]
pub struct ScopeView {
    pub kind: ScopeKind,
    pub name: Option<Seq<char>>,
    pub span: Span,
    pub decls: Seq<DeclView>,
    pub children: Seq<ScopeView>,
}

impl View for Decl {
    type V = DeclView;

    open spec fn view(&self) -> DeclView {
        DeclView { name: self.name@, name_span: self.name_span }
    }
}

impl View for Scope {
    type V = ScopeView;

    open spec fn view(&self) -> ScopeView {
        scope_view(*self)
    }
}

/// The text of an optional name.
pub open spec fn name_view(name: Option<String>) -> Option<Seq<char>> {
    match name {
        Some(name) => Some(name@),
        None => None,
    }
}

pub open spec fn decl_views(decls: Seq<Decl>) -> Seq<DeclView> {
    decls.map_values(|decl: Decl| decl@)
}

pub open spec fn scope_view(scope: Scope) -> ScopeView
    decreases scope,
{
    ScopeView {
        kind: scope.kind,
        name: name_view(scope.name),
        span: scope.span,
        decls: decl_views(scope.decls@),
        children: scope_views(scope.children@),
    }
}

pub open spec fn scope_views(scopes: Seq<Scope>) -> Seq<ScopeView>
    decreases scopes,
{
    if scopes.len() == 0 {
        seq![]
    } else {
        scope_views(scopes.drop_last()).push(scope_view(scopes.last()))
    }
}

pub open spec fn scope_ref_views(scopes: Seq<&Scope>) -> Seq<ScopeView> {
    scopes.map_values(|scope: &Scope| scope@)
}

/// `scope_views` is the view of each scope, in order.
pub proof fn lemma_scope_views(scopes: Seq<Scope>)
    ensures
        scope_views(scopes).len() == scopes.len(),
        forall|i: int| 0 <= i < scopes.len() ==> #[trigger] scope_views(scopes)[i] == scopes[i]@,
    decreases scopes.len(),
{
    if scopes.len() != 0 {
        lemma_scope_views(scopes.drop_last());
    }
}

proof fn lemma_decl_pushed(decls: Seq<Decl>, decl: Decl)
    ensures
        decl_views(decls.push(decl)) == decl_views(decls).push(decl@),
{
    assert(decl_views(decls.push(decl)) =~= decl_views(decls).push(decl@));
}

proof fn lemma_scope_pushed(scopes: Seq<Scope>, scope: Scope)
    ensures
        scope_views(scopes.push(scope)) == scope_views(scopes).push(scope@),
{
    assert(scopes.push(scope).drop_last() =~= scopes);
}

// What a source declares.

pub open spec fn named_decl(name: Spanned<String>) -> DeclView {
    DeclView { name: name.node@, name_span: name.span }
}

pub open spec fn binding_decls(bindings: Seq<Binding>) -> Seq<DeclView> {
    bindings.map_values(|binding: Binding| named_decl(binding.name))
}

pub open spec fn parameter_decls(parameters: Seq<Parameter>) -> Seq<DeclView> {
    parameters.map_values(|parameter: Parameter| named_decl(parameter.name))
}

/// A variant's name starts where the variant does.
pub open spec fn variant_decl(variant: EnumVariantView) -> DeclView {
    DeclView {
        name: variant.name,
        name_span: Span {
            start: variant.span.start,
            end: (variant.span.start + encode_utf8(variant.name).len()) as usize,
        },
    }
}

pub open spec fn variant_decls(variants: Seq<EnumVariant>) -> Seq<DeclView> {
    variants.map_values(|variant: EnumVariant| variant_decl(variant@))
}

/// The locals that statements declare, in source order, however deep the blocks that hold them.
pub open spec fn stmts_decls(stmts: Seq<Stmt>) -> Seq<DeclView>
    decreases stmts,
{
    if stmts.len() == 0 {
        seq![]
    } else {
        stmts_decls(stmts.drop_last()) + stmt_decls(stmts.last())
    }
}

/// The locals that one statement declares.
pub open spec fn stmt_decls(stmt: Stmt) -> Seq<DeclView>
    decreases stmt,
{
    match stmt {
        Stmt::Var(decl) => binding_decls(decl.bindings@),
        Stmt::Block(block) => stmts_decls(block.stmts@),
        Stmt::If(stmt) => if_decls(stmt),
        Stmt::While(stmt) => stmts_decls(stmt.body.stmts@),
        Stmt::DoWhile(stmt) => stmts_decls(stmt.body.stmts@),
        Stmt::For(stmt) => for_init_decls(stmt.header.init) + stmts_decls(stmt.body.stmts@),
        Stmt::Switch(stmt) => cases_decls(stmt.cases@),
        Stmt::Try(stmt) => stmts_decls(stmt.body.stmts@) + catches_decls(stmt.catches@)
            + match stmt.finally {
            Some(block) => stmts_decls(block.stmts@),
            None => seq![],
        },
        Stmt::Break | Stmt::Continue | Stmt::Return | Stmt::Throw | Stmt::Expr => seq![],
    }
}

/// The locals of a branch and of every `else` behind it.
pub open spec fn if_decls(stmt: IfStmt) -> Seq<DeclView>
    decreases stmt,
{
    stmts_decls(stmt.then_branch.stmts@) + match stmt.else_branch {
        Some(ElseBranch::Block(block)) => stmts_decls(block.stmts@),
        Some(ElseBranch::If(nested)) => if_decls(*nested),
        None => seq![],
    }
}

pub open spec fn for_init_decls(init: Option<ForInit>) -> Seq<DeclView> {
    match init {
        Some(ForInit::Var(decl)) => binding_decls(decl.bindings@),
        _ => seq![],
    }
}

pub open spec fn cases_decls(cases: Seq<SwitchCase>) -> Seq<DeclView>
    decreases cases,
{
    if cases.len() == 0 {
        seq![]
    } else {
        cases_decls(cases.drop_last()) + stmts_decls(cases.last().stmts@)
    }
}

pub open spec fn catches_decls(catches: Seq<CatchClause>) -> Seq<DeclView>
    decreases catches,
{
    if catches.len() == 0 {
        seq![]
    } else {
        catches_decls(catches.drop_last()) + stmts_decls(catches.last().body.stmts@)
    }
}

/// What a function declares inside itself: its parameters, and the locals of its body if it has one.
pub open spec fn function_decls(decl: FunctionDecl) -> Seq<DeclView> {
    parameter_decls(decl.parameters@) + match decl.body {
        Some(block) => stmts_decls(block.stmts@),
        None => seq![],
    }
}

/// The names that a body declares in the scope it belongs to, in source order.
pub open spec fn body_decls(nodes: Seq<Ast>) -> Seq<DeclView>
    decreases nodes,
{
    if nodes.len() == 0 {
        seq![]
    } else {
        body_decls(nodes.drop_last()) + node_decls(nodes.last())
    }
}

/// The names that one node declares in the scope it stands in.
///
/// An enum's variants are declared beside the enum: they are reachable unqualified where the enum
/// is anonymous, or through the enclosing module (`Movement.TYPE_MILL`), and this resolves both
/// spellings.
pub open spec fn node_decls(node: Ast) -> Seq<DeclView>
    decreases node,
{
    match node {
        Ast::Document(nodes, _) => body_decls(nodes@),
        Ast::Module(decl) => seq![named_decl(decl.name)],
        Ast::Class(decl) => seq![named_decl(decl.name)],
        Ast::Function(decl) => seq![named_decl(decl.name)],
        Ast::Const(decl) => binding_decls(decl.bindings@),
        Ast::Variable(decl) => binding_decls(decl.bindings@),
        Ast::Typedef(decl) => seq![named_decl(decl.name)],
        Ast::Enum(decl) => (match decl.name {
            Some(name) => seq![named_decl(name)],
            None => seq![],
        }) + variant_decls(decl.variants@),
        Ast::Annotation(_) | Ast::Import(_) | Ast::Using(_) | Ast::Eof => seq![],
    }
}

/// The scopes that a body opens directly below the scope it belongs to, in source order.
pub open spec fn body_scopes(nodes: Seq<Ast>) -> Seq<ScopeView>
    decreases nodes,
{
    if nodes.len() == 0 {
        seq![]
    } else {
        body_scopes(nodes.drop_last()) + node_scopes(nodes.last())
    }
}

/// The scopes that one node opens directly below the scope it stands in.
pub open spec fn node_scopes(node: Ast) -> Seq<ScopeView>
    decreases node,
{
    match node {
        Ast::Document(nodes, _) => body_scopes(nodes@),
        Ast::Module(decl) => seq![
            ScopeView {
                kind: ScopeKind::Module,
                name: Some(decl.name.node@),
                span: decl.span,
                decls: body_decls(decl.body@),
                children: body_scopes(decl.body@),
            },
        ],
        Ast::Class(decl) => seq![
            ScopeView {
                kind: ScopeKind::Class,
                name: Some(decl.name.node@),
                span: decl.span,
                decls: body_decls(decl.body@),
                children: body_scopes(decl.body@),
            },
        ],
        Ast::Function(decl) => seq![
            ScopeView {
                kind: ScopeKind::Function,
                name: Some(decl.name.node@),
                span: decl.span,
                decls: function_decls(decl),
                children: seq![],
            },
        ],
        _ => seq![],
    }
}

/// The scope tree of a source: one document scope around everything. A tree whose root is not a
/// document is read as a document of that one node, spanning what the node spans, or nothing.
pub open spec fn document_scope(ast: Ast) -> ScopeView {
    ScopeView {
        kind: ScopeKind::Document,
        name: None,
        span: match span_of(ast) {
            Some(span) => span,
            None => Span { start: 0, end: 0 },
        },
        decls: node_decls(ast),
        children: node_scopes(ast),
    }
}

// Looking names up.

/// Whether `span` covers `offset`, its end among them.
pub open spec fn covers(span: Span, offset: usize) -> bool {
    span.start <= offset <= span.end
}

/// Whether a qualified path can go through `scope` under `name`.
pub open spec fn is_container_named(scope: ScopeView, name: Seq<char>) -> bool {
    (scope.kind == ScopeKind::Module || scope.kind == ScopeKind::Class) && scope.name == Some(name)
}

/// The first declaration of `name` directly in `scope`.
pub open spec fn decl_in(scope: ScopeView, name: Seq<char>) -> Option<DeclView> {
    first_match(scope.decls, |decl: DeclView| decl.name == name)
}

/// The first container called `name` directly below `scope`.
pub open spec fn container_in(scope: ScopeView, name: Seq<char>) -> Option<ScopeView> {
    first_match(scope.children, |child: ScopeView| is_container_named(child, name))
}

/// Every container called `name` at or below `scope`, each before those inside it.
pub open spec fn containers_at(scope: ScopeView, name: Seq<char>) -> Seq<ScopeView>
    decreases scope,
{
    (if is_container_named(scope, name) {
        seq![scope]
    } else {
        seq![]
    }) + containers_among(scope.children, name)
}

pub open spec fn containers_among(scopes: Seq<ScopeView>, name: Seq<char>) -> Seq<ScopeView>
    decreases scopes,
{
    if scopes.len() == 0 {
        seq![]
    } else {
        containers_among(scopes.drop_last(), name) + containers_at(scopes.last(), name)
    }
}

/// The scopes around `offset`, outermost first: `scope` itself, and then, as long as a child covers
/// the offset, the first child that does.
pub open spec fn chain(scope: ScopeView, offset: usize) -> Seq<ScopeView>
    decreases scope,
{
    let i = first_index(scope.children, |child: ScopeView| covers(child.span, offset));
    if i < scope.children.len() {
        seq![scope] + chain(scope.children[i as int], offset)
    } else {
        seq![scope]
    }
}

impl Scope {
    /// Whether this is a module or class called `name`.
    fn is_container_called(&self, name: &str) -> (called: bool)
        ensures
            called == is_container_named(self@, name@),
    {
        self.is_container() && match &self.name {
            Some(own) => same_text(own.as_str(), name),
            None => false,
        }
    }

    fn is_container(&self) -> (container: bool)
        ensures
            container == (self@.kind == ScopeKind::Module || self@.kind == ScopeKind::Class),
    {
        match self.kind {
            ScopeKind::Module | ScopeKind::Class => true,
            ScopeKind::Document | ScopeKind::Function => false,
        }
    }

    /// The first child that covers `offset`.
    fn child_at(&self, offset: usize) -> (found: Option<&Scope>)
        ensures
            ({
                let i = first_index(self@.children, |child: ScopeView| covers(child.span, offset));
                match found {
                    Some(child) => i < self@.children.len() && child@ == self@.children[i as int]
                        && decreases_to!(self => child),
                    None => i == self@.children.len(),
                }
            }),
    {
        let ghost wanted = |child: ScopeView| covers(child.span, offset);
        proof {
            lemma_scope_views(self.children@);
        }
        let mut i: usize = 0;
        while i < self.children.len()
            invariant
                i <= self.children.len() == self@.children.len(),
                wanted == (|child: ScopeView| covers(child.span, offset)),
                forall|j: int|
                    0 <= j < self.children.len() ==> #[trigger] self@.children[j]
                        == self.children[j]@,
                forall|j: int| 0 <= j < i ==> !wanted(#[trigger] self@.children[j]),
            decreases self.children.len() - i,
        {
            assert(self@.children[i as int] == self.children[i as int]@);
            if contains(self.children[i].span, offset) {
                proof {
                    lemma_is_first_index(self@.children, wanted, i as int);
                }
                return Some(&self.children[i]);
            }
            i += 1;
        }
        proof {
            lemma_is_first_index(self@.children, wanted, i as int);
        }
        None
    }
}

/// Whether `span` covers `offset`. The end counts, so that a caret resting immediately after the
/// last character of a name is still on it.
pub fn contains(span: Span, offset: usize) -> (inside: bool)
    ensures
        inside == covers(span, offset),
{
    span.start <= offset && offset <= span.end
}

impl Scope {
    /// The declaration of `name` directly in this scope; the first one, where there are several.
    pub fn decl(&self, name: &str) -> (found: Option<&Decl>)
        ensures
            (match found {
                Some(decl) => Some(decl@),
                None => None,
            }) == decl_in(self@, name@),
    {
        let ghost wanted = |decl: DeclView| decl.name == name@;
        let mut i: usize = 0;
        while i < self.decls.len()
            invariant
                i <= self.decls.len(),
                wanted == (|decl: DeclView| decl.name == name@),
                forall|j: int| 0 <= j < i ==> !wanted(#[trigger] self@.decls[j]),
            decreases self.decls.len() - i,
        {
            assert(self@.decls[i as int] == self.decls[i as int]@);
            if same_text(self.decls[i].name.as_str(), name) {
                proof {
                    lemma_is_first_index(self@.decls, wanted, i as int);
                }
                return Some(&self.decls[i]);
            }
            i += 1;
        }
        proof {
            lemma_is_first_index(self@.decls, wanted, i as int);
        }
        None
    }

    /// The named child container (module or class) called `name`.
    pub fn container(&self, name: &str) -> (found: Option<&Scope>)
        ensures
            (match found {
                Some(scope) => Some(scope@),
                None => None,
            }) == container_in(self@, name@),
    {
        let ghost wanted = |child: ScopeView| is_container_named(child, name@);
        proof {
            lemma_scope_views(self.children@);
        }
        let mut i: usize = 0;
        while i < self.children.len()
            invariant
                i <= self.children.len() == self@.children.len(),
                wanted == (|child: ScopeView| is_container_named(child, name@)),
                forall|j: int|
                    0 <= j < self.children.len() ==> #[trigger] self@.children[j]
                        == self.children[j]@,
                forall|j: int| 0 <= j < i ==> !wanted(#[trigger] self@.children[j]),
            decreases self.children.len() - i,
        {
            assert(self@.children[i as int] == self.children[i as int]@);
            if self.children[i].is_container_called(name) {
                proof {
                    lemma_is_first_index(self@.children, wanted, i as int);
                }
                return Some(&self.children[i]);
            }
            i += 1;
        }
        proof {
            lemma_is_first_index(self@.children, wanted, i as int);
        }
        None
    }

    /// Collect every named container at or below this scope into `found`, outermost first.
    pub fn containers_named<'a>(&'a self, name: &str, found: &mut Vec<&'a Scope>)
        ensures
            scope_ref_views(final(found)@) == scope_ref_views(old(found)@) + containers_at(
                self@,
                name@,
            ),
        decreases self,
    {
        if self.is_container_called(name) {
            found.push(self);
        }
        let ghost here = scope_ref_views(found@);
        proof {
            lemma_scope_views(self.children@);
            assert(self@.children.take(0) =~= seq![]);
        }
        let mut i: usize = 0;
        while i < self.children.len()
            invariant
                i <= self.children.len() == self@.children.len(),
                forall|j: int|
                    0 <= j < self.children.len() ==> #[trigger] self@.children[j]
                        == self.children[j]@,
                scope_ref_views(found@) == here + containers_among(
                    self@.children.take(i as int),
                    name@,
                ),
            decreases self.children.len() - i,
        {
            self.children[i].containers_named(name, found);
            proof {
                let seen = self@.children.take(i + 1);
                assert(seen.drop_last() =~= self@.children.take(i as int));
                assert(seen.last() == self.children[i as int]@);
            }
            i += 1;
        }
        assert(self@.children.take(i as int) =~= self@.children);
    }

    /// The chain of scopes containing `offset`, outermost first. Always starts with this scope.
    pub fn chain_at(&self, offset: usize) -> (scopes: Vec<&Scope>)
        ensures
            scope_ref_views(scopes@) == chain(self@, offset),
    {
        let mut scopes: Vec<&Scope> = Vec::new();
        let mut scope = self;
        loop
            invariant_except_break
                scope_ref_views(scopes@) + chain(scope@, offset) == chain(self@, offset),
            ensures
                scope_ref_views(scopes@) == chain(self@, offset),
            decreases scope,
        {
            let ghost before = scope_ref_views(scopes@);
            scopes.push(scope);
            assert(scope_ref_views(scopes@) =~= before.push(scope@));
            match scope.child_at(offset) {
                Some(child) => {
                    scope = child;
                },
                None => {
                    break;
                },
            }
        }
        scopes
    }
}

/// `scope` with more declarations and more scopes below it, behind those it has.
pub open spec fn extended(
    scope: ScopeView,
    decls: Seq<DeclView>,
    children: Seq<ScopeView>,
) -> ScopeView {
    ScopeView {
        kind: scope.kind,
        name: scope.name,
        span: scope.span,
        decls: scope.decls + decls,
        children: scope.children + children,
    }
}

/// `scope` once the nodes of a body are recorded in it.
pub open spec fn with_body(scope: ScopeView, nodes: Seq<Ast>) -> ScopeView {
    extended(scope, body_decls(nodes), body_scopes(nodes))
}

/// Build the scope tree for a parsed document.
pub fn scope_tree(ast: &Ast) -> (scope: Scope)
    ensures
        scope@ == document_scope(*ast),
{
    let span = match ast.span() {
        Some(span) => span,
        None => Span { start: 0, end: 0 },
    };
    let mut document = Scope {
        kind: ScopeKind::Document,
        name: None,
        span,
        decls: Vec::new(),
        children: Vec::new(),
    };
    collect_node(ast, &mut document);
    document
}

/// Record every declaration in `nodes` into `scope`, with the scopes they open.
pub fn collect_body(nodes: &Vec<Ast>, scope: &mut Scope)
    ensures
        final(scope)@ == with_body(old(scope)@, nodes@),
    decreases nodes@,
{
    assert(nodes@.take(0) =~= seq![]);
    let ghost before = scope@;
    let mut i: usize = 0;
    while i < nodes.len()
        invariant
            i <= nodes.len(),
            scope@ == extended(
                before,
                body_decls(nodes@.take(i as int)),
                body_scopes(nodes@.take(i as int)),
            ),
        decreases nodes.len() - i,
    {
        collect_node(&nodes[i], scope);
        proof {
            let seen = nodes@.take(i + 1);
            assert(seen.drop_last() =~= nodes@.take(i as int));
            assert(seen.last() == nodes@[i as int]);
            assert(scope@.decls =~= before.decls + body_decls(seen));
            assert(scope@.children =~= before.children + body_scopes(seen));
        }
        i += 1;
    }
    assert(nodes@.take(i as int) =~= nodes@);
}

/// Record what one node declares into `scope`, with the scope it opens, if it opens one.
fn collect_node(node: &Ast, scope: &mut Scope)
    ensures
        final(scope)@ == extended(old(scope)@, node_decls(*node), node_scopes(*node)),
    decreases node,
{
    let ghost decls = scope.decls@;
    let ghost children = scope.children@;
    match node {
        Ast::Document(nodes, _) => {
            collect_body(nodes, scope);
        },
        Ast::Module(decl) => {
            scope.decls.push(named(&decl.name));
            let mut child = container(ScopeKind::Module, &decl.name, decl.span);
            collect_body(&decl.body, &mut child);
            scope.children.push(child);
            proof {
                lemma_decl_pushed(decls, scope.decls@.last());
                lemma_scope_pushed(children, child);
            }
        },
        Ast::Class(decl) => {
            scope.decls.push(named(&decl.name));
            let mut child = container(ScopeKind::Class, &decl.name, decl.span);
            collect_body(&decl.body, &mut child);
            scope.children.push(child);
            proof {
                lemma_decl_pushed(decls, scope.decls@.last());
                lemma_scope_pushed(children, child);
            }
        },
        Ast::Function(decl) => {
            scope.decls.push(named(&decl.name));
            let mut child = container(ScopeKind::Function, &decl.name, decl.span);
            collect_parameters(&decl.parameters, &mut child.decls);
            if let Some(body) = &decl.body {
                collect_block(body, &mut child.decls);
            }
            scope.children.push(child);
            proof {
                lemma_decl_pushed(decls, scope.decls@.last());
                lemma_scope_pushed(children, child);
            }
        },
        Ast::Const(decl) => {
            bindings(&decl.bindings, &mut scope.decls);
        },
        Ast::Variable(decl) => {
            bindings(&decl.bindings, &mut scope.decls);
        },
        Ast::Typedef(decl) => {
            scope.decls.push(named(&decl.name));
            proof {
                lemma_decl_pushed(decls, scope.decls@.last());
            }
        },
        Ast::Enum(decl) => {
            if let Some(name) = &decl.name {
                scope.decls.push(named(name));
                proof {
                    lemma_decl_pushed(decls, scope.decls@.last());
                }
            }
            collect_variants(&decl.variants, &mut scope.decls);
        },
        Ast::Annotation(_) | Ast::Import(_) | Ast::Using(_) | Ast::Eof => {},
    }
    assert(scope@.decls =~= decl_views(decls) + node_decls(*node));
    assert(scope@.children =~= scope_views(children) + node_scopes(*node));
}

fn collect_parameters(parameters: &Vec<Parameter>, decls: &mut Vec<Decl>)
    ensures
        decl_views(final(decls)@) == decl_views(old(decls)@) + parameter_decls(parameters@),
{
    let ghost before = decl_views(decls@);
    let mut i: usize = 0;
    while i < parameters.len()
        invariant
            i <= parameters.len(),
            decl_views(decls@) == before + parameter_decls(parameters@).take(i as int),
        decreases parameters.len() - i,
    {
        let ghost earlier = decls@;
        decls.push(named(&parameters[i].name));
        proof {
            lemma_decl_pushed(earlier, decls@.last());
            assert(parameter_decls(parameters@).take(i + 1) =~= parameter_decls(parameters@).take(
                i as int,
            ).push(named_decl(parameters@[i as int].name)));
        }
        i += 1;
    }
}

fn collect_variants(variants: &Vec<EnumVariant>, decls: &mut Vec<Decl>)
    ensures
        decl_views(final(decls)@) == decl_views(old(decls)@) + variant_decls(variants@),
{
    let ghost before = decl_views(decls@);
    let mut i: usize = 0;
    while i < variants.len()
        invariant
            i <= variants.len(),
            decl_views(decls@) == before + variant_decls(variants@).take(i as int),
        decreases variants.len() - i,
    {
        let name = variants[i].name().clone();
        let name_span = variants[i].name_span();
        let ghost earlier = decls@;
        decls.push(Decl { name, name_span });
        proof {
            lemma_decl_pushed(earlier, decls@.last());
            assert(variant_decls(variants@).take(i + 1) =~= variant_decls(variants@).take(
                i as int,
            ).push(variant_decl(variants@[i as int]@)));
        }
        i += 1;
    }
}

/// Record the locals that a function body declares. Nested blocks feed the same scope; the module
/// comment says why.
fn collect_block(block: &BlockStmt, decls: &mut Vec<Decl>)
    ensures
        decl_views(final(decls)@) == decl_views(old(decls)@) + stmts_decls(block.stmts@),
    decreases block,
{
    collect_stmts(&block.stmts, decls);
}

fn collect_stmts(stmts: &Vec<Stmt>, decls: &mut Vec<Decl>)
    ensures
        decl_views(final(decls)@) == decl_views(old(decls)@) + stmts_decls(stmts@),
    decreases stmts@,
{
    assert(stmts@.take(0) =~= seq![]);
    let ghost before = decl_views(decls@);
    let mut i: usize = 0;
    while i < stmts.len()
        invariant
            i <= stmts.len(),
            decl_views(decls@) == before + stmts_decls(stmts@.take(i as int)),
        decreases stmts.len() - i,
    {
        collect_stmt(&stmts[i], decls);
        proof {
            assert(stmts@.take(i + 1).drop_last() =~= stmts@.take(i as int));
            assert(stmts@.take(i + 1).last() == stmts@[i as int]);
        }
        i += 1;
    }
    assert(stmts@.take(i as int) =~= stmts@);
}

fn collect_stmt(stmt: &Stmt, decls: &mut Vec<Decl>)
    ensures
        decl_views(final(decls)@) == decl_views(old(decls)@) + stmt_decls(*stmt),
    decreases stmt,
{
    match stmt {
        Stmt::Var(decl) => {
            bindings(&decl.bindings, decls);
        },
        Stmt::Block(block) => {
            collect_block(block, decls);
        },
        Stmt::If(stmt) => {
            collect_if(stmt, decls);
        },
        Stmt::While(stmt) => {
            collect_block(&stmt.body, decls);
        },
        Stmt::DoWhile(stmt) => {
            collect_block(&stmt.body, decls);
        },
        Stmt::For(stmt) => {
            if let Some(ForInit::Var(decl)) = &stmt.header.init {
                bindings(&decl.bindings, decls);
            }
            collect_block(&stmt.body, decls);
        },
        Stmt::Switch(stmt) => {
            collect_cases(&stmt.cases, decls);
        },
        Stmt::Try(stmt) => {
            collect_block(&stmt.body, decls);
            collect_catches(&stmt.catches, decls);
            if let Some(finally) = &stmt.finally {
                collect_block(finally, decls);
            }
        },
        Stmt::Break | Stmt::Continue | Stmt::Return | Stmt::Throw | Stmt::Expr => {},
    }
}

fn collect_cases(cases: &Vec<SwitchCase>, decls: &mut Vec<Decl>)
    ensures
        decl_views(final(decls)@) == decl_views(old(decls)@) + cases_decls(cases@),
    decreases cases@,
{
    assert(cases@.take(0) =~= seq![]);
    let ghost before = decl_views(decls@);
    let mut i: usize = 0;
    while i < cases.len()
        invariant
            i <= cases.len(),
            decl_views(decls@) == before + cases_decls(cases@.take(i as int)),
        decreases cases.len() - i,
    {
        collect_stmts(&cases[i].stmts, decls);
        proof {
            assert(cases@.take(i + 1).drop_last() =~= cases@.take(i as int));
            assert(cases@.take(i + 1).last() == cases@[i as int]);
        }
        i += 1;
    }
    assert(cases@.take(i as int) =~= cases@);
}

fn collect_catches(catches: &Vec<CatchClause>, decls: &mut Vec<Decl>)
    ensures
        decl_views(final(decls)@) == decl_views(old(decls)@) + catches_decls(catches@),
    decreases catches@,
{
    assert(catches@.take(0) =~= seq![]);
    let ghost before = decl_views(decls@);
    let mut i: usize = 0;
    while i < catches.len()
        invariant
            i <= catches.len(),
            decl_views(decls@) == before + catches_decls(catches@.take(i as int)),
        decreases catches.len() - i,
    {
        collect_block(&catches[i].body, decls);
        proof {
            assert(catches@.take(i + 1).drop_last() =~= catches@.take(i as int));
            assert(catches@.take(i + 1).last() == catches@[i as int]);
        }
        i += 1;
    }
    assert(catches@.take(i as int) =~= catches@);
}

fn collect_if(stmt: &IfStmt, decls: &mut Vec<Decl>)
    ensures
        decl_views(final(decls)@) == decl_views(old(decls)@) + if_decls(*stmt),
    decreases stmt,
{
    collect_block(&stmt.then_branch, decls);
    match &stmt.else_branch {
        Some(ElseBranch::Block(block)) => {
            collect_block(block, decls);
        },
        Some(ElseBranch::If(nested)) => {
            collect_if(nested, decls);
        },
        None => {},
    }
}

/// An empty scope of the given kind.
fn container(kind: ScopeKind, name: &Spanned<String>, span: Span) -> (scope: Scope)
    ensures
        scope@ == (ScopeView {
            kind,
            name: Some(name.node@),
            span,
            decls: seq![],
            children: seq![],
        }),
{
    Scope { kind, name: Some(name.node.clone()), span, decls: Vec::new(), children: Vec::new() }
}

fn named(name: &Spanned<String>) -> (decl: Decl)
    ensures
        decl@ == named_decl(*name),
{
    Decl { name: name.node.clone(), name_span: name.span }
}

/// Record the names that a `var` or `const` declaration introduces.
fn bindings(bindings: &Vec<Binding>, decls: &mut Vec<Decl>)
    ensures
        decl_views(final(decls)@) == decl_views(old(decls)@) + binding_decls(bindings@),
{
    let ghost before = decl_views(decls@);
    let mut i: usize = 0;
    while i < bindings.len()
        invariant
            i <= bindings.len(),
            decl_views(decls@) == before + binding_decls(bindings@).take(i as int),
        decreases bindings.len() - i,
    {
        let ghost earlier = decls@;
        decls.push(named(&bindings[i].name));
        proof {
            lemma_decl_pushed(earlier, decls@.last());
            assert(binding_decls(bindings@).take(i + 1) =~= binding_decls(bindings@).take(
                i as int,
            ).push(named_decl(bindings@[i as int].name)));
        }
        i += 1;
    }
}

// Laws.

/// A chain starts with the scope it is taken of, each scope in it is the first child of the one
/// before that covers the offset, and it goes on for as long as there is such a child.
pub proof fn chains_lead_inwards(scope: ScopeView, offset: usize)
    ensures
        chain(scope, offset).len() > 0,
        chain(scope, offset)[0] == scope,
        forall|i: int|
            0 <= i < chain(scope, offset).len() ==> first_match(
                (#[trigger] chain(scope, offset)[i]).children,
                |child: ScopeView| covers(child.span, offset),
            ) == if i + 1 < chain(scope, offset).len() {
                Some(chain(scope, offset)[i + 1])
            } else {
                None::<ScopeView>
            },
    decreases scope,
{
    let i = first_index(scope.children, |child: ScopeView| covers(child.span, offset));
    if i < scope.children.len() {
        let rest = chain(scope.children[i as int], offset);
        chains_lead_inwards(scope.children[i as int], offset);
        assert forall|i: int| 0 <= i < chain(scope, offset).len() implies first_match(
            (#[trigger] chain(scope, offset)[i]).children,
            |child: ScopeView| covers(child.span, offset),
        ) == if i + 1 < chain(scope, offset).len() {
            Some(chain(scope, offset)[i + 1])
        } else {
            None::<ScopeView>
        } by {
            if i > 0 {
                assert(chain(scope, offset)[i] == rest[i - 1]);
            }
        }
    }
}

/// Whether `inner` is `scope` or is below it.
pub open spec fn at_or_below(scope: ScopeView, inner: ScopeView) -> bool
    decreases scope,
{
    scope == inner || exists|i: int|
        0 <= i < scope.children.len() && at_or_below(#[trigger] scope.children[i], inner)
}

/// Every container of a name at or below a scope is found, and nothing else is.
pub proof fn all_containers_are_found(scope: ScopeView, name: Seq<char>, inner: ScopeView)
    ensures
        containers_at(scope, name).contains(inner) <==> is_container_named(inner, name)
            && at_or_below(scope, inner),
    decreases scope, 1nat,
{
    lemma_containers_among(scope.children, name, inner);
    let own = if is_container_named(scope, name) {
        seq![scope]
    } else {
        seq![]
    };
    let below = containers_among(scope.children, name);
    assert(own.contains(inner) <==> is_container_named(scope, name) && scope == inner) by {
        if is_container_named(scope, name) {
            assert(own[0] == scope);
        }
    }
    lemma_contains_concatenated(own, below, inner);
}

proof fn lemma_containers_among(scopes: Seq<ScopeView>, name: Seq<char>, inner: ScopeView)
    ensures
        containers_among(scopes, name).contains(inner) <==> is_container_named(inner, name)
            && exists|i: int| 0 <= i < scopes.len() && at_or_below(#[trigger] scopes[i], inner),
    decreases scopes, 0nat,
{
    if scopes.len() > 0 {
        let init = scopes.drop_last();
        lemma_containers_among(init, name, inner);
        all_containers_are_found(scopes.last(), name, inner);
        lemma_contains_concatenated(
            containers_among(init, name),
            containers_at(scopes.last(), name),
            inner,
        );
        if exists|i: int| 0 <= i < scopes.len() && at_or_below(#[trigger] scopes[i], inner) {
            let i = choose|i: int|
                0 <= i < scopes.len() && at_or_below(#[trigger] scopes[i], inner);
            if i < init.len() {
                assert(init[i] == scopes[i]);
            }
        }
        if exists|i: int| 0 <= i < init.len() && at_or_below(#[trigger] init[i], inner) {
            let i = choose|i: int| 0 <= i < init.len() && at_or_below(#[trigger] init[i], inner);
            assert(scopes[i] == init[i]);
        }
    }
}

proof fn lemma_contains_concatenated(a: Seq<ScopeView>, b: Seq<ScopeView>, scope: ScopeView)
    ensures
        (a + b).contains(scope) <==> a.contains(scope) || b.contains(scope),
{
    let whole = a + b;
    if a.contains(scope) {
        let i = choose|i: int| 0 <= i < a.len() && a[i] == scope;
        assert(whole[i] == scope);
    }
    if b.contains(scope) {
        let i = choose|i: int| 0 <= i < b.len() && b[i] == scope;
        assert(whole[a.len() + i] == scope);
    }
    if whole.contains(scope) {
        let i = choose|i: int| 0 <= i < whole.len() && whole[i] == scope;
        if i < a.len() {
            assert(a[i] == scope);
        } else {
            assert(b[i - a.len()] == scope);
        }
    }
}

/// Statements declare what they declare one by one, wherever a list of them is split.
pub proof fn statements_declare_in_order(a: Seq<Stmt>, b: Seq<Stmt>)
    ensures
        stmts_decls(a + b) == stmts_decls(a) + stmts_decls(b),
    decreases b.len(),
{
    if b.len() == 0 {
        assert(a + b =~= a);
    } else {
        statements_declare_in_order(a, b.drop_last());
        assert((a + b).drop_last() =~= a + b.drop_last());
        assert((a + b).last() == b.last());
    }
    assert(stmts_decls(a + b) =~= stmts_decls(a) + stmts_decls(b));
}

/// A function body is one flat scope: it declares the same with the braces of a block as without.
pub proof fn blocks_are_flat(before: Seq<Stmt>, block: BlockStmt, after: Seq<Stmt>)
    ensures
        stmts_decls(before + seq![Stmt::Block(block)] + after) == stmts_decls(
            before + block.stmts@ + after,
        ),
{
    let braced = seq![Stmt::Block(block)];
    statements_declare_in_order(before + braced, after);
    statements_declare_in_order(before, braced);
    statements_declare_in_order(before + block.stmts@, after);
    statements_declare_in_order(before, block.stmts@);
    assert(braced.drop_last() =~= seq![]);
    assert(braced.last() == Stmt::Block(block));
    assert(stmts_decls(braced) =~= stmts_decls(block.stmts@)) by {
        reveal_with_fuel(stmts_decls, 2);
        reveal_with_fuel(stmt_decls, 2);
    }
}

/// The nodes of a body declare what they declare, and open the scopes they open, one by one,
/// wherever a list of them is split.
pub proof fn bodies_declare_in_order(a: Seq<Ast>, b: Seq<Ast>)
    ensures
        body_decls(a + b) == body_decls(a) + body_decls(b),
        body_scopes(a + b) == body_scopes(a) + body_scopes(b),
    decreases b.len(),
{
    if b.len() == 0 {
        assert(a + b =~= a);
    } else {
        bodies_declare_in_order(a, b.drop_last());
        assert((a + b).drop_last() =~= a + b.drop_last());
        assert((a + b).last() == b.last());
    }
    assert(body_decls(a + b) =~= body_decls(a) + body_decls(b));
    assert(body_scopes(a + b) =~= body_scopes(a) + body_scopes(b));
}

/// Recording a body only adds to a scope: it stays what it is, under its name and over its span, and
/// what it has already comes first.
pub proof fn recording_only_adds(scope: ScopeView, nodes: Seq<Ast>)
    ensures
        with_body(scope, nodes).kind == scope.kind,
        with_body(scope, nodes).name == scope.name,
        with_body(scope, nodes).span == scope.span,
        scope.decls.is_prefix_of(with_body(scope, nodes).decls),
        scope.children.is_prefix_of(with_body(scope, nodes).children),
{
    assert(scope.decls =~= with_body(scope, nodes).decls.take(scope.decls.len() as int));
    assert(scope.children =~= with_body(scope, nodes).children.take(scope.children.len() as int));
}

/// A body is recorded node by node: one part after the other comes to the same as both at once, and
/// no nodes record nothing.
pub proof fn bodies_are_recorded_in_order(scope: ScopeView, a: Seq<Ast>, b: Seq<Ast>)
    ensures
        with_body(scope, a + b) == with_body(with_body(scope, a), b),
        with_body(scope, seq![]) == scope,
{
    bodies_declare_in_order(a, b);
    let both = with_body(with_body(scope, a), b);
    assert(with_body(scope, a + b).decls =~= both.decls);
    assert(with_body(scope, a + b).children =~= both.children);
    assert(with_body(scope, seq![]) =~= scope);
}

/// A document inside a body records what its nodes record in its place.
pub proof fn documents_are_flat(scope: ScopeView, nodes: Vec<Ast>, span: Span)
    ensures
        with_body(scope, seq![Ast::Document(nodes, span)]) == with_body(scope, nodes@),
{
    let document = Ast::Document(nodes, span);
    let body = seq![document];
    assert(body.drop_last() =~= seq![]);
    assert(body.last() == document);
    reveal_with_fuel(body_decls, 2);
    reveal_with_fuel(body_scopes, 2);
    assert(body_decls(body) =~= node_decls(document));
    assert(body_scopes(body) =~= node_scopes(document));
}

/// A tree whose root is not a document reads as a document of that one node.
pub proof fn a_lone_node_is_a_document(node: Ast, nodes: Vec<Ast>, span: Span)
    requires
        nodes@ == seq![node],
        span_of(node) == Some(span),
    ensures
        document_scope(node) == document_scope(Ast::Document(nodes, span)),
{
    assert(nodes@.drop_last() =~= seq![]);
    assert(nodes@.last() == node);
    reveal_with_fuel(body_decls, 2);
    reveal_with_fuel(body_scopes, 2);
    assert(body_decls(nodes@) =~= node_decls(node));
    assert(body_scopes(nodes@) =~= node_scopes(node));
    assert(document_scope(node) =~= document_scope(Ast::Document(nodes, span)));
}

/// The name of every scope that a body opens is declared in the scope that the body belongs to.
pub proof fn scopes_are_declared(nodes: Seq<Ast>, scope: ScopeView)
    requires
        body_scopes(nodes).contains(scope),
    ensures
        exists|i: int|
            0 <= i < body_decls(nodes).len() && scope.name == Some(
                (#[trigger] body_decls(nodes)[i]).name,
            ),
    decreases nodes,
{
    let init = nodes.drop_last();
    let last = nodes.last();
    lemma_contains_concatenated(body_scopes(init), node_scopes(last), scope);
    if body_scopes(init).contains(scope) {
        scopes_are_declared(init, scope);
        let i = choose|i: int|
            0 <= i < body_decls(init).len() && scope.name == Some(
                (#[trigger] body_decls(init)[i]).name,
            );
        assert(body_decls(nodes)[i] == body_decls(init)[i]);
    } else {
        let i = lemma_opened_scope_is_declared(last, scope);
        assert(body_decls(nodes)[body_decls(init).len() + i] == node_decls(last)[i]);
    }
}

proof fn lemma_opened_scope_is_declared(node: Ast, scope: ScopeView) -> (i: int)
    requires
        node_scopes(node).contains(scope),
    ensures
        0 <= i < node_decls(node).len(),
        scope.name == Some(node_decls(node)[i].name),
    decreases node,
{
    match node {
        Ast::Document(nodes, _) => {
            scopes_are_declared(nodes@, scope);
            choose|i: int|
                0 <= i < body_decls(nodes@).len() && scope.name == Some(
                    (#[trigger] body_decls(nodes@)[i]).name,
                )
        },
        _ => 0,
    }
}

/// Whether a scope and everything below it is a named module, class or function, and no function
/// has a scope below it.
pub open spec fn well_nested(scope: ScopeView) -> bool
    decreases scope,
{
    &&& scope.kind != ScopeKind::Document
    &&& scope.name is Some
    &&& scope.kind == ScopeKind::Function ==> scope.children.len() == 0
    &&& forall|i: int|
        0 <= i < scope.children.len() ==> well_nested(#[trigger] scope.children[i])
}

/// The tree follows Monkey C's nesting: one document around everything, modules and classes that
/// hold each other and functions, and functions that hold no further scope.
pub proof fn trees_are_well_nested(ast: Ast)
    ensures
        document_scope(ast).kind == ScopeKind::Document,
        document_scope(ast).name is None,
        forall|i: int|
            0 <= i < document_scope(ast).children.len() ==> well_nested(
                #[trigger] document_scope(ast).children[i],
            ),
{
    lemma_node_scopes_are_well_nested(ast);
}

proof fn lemma_node_scopes_are_well_nested(node: Ast)
    ensures
        forall|i: int|
            0 <= i < node_scopes(node).len() ==> well_nested(#[trigger] node_scopes(node)[i]),
    decreases node,
{
    match node {
        Ast::Document(nodes, _) => {
            lemma_body_scopes_are_well_nested(nodes@);
            assert(node_scopes(node) == body_scopes(nodes@));
        },
        Ast::Module(decl) => {
            lemma_body_scopes_are_well_nested(decl.body@);
            let scope = node_scopes(node)[0];
            assert forall|i: int| 0 <= i < scope.children.len() implies well_nested(
                #[trigger] scope.children[i],
            ) by {
                assert(scope.children[i] == body_scopes(decl.body@)[i]);
            }
            assert(well_nested(scope));
        },
        Ast::Class(decl) => {
            lemma_body_scopes_are_well_nested(decl.body@);
            let scope = node_scopes(node)[0];
            assert forall|i: int| 0 <= i < scope.children.len() implies well_nested(
                #[trigger] scope.children[i],
            ) by {
                assert(scope.children[i] == body_scopes(decl.body@)[i]);
            }
            assert(well_nested(scope));
        },
        Ast::Function(decl) => {
            assert(well_nested(node_scopes(node)[0]));
        },
        _ => {},
    }
}

proof fn lemma_body_scopes_are_well_nested(nodes: Seq<Ast>)
    ensures
        forall|i: int|
            0 <= i < body_scopes(nodes).len() ==> well_nested(#[trigger] body_scopes(nodes)[i]),
    decreases nodes,
{
    if nodes.len() > 0 {
        let init = body_scopes(nodes.drop_last());
        lemma_body_scopes_are_well_nested(nodes.drop_last());
        lemma_node_scopes_are_well_nested(nodes.last());
        assert forall|i: int| 0 <= i < body_scopes(nodes).len() implies well_nested(
            #[trigger] body_scopes(nodes)[i],
        ) by {
            if i < init.len() {
                assert(body_scopes(nodes)[i] == init[i]);
            } else {
                assert(body_scopes(nodes)[i] == node_scopes(nodes.last())[i - init.len()]);
            }
        }
    }
}

} // verus!
