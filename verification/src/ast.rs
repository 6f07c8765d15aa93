//! The syntax tree of a Monkey C source, down to what decides where a name is declared.
//!
//! Expressions, types and modifiers are left out: nothing here asks about them.
use vstd::prelude::*;
use vstd::utf8::*;

verus! {

/// A range of byte offsets into a source.
#[derive(Debug, Clone, Copy, PartialEq, Eq, Structural)]
pub struct Span {
    pub start: usize,
    pub end: usize,
}

/// A piece of syntax and where it stands.
#[derive(Debug)]
pub struct Spanned<T> {
    pub node: T,
    pub span: Span,
}

/// A node at the top level of a file or in the body of a module or class.
#[derive(Debug)]
pub enum Ast {
    Document(Vec<Ast>, Span),
    Module(ModuleDecl),
    Class(ClassDecl),
    Function(FunctionDecl),
    Const(ConstDecl),
    Variable(VarDecl),
    Typedef(TypedefDecl),
    Enum(EnumDecl),
    Annotation(Span),
    Import(Span),
    Using(Span),
    Eof,
}

#[derive(Debug)]
pub struct ModuleDecl {
    pub name: Spanned<String>,
    pub span: Span,
    pub body: Vec<Ast>,
}

#[derive(Debug)]
pub struct ClassDecl {
    pub name: Spanned<String>,
    pub span: Span,
    pub body: Vec<Ast>,
}

#[derive(Debug)]
pub struct FunctionDecl {
    pub name: Spanned<String>,
    pub span: Span,
    pub parameters: Vec<Parameter>,
    pub body: Option<BlockStmt>,
}

#[derive(Debug)]
pub struct Parameter {
    pub name: Spanned<String>,
}

/// One name that a `var` or `const` declaration introduces.
#[derive(Debug)]
pub struct Binding {
    pub name: Spanned<String>,
}

#[derive(Debug)]
pub struct ConstDecl {
    pub bindings: Vec<Binding>,
    pub span: Span,
}

#[derive(Debug)]
pub struct VarDecl {
    pub bindings: Vec<Binding>,
    pub span: Span,
}

#[derive(Debug)]
pub struct TypedefDecl {
    pub name: Spanned<String>,
    pub span: Span,
}

/// An enum, which may be anonymous.
#[derive(Debug)]
pub struct EnumDecl {
    pub name: Option<Spanned<String>>,
    pub variants: Vec<EnumVariant>,
    pub span: Span,
}

/// One variant of an enum. Its span starts at its name and may run on past it, over a value.
#[derive(Debug)]
pub struct EnumVariant {
    name: String,
    span: Span,
}

/// What an [`EnumVariant`] holds.
pub struct EnumVariantView {
    pub name: Seq<char>,
    pub span: Span,
}

impl View for EnumVariant {
    type V = EnumVariantView;

    closed spec fn view(&self) -> EnumVariantView {
        EnumVariantView { name: self.name@, span: self.span }
    }
}

impl EnumVariant {
    /// The name ends at an offset.
    #[verifier::type_invariant]
    spec fn name_fits(self) -> bool {
        self.span.start + encode_utf8(self.name@).len() <= usize::MAX
    }

    pub fn new(name: String, span: Span) -> (variant: EnumVariant)
        requires
            span.start + encode_utf8(name@).len() <= usize::MAX,
        ensures
            variant@ == (EnumVariantView { name: name@, span }),
    {
        EnumVariant { name, span }
    }

    pub fn name(&self) -> (name: &String)
        ensures
            name@ == self@.name,
    {
        &self.name
    }

    /// Where the variant's name stands: from the start of the variant, for as many bytes as the
    /// name has.
    pub fn name_span(&self) -> (span: Span)
        ensures
            span.start == self@.span.start,
            span.end == self@.span.start + encode_utf8(self@.name).len(),
    {
        proof {
            use_type_invariant(self);
        }
        Span { start: self.span.start, end: self.span.start + self.name.as_str().as_bytes().len() }
    }
}

#[derive(Debug)]
pub struct BlockStmt {
    pub stmts: Vec<Stmt>,
}

#[derive(Debug)]
pub enum Stmt {
    Var(VarDecl),
    Block(BlockStmt),
    If(IfStmt),
    While(WhileStmt),
    DoWhile(DoWhileStmt),
    For(ForStmt),
    Switch(SwitchStmt),
    Try(TryStmt),
    Break,
    Continue,
    Return,
    Throw,
    Expr,
}

#[derive(Debug)]
pub struct IfStmt {
    pub then_branch: BlockStmt,
    pub else_branch: Option<ElseBranch>,
}

#[derive(Debug)]
pub enum ElseBranch {
    Block(BlockStmt),
    If(Box<IfStmt>),
}

#[derive(Debug)]
pub struct WhileStmt {
    pub body: BlockStmt,
}

#[derive(Debug)]
pub struct DoWhileStmt {
    pub body: BlockStmt,
}

#[derive(Debug)]
pub struct ForStmt {
    pub header: ForHeader,
    pub body: BlockStmt,
}

#[derive(Debug)]
pub struct ForHeader {
    pub init: Option<ForInit>,
}

#[derive(Debug)]
pub enum ForInit {
    Var(VarDecl),
    Expr,
}

#[derive(Debug)]
pub struct SwitchStmt {
    pub cases: Vec<SwitchCase>,
}

#[derive(Debug)]
pub struct SwitchCase {
    pub stmts: Vec<Stmt>,
}

#[derive(Debug)]
pub struct TryStmt {
    pub body: BlockStmt,
    pub catches: Vec<CatchClause>,
    pub finally: Option<BlockStmt>,
}

#[derive(Debug)]
pub struct CatchClause {
    pub body: BlockStmt,
}

/// Where a node stands. The end-of-file marker stands nowhere.
pub open spec fn span_of(ast: Ast) -> Option<Span> {
    match ast {
        Ast::Document(_, span) => Some(span),
        Ast::Module(decl) => Some(decl.span),
        Ast::Class(decl) => Some(decl.span),
        Ast::Function(decl) => Some(decl.span),
        Ast::Const(decl) => Some(decl.span),
        Ast::Variable(decl) => Some(decl.span),
        Ast::Typedef(decl) => Some(decl.span),
        Ast::Enum(decl) => Some(decl.span),
        Ast::Annotation(span) => Some(span),
        Ast::Import(span) => Some(span),
        Ast::Using(span) => Some(span),
        Ast::Eof => None,
    }
}

impl Ast {
    /// Where the node stands.
    pub fn span(&self) -> (span: Option<Span>)
        ensures
            span == span_of(*self),
    {
        match self {
            Ast::Document(_, span) => Some(*span),
            Ast::Module(decl) => Some(decl.span),
            Ast::Class(decl) => Some(decl.span),
            Ast::Function(decl) => Some(decl.span),
            Ast::Const(decl) => Some(decl.span),
            Ast::Variable(decl) => Some(decl.span),
            Ast::Typedef(decl) => Some(decl.span),
            Ast::Enum(decl) => Some(decl.span),
            Ast::Annotation(span) => Some(*span),
            Ast::Import(span) => Some(*span),
            Ast::Using(span) => Some(*span),
            Ast::Eof => None,
        }
    }
}

} // verus!
