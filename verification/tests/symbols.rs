use monkey_c_lsp::ast::{
    Ast, Binding, BlockStmt, CatchClause, ClassDecl, ConstDecl, DoWhileStmt, ElseBranch, EnumDecl,
    EnumVariant, ForHeader, ForInit, ForStmt, FunctionDecl, IfStmt, ModuleDecl, Parameter, Span,
    Spanned, Stmt, SwitchCase, SwitchStmt, TryStmt, TypedefDecl, VarDecl, WhileStmt,
};
use monkey_c_lsp::symbols::{Scope, ScopeKind, collect_body, contains, scope_tree};

/// Where the first `needle` stands in `source`.
fn at(source: &str, needle: &str) -> Span {
    let start = source.find(needle).expect("needle should be present");

    Span {
        start,
        end: start + needle.len(),
    }
}

fn name(source: &str, needle: &str) -> Spanned<String> {
    Spanned {
        node: needle.to_string(),
        span: at(source, needle),
    }
}

fn whole(source: &str) -> Span {
    Span {
        start: 0,
        end: source.len(),
    }
}

fn document(source: &str, nodes: Vec<Ast>) -> Ast {
    Ast::Document(nodes, whole(source))
}

fn module(source: &str, called: &str, body: Vec<Ast>) -> Ast {
    Ast::Module(ModuleDecl {
        name: name(source, called),
        span: Span {
            start: 0,
            end: source.trim_end().len(),
        },
        body,
    })
}

fn function(source: &str, called: &str, text: &str, parameters: &[&str], stmts: Vec<Stmt>) -> Ast {
    Ast::Function(FunctionDecl {
        name: name(source, called),
        span: at(source, text),
        parameters: parameters
            .iter()
            .map(|parameter| Parameter {
                name: name(source, parameter),
            })
            .collect(),
        body: Some(BlockStmt { stmts }),
    })
}

fn var_decl(source: &str, names: &[&str]) -> VarDecl {
    VarDecl {
        bindings: names
            .iter()
            .map(|called| Binding {
                name: name(source, called),
            })
            .collect(),
        span: whole(source),
    }
}

fn var(source: &str, called: &str) -> Stmt {
    Stmt::Var(var_decl(source, &[called]))
}

fn names(scope: &Scope) -> Vec<&str> {
    scope.decls.iter().map(|decl| decl.name.as_str()).collect()
}

#[test]
fn module_members_land_in_the_module_scope() {
    let source = "module Combo {\n const HAND_LEFT = 0;\n function beats() {}\n}\n";
    let tree = scope_tree(&document(
        source,
        vec![module(
            source,
            "Combo",
            vec![
                Ast::Const(ConstDecl {
                    bindings: vec![Binding {
                        name: name(source, "HAND_LEFT"),
                    }],
                    span: at(source, "const HAND_LEFT = 0;"),
                }),
                function(source, "beats", "function beats() {}", &[], vec![]),
            ],
        )],
    ));
    let combo = tree
        .container("Combo")
        .expect("module should be a container");

    assert_eq!(names(&tree), vec!["Combo"]);
    assert_eq!(names(combo), vec!["HAND_LEFT", "beats"]);
}

#[test]
fn parameters_and_locals_land_in_the_function_scope() {
    let source = "function cycleBeats(pattern) {\n var total = 0;\n}\n";
    let tree = scope_tree(&document(
        source,
        vec![function(
            source,
            "cycleBeats",
            source.trim_end(),
            &["pattern"],
            vec![var(source, "total")],
        )],
    ));
    let function = &tree.children[0];

    assert_eq!(function.kind, ScopeKind::Function);
    assert_eq!(names(function), vec!["pattern", "total"]);
}

#[test]
fn locals_in_nested_blocks_reach_the_function_scope() {
    let source = "function f() {\n for (var i = 0; i < 2; i++) {\n var inner = 1;\n }\n}\n";
    let tree = scope_tree(&document(
        source,
        vec![function(
            source,
            "f",
            source.trim_end(),
            &[],
            vec![Stmt::For(ForStmt {
                header: ForHeader {
                    init: Some(ForInit::Var(var_decl(source, &["i"]))),
                },
                body: BlockStmt {
                    stmts: vec![var(source, "inner")],
                },
            })],
        )],
    ));
    let function = &tree.children[0];

    assert_eq!(names(function), vec!["i", "inner"]);
}

#[test]
fn else_if_branches_are_walked() {
    let source =
        "function f() {\n if (a) {\n var x = 1;\n } else if (b) {\n var y = 2;\n }\n}\n";
    let tree = scope_tree(&document(
        source,
        vec![function(
            source,
            "f",
            source.trim_end(),
            &[],
            vec![Stmt::If(IfStmt {
                then_branch: BlockStmt {
                    stmts: vec![var(source, "x")],
                },
                else_branch: Some(ElseBranch::If(Box::new(IfStmt {
                    then_branch: BlockStmt {
                        stmts: vec![var(source, "y")],
                    },
                    else_branch: None,
                }))),
            })],
        )],
    ));
    let function = &tree.children[0];

    assert_eq!(names(function), vec!["x", "y"]);
}

#[test]
fn enum_variants_are_declared_beside_the_enum() {
    let source = "module Movement {\n enum { TYPE_MILL, TYPE_BULLWHIP }\n}\n";
    let tree = scope_tree(&document(
        source,
        vec![module(
            source,
            "Movement",
            vec![Ast::Enum(EnumDecl {
                name: None,
                variants: vec![
                    EnumVariant::new("TYPE_MILL".to_string(), at(source, "TYPE_MILL")),
                    EnumVariant::new("TYPE_BULLWHIP".to_string(), at(source, "TYPE_BULLWHIP")),
                ],
                span: at(source, "enum { TYPE_MILL, TYPE_BULLWHIP }"),
            })],
        )],
    ));
    let movement = tree
        .container("Movement")
        .expect("module should be a container");

    assert_eq!(names(movement), vec!["TYPE_MILL", "TYPE_BULLWHIP"]);
}

#[test]
fn a_declaration_points_at_its_name() {
    let source = "module Combo {\n function beats() {}\n}\n";
    let tree = scope_tree(&document(
        source,
        vec![module(
            source,
            "Combo",
            vec![function(source, "beats", "function beats() {}", &[], vec![])],
        )],
    ));
    let combo = tree
        .container("Combo")
        .expect("module should be a container");
    let beats = combo.decl("beats").expect("function should be declared");

    assert_eq!(&source[beats.name_span.start..beats.name_span.end], "beats");
}

#[test]
fn the_scope_chain_reaches_the_innermost_function() {
    let source = "module Combo {\n function beats() {\n var total = 0;\n }\n}\n";
    let tree = scope_tree(&document(
        source,
        vec![module(
            source,
            "Combo",
            vec![function(
                source,
                "beats",
                "function beats() {\n var total = 0;\n }",
                &[],
                vec![var(source, "total")],
            )],
        )],
    ));
    let offset = source.find("total").expect("local should be present");

    let kinds: Vec<_> = tree.chain_at(offset).iter().map(|s| s.kind).collect();
    assert_eq!(
        kinds,
        vec![ScopeKind::Document, ScopeKind::Module, ScopeKind::Function]
    );
}

#[test]
fn a_variant_points_at_its_name_and_not_at_its_value() {
    let source = "enum Hand { LEFT = 1 }";
    let tree = scope_tree(&document(
        source,
        vec![Ast::Enum(EnumDecl {
            name: Some(name(source, "Hand")),
            variants: vec![EnumVariant::new("LEFT".to_string(), at(source, "LEFT = 1"))],
            span: whole(source),
        })],
    ));

    assert_eq!(names(&tree), vec!["Hand", "LEFT"]);
    assert_eq!(tree.decls[1].name_span, at(source, "LEFT"));
    assert!(tree.children.is_empty());
}

#[test]
fn every_kind_of_statement_is_walked() {
    let source = "a b c d e f g h i j k";
    let block = |called: &str| BlockStmt {
        stmts: vec![var(source, called)],
    };
    let stmts = vec![
        Stmt::Block(block("a")),
        Stmt::If(IfStmt {
            then_branch: block("b"),
            else_branch: Some(ElseBranch::Block(block("c"))),
        }),
        Stmt::While(WhileStmt { body: block("d") }),
        Stmt::DoWhile(DoWhileStmt { body: block("e") }),
        Stmt::For(ForStmt {
            header: ForHeader {
                init: Some(ForInit::Expr),
            },
            body: block("f"),
        }),
        Stmt::Switch(SwitchStmt {
            cases: vec![
                SwitchCase {
                    stmts: vec![var(source, "g"), Stmt::Break],
                },
                SwitchCase {
                    stmts: vec![var(source, "h")],
                },
            ],
        }),
        Stmt::Try(TryStmt {
            body: block("i"),
            catches: vec![CatchClause { body: block("j") }],
            finally: Some(block("k")),
        }),
        Stmt::Continue,
        Stmt::Throw,
        Stmt::Expr,
        Stmt::Return,
    ];
    let tree = scope_tree(&document(source, vec![function(source, "a", source, &[], stmts)]));

    assert_eq!(
        names(&tree.children[0]),
        vec!["a", "b", "c", "d", "e", "f", "g", "h", "i", "j", "k"]
    );
}

#[test]
fn every_kind_of_node_is_walked() {
    let source = "A B c d E";
    let tree = scope_tree(&document(
        source,
        vec![
            Ast::Import(whole(source)),
            Ast::Class(ClassDecl {
                name: name(source, "A"),
                span: whole(source),
                body: vec![Ast::Using(whole(source)), Ast::Annotation(whole(source))],
            }),
            Ast::Typedef(TypedefDecl {
                name: name(source, "B"),
                span: whole(source),
            }),
            Ast::Variable(var_decl(source, &["c", "d"])),
            document(source, vec![module(source, "E", vec![])]),
            Ast::Eof,
        ],
    ));

    assert_eq!(names(&tree), vec!["A", "B", "c", "d", "E"]);
    let kinds: Vec<_> = tree.children.iter().map(|child| child.kind).collect();
    assert_eq!(kinds, vec![ScopeKind::Class, ScopeKind::Module]);
}

#[test]
fn a_tree_without_a_document_is_read_as_one() {
    let source = "module Combo {}";
    let tree = scope_tree(&module(source, "Combo", vec![]));

    assert_eq!(tree.kind, ScopeKind::Document);
    assert_eq!(tree.name, None);
    assert_eq!(tree.span, whole(source));
    assert_eq!(names(&tree), vec!["Combo"]);
    assert_eq!(tree, scope_tree(&document(source, vec![module(source, "Combo", vec![])])));

    let empty = scope_tree(&Ast::Eof);
    assert_eq!(empty.span, Span { start: 0, end: 0 });
    assert!(empty.decls.is_empty());
}

#[test]
fn a_function_without_a_body_declares_its_parameters() {
    let source = "function f(x);";
    let tree = scope_tree(&document(
        source,
        vec![Ast::Function(FunctionDecl {
            name: name(source, "f"),
            span: whole(source),
            parameters: vec![Parameter {
                name: name(source, "x"),
            }],
            body: None,
        })],
    ));

    assert_eq!(names(&tree.children[0]), vec!["x"]);
}

#[test]
fn containers_are_found_outermost_first() {
    let source = "Combo";
    let tree = scope_tree(&document(
        source,
        vec![
            module(source, "Combo", vec![module(source, "Combo", vec![])]),
            function(source, "Combo", "Combo", &[], vec![]),
        ],
    ));
    let mut found = Vec::new();
    tree.containers_named("Combo", &mut found);

    assert_eq!(found.len(), 2);
    assert_eq!(found[0].children.len(), 1);
    assert_eq!(found[1].children.len(), 0);
    assert!(tree.container("Com").is_none());
    assert!(tree.decl("combo").is_none());
}

#[test]
fn a_span_covers_its_end() {
    let span = Span { start: 2, end: 4 };

    assert!(!contains(span, 1));
    assert!(contains(span, 2));
    assert!(contains(span, 4));
    assert!(!contains(span, 5));
}

#[test]
fn a_block_declares_what_its_statements_declare() {
    let source = "a b c";
    let flat = scope_tree(&function(
        source,
        "a",
        source,
        &[],
        vec![var(source, "a"), var(source, "b"), var(source, "c")],
    ));
    let braced = scope_tree(&function(
        source,
        "a",
        source,
        &[],
        vec![
            var(source, "a"),
            Stmt::Block(BlockStmt {
                stmts: vec![var(source, "b")],
            }),
            var(source, "c"),
        ],
    ));

    assert_eq!(flat, braced);
}

#[test]
fn scopes_are_named_and_functions_hold_none() {
    let source = "Outer Inner f";
    let tree = scope_tree(&document(
        source,
        vec![module(
            source,
            "Outer",
            vec![module(
                source,
                "Inner",
                vec![function(source, "f", source, &["f"], vec![])],
            )],
        )],
    ));
    let mut scope = &tree;
    for called in ["Outer", "Inner", "f"] {
        assert_eq!(names(scope), vec![called]);
        scope = &scope.children[0];
        assert_eq!(scope.name.as_deref(), Some(called));
    }
    assert_eq!(scope.kind, ScopeKind::Function);
    assert!(scope.children.is_empty());
}

#[test]
fn a_document_in_a_body_stands_for_its_nodes() {
    let source = "A B C";
    let nodes = || vec![module(source, "A", vec![]), module(source, "B", vec![])];
    let mut flat = nodes();
    flat.push(module(source, "C", vec![]));
    let nested = vec![document(source, nodes()), module(source, "C", vec![])];

    let tree = scope_tree(&document(source, flat));
    assert_eq!(names(&tree), vec!["A", "B", "C"]);
    assert_eq!(tree, scope_tree(&document(source, nested)));
}

#[test]
fn recording_a_body_only_adds() {
    let source = "A B C";
    let one = vec![module(source, "A", vec![])];
    let more = vec![module(source, "B", vec![]), module(source, "C", vec![])];
    let mut scope = scope_tree(&document(source, one));
    collect_body(&more, &mut scope);
    collect_body(&vec![], &mut scope);

    let all = vec![
        module(source, "A", vec![]),
        module(source, "B", vec![]),
        module(source, "C", vec![]),
    ];
    assert_eq!(scope, scope_tree(&document(source, all)));
}
