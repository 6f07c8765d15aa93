use monkey_c_lsp::ast::{
    Ast, Binding, BlockStmt, ClassDecl, ConstDecl, FunctionDecl, ModuleDecl, Parameter, Span,
    Spanned, Stmt, VarDecl,
};
use monkey_c_lsp::definition::{Location, Syntax, definition, qualified, reference_at};
use monkey_c_lsp::path::{FilePath, PathStyle};
use monkey_c_lsp::token::{Token, TokenKind, TokenStream};
use monkey_c_lsp::uri::{Uri, to_path};
use monkey_c_lsp::workspace::Workspace;

const COMBO: &str = "\
module Combo {
    const HAND_LEFT = 0;

    function beats() as Array<Number> {
        return [1, 2];
    }

    function cycleBeats(pattern as Array<Number>) as Number {
        var total = 0;
        total += pattern[0];

        return total;
    }
}
";

const TEST: &str = "\
import Toybox.Test;

function testCombo(logger as Test.Logger) as Boolean {
    var beats = Combo.beats();
    Test.assertEqualMessage(Combo.cycleBeats(beats), 10, \"spans ten\");

    return true;
}
";

const BROKEN: &str = "function f() { var x = Combo.beats(; }\n";

const NESTED: &str = "\
module Outer {
    class Combo {
        function rest() {}
    }
}
module Combo {
    function beats() {}
}
";

/// What a lexer reads at the start of `rest`, and how many bytes of it.
fn lex(rest: &str) -> (TokenKind, usize) {
    let first = match rest.chars().next() {
        Some(first) => first,
        None => return (TokenKind::Eof, 0),
    };
    if first.is_ascii_alphabetic() || first == '_' {
        let length = rest
            .find(|c: char| !c.is_ascii_alphanumeric() && c != '_')
            .unwrap_or(rest.len());
        let word = &rest[..length];
        let keyword = matches!(
            word,
            "module" | "class" | "function" | "const" | "var" | "return" | "import" | "as" | "true"
        );
        let kind = if keyword {
            TokenKind::Other
        } else {
            TokenKind::Identifier(word.to_string())
        };
        (kind, length)
    } else if first == '"' {
        let length = rest[1..].find('"').map_or(rest.len(), |end| end + 2);
        (TokenKind::Other, length)
    } else if first == '.' {
        (TokenKind::Dot, 1)
    } else {
        (TokenKind::Other, first.len_utf8())
    }
}

fn tokens(text: &str) -> Vec<Token> {
    let mut stream = TokenStream::new();
    let mut at = 0;
    loop {
        let start = at + (text[at..].len() - text[at..].trim_start().len());
        let (kind, length) = lex(&text[start..]);
        at = start + length;
        if !stream.accept(Token {
            start,
            kind,
            end: at,
        }) {
            break;
        }
    }

    stream.into_tokens()
}

fn at(source: &str, needle: &str) -> Span {
    let start = source.find(needle).expect("needle should be present");

    Span {
        start,
        end: start + needle.len(),
    }
}

/// The name `called` where it first follows `ahead`.
fn name(source: &str, ahead: &str, called: &str) -> Spanned<String> {
    let start = at(source, &format!("{ahead}{called}")).start + ahead.len();

    Spanned {
        node: called.to_string(),
        span: Span {
            start,
            end: start + called.len(),
        },
    }
}

fn between(source: &str, first: &str, last: &str) -> Span {
    let start = at(source, first).start;
    let length = source[start..].find(last).expect("needle should be present") + last.len();

    Span {
        start,
        end: start + length,
    }
}

fn whole(source: &str) -> Span {
    Span {
        start: 0,
        end: source.len(),
    }
}

fn var(source: &str, called: &str) -> Stmt {
    Stmt::Var(VarDecl {
        bindings: vec![Binding {
            name: name(source, "var ", called),
        }],
        span: at(source, &format!("var {called}")),
    })
}

fn function(source: &str, called: &str, span: Span, parameters: &[&str], stmts: Vec<Stmt>) -> Ast {
    Ast::Function(FunctionDecl {
        name: name(source, "function ", called),
        span,
        parameters: parameters
            .iter()
            .map(|parameter| Parameter {
                name: name(source, "(", parameter),
            })
            .collect(),
        body: Some(BlockStmt { stmts }),
    })
}

fn combo() -> Ast {
    let body = vec![
        Ast::Const(ConstDecl {
            bindings: vec![Binding {
                name: name(COMBO, "const ", "HAND_LEFT"),
            }],
            span: at(COMBO, "const HAND_LEFT = 0;"),
        }),
        function(
            COMBO,
            "beats",
            between(COMBO, "function beats", "\n    }"),
            &[],
            vec![Stmt::Return],
        ),
        function(
            COMBO,
            "cycleBeats",
            between(COMBO, "function cycleBeats", "\n    }"),
            &["pattern"],
            vec![var(COMBO, "total"), Stmt::Expr, Stmt::Return],
        ),
    ];
    let module = Ast::Module(ModuleDecl {
        name: name(COMBO, "module ", "Combo"),
        span: Span {
            start: 0,
            end: COMBO.trim_end().len(),
        },
        body,
    });

    Ast::Document(vec![module], whole(COMBO))
}

fn test() -> Ast {
    Ast::Document(
        vec![
            Ast::Import(at(TEST, "import Toybox.Test;")),
            function(
                TEST,
                "testCombo",
                between(TEST, "function testCombo", "\n}"),
                &["logger"],
                vec![var(TEST, "beats"), Stmt::Expr, Stmt::Return],
            ),
        ],
        whole(TEST),
    )
}

fn nested() -> Ast {
    let inner = Ast::Class(ClassDecl {
        name: name(NESTED, "class ", "Combo"),
        span: between(NESTED, "class Combo", "\n    }"),
        body: vec![function(
            NESTED,
            "rest",
            at(NESTED, "function rest() {}"),
            &[],
            vec![],
        )],
    });

    Ast::Document(
        vec![
            Ast::Module(ModuleDecl {
                name: name(NESTED, "module ", "Outer"),
                span: between(NESTED, "module Outer", "\n}"),
                body: vec![inner],
            }),
            Ast::Module(ModuleDecl {
                name: name(NESTED, "module ", "Combo"),
                span: between(NESTED, "module Combo", "\n}"),
                body: vec![function(
                    NESTED,
                    "beats",
                    at(NESTED, "function beats() {}"),
                    &[],
                    vec![],
                )],
            }),
        ],
        whole(NESTED),
    )
}

fn path(text: &str) -> FilePath {
    FilePath::new(text, PathStyle::Unix)
}

fn workspace() -> Workspace {
    let mut workspace = Workspace::default();
    workspace.set(path("/src/Combo.mc"), COMBO.to_string());
    workspace.set(path("/src/ComboTest.mc"), TEST.to_string());

    workspace
}

/// What a lexer and a parser make of every source, in the order the workspace lists them in.
fn syntax(workspace: &Workspace) -> Vec<Syntax> {
    workspace
        .sources()
        .iter()
        .map(|(_, text)| Syntax {
            tokens: tokens(text),
            ast: match *text {
                COMBO => Some(combo()),
                TEST => Some(test()),
                NESTED => Some(nested()),
                _ => None,
            },
        })
        .collect()
}

/// An answer as the file and the text that it points at.
fn pointed_at(workspace: &Workspace, location: &Location) -> String {
    let path = to_path(&location.uri, PathStyle::Unix).expect("answer should be a file");
    let text = workspace
        .text(&path)
        .expect("answer should be a known source");
    assert_eq!(text, location.text);
    let file = path.file_name().expect("answer should have a name");

    format!(
        "{}:{}",
        String::from_utf8_lossy(&file),
        &text[location.span.start..location.span.end]
    )
}

fn answers(workspace: &Workspace, file: &str, offset: usize) -> Vec<String> {
    definition(workspace, &syntax(workspace), &path(file), offset)
        .iter()
        .map(|location| pointed_at(workspace, location))
        .collect()
}

/// Resolve the caret sitting on `needle` within `source`, returning the text each answer points at,
/// so that assertions read as "it jumped to this name".
fn goto(file: &str, source: &str, needle: &str) -> Vec<String> {
    let offset = source.find(needle).expect("needle should be present");

    answers(&workspace(), file, offset)
}

#[test]
fn a_parameter_resolves_to_itself() {
    assert_eq!(
        goto("/src/Combo.mc", COMBO, "pattern["),
        vec!["Combo.mc:pattern"]
    );
}

#[test]
fn a_local_shadows_everything_outside_the_function() {
    assert_eq!(
        goto("/src/Combo.mc", COMBO, "total +="),
        vec!["Combo.mc:total"]
    );
}

#[test]
fn a_module_member_resolves_across_files() {
    assert_eq!(
        goto("/src/ComboTest.mc", TEST, "beats()"),
        vec!["Combo.mc:beats"]
    );
}

#[test]
fn a_qualifier_resolves_to_its_module() {
    assert_eq!(
        goto("/src/ComboTest.mc", TEST, "Combo.beats"),
        vec!["Combo.mc:Combo"]
    );
}

#[test]
fn a_local_wins_over_a_same_named_module_member() {
    // `beats` is both a local in the test and a function in Combo; the local is nearer.
    assert_eq!(
        goto("/src/ComboTest.mc", TEST, "beats), 10"),
        vec!["ComboTest.mc:beats"]
    );
}

#[test]
fn sdk_symbols_resolve_to_nothing() {
    assert!(goto("/src/ComboTest.mc", TEST, "assertEqualMessage").is_empty());
    assert!(goto("/src/ComboTest.mc", TEST, "Test.Logger").is_empty());
}

#[test]
fn a_caret_in_a_string_resolves_to_nothing() {
    assert!(goto("/src/ComboTest.mc", TEST, "spans ten").is_empty());
}

#[test]
fn a_broken_file_still_resolves_across_files() {
    let mut workspace = workspace();
    workspace.set(path("/src/Broken.mc"), BROKEN.to_string());

    let offset = BROKEN.find("beats(").expect("needle should be present");
    let syntax = syntax(&workspace);
    let found = definition(&workspace, &syntax, &path("/src/Broken.mc"), offset);

    assert_eq!(
        found.len(),
        1,
        "the unparseable file should not block the jump"
    );
    assert_eq!(pointed_at(&workspace, &found[0]), "Combo.mc:beats");
}

#[test]
fn answers_are_exact() {
    let workspace = workspace();
    let offset = TEST.find("beats()").expect("needle should be present");
    let syntax = syntax(&workspace);
    let found = definition(&workspace, &syntax, &path("/src/ComboTest.mc"), offset);
    let start = COMBO.find("beats").expect("needle should be present");

    assert_eq!(
        found,
        vec![Location {
            uri: Uri("file:///src/Combo.mc".to_string()),
            text: COMBO,
            span: Span {
                start,
                end: start + 5,
            },
        }]
    );
}

#[test]
fn a_bare_name_in_a_broken_file_is_sought_at_the_top_level() {
    let mut workspace = workspace();
    workspace.set(path("/src/Broken.mc"), BROKEN.to_string());

    let on_module = BROKEN.find("Combo").expect("needle should be present");
    assert_eq!(
        answers(&workspace, "/src/Broken.mc", on_module),
        vec!["Combo.mc:Combo"]
    );
    // What the broken file itself declares is not known.
    let on_local = BROKEN.find("x =").expect("needle should be present");
    assert!(answers(&workspace, "/src/Broken.mc", on_local).is_empty());
}

#[test]
fn modules_of_one_name_all_answer_in_path_order() {
    let mut workspace = workspace();
    workspace.set(path("/src/ANested.mc"), NESTED.to_string());

    let on_member = TEST.find("beats()").expect("needle should be present");
    assert_eq!(
        answers(&workspace, "/src/ComboTest.mc", on_member),
        vec!["ANested.mc:beats", "Combo.mc:beats"]
    );
    let on_module = TEST.find("Combo.beats").expect("needle should be present");
    assert_eq!(
        answers(&workspace, "/src/ComboTest.mc", on_module),
        vec!["ANested.mc:Combo", "Combo.mc:Combo"]
    );
}

#[test]
fn qualifiers_lead_down_from_a_container_at_any_depth() {
    for (question, expected) in [
        ("Outer.Combo.rest", vec!["ANested.mc:rest"]),
        ("Combo.rest", vec!["ANested.mc:rest"]),
        ("Combo.beats", vec!["ANested.mc:beats"]),
        ("Outer.rest", vec![]),
        ("Outer.Missing.rest", vec![]),
        ("rest", vec![]),
    ] {
        let mut workspace = workspace_with(question);
        workspace.set(path("/src/ANested.mc"), NESTED.to_string());
        assert_eq!(
            answers(&workspace, "/src/Question.mc", question.len()),
            expected,
            "{question}"
        );
    }
}

fn workspace_with(question: &str) -> Workspace {
    let mut workspace = Workspace::default();
    workspace.set(path("/src/Question.mc"), question.to_string());

    workspace
}

#[test]
fn a_file_that_is_not_known_has_no_answers() {
    assert!(answers(&workspace(), "/src/Other.mc", 8).is_empty());
}

#[test]
fn an_answer_in_the_file_itself_spells_its_path_as_asked() {
    let workspace = workspace();
    let offset = COMBO.find("total +=").expect("needle should be present");
    let syntax = syntax(&workspace);
    let found = definition(&workspace, &syntax, &path("/src//Combo.mc"), offset);

    assert_eq!(found[0].uri, Uri("file:///src//Combo.mc".to_string()));
}

fn segments(text: &str, offset: usize) -> Option<Vec<String>> {
    reference_at(&tokens(text), offset)
}

#[test]
fn the_name_under_the_caret_ends_where_the_caret_is() {
    let text = "a.b.c (d)";

    assert_eq!(segments(text, 0), Some(vec!["a".to_string()]));
    assert_eq!(segments(text, 1), Some(vec!["a".to_string()]));
    assert_eq!(
        segments(text, 2),
        Some(vec!["a".to_string(), "b".to_string()])
    );
    assert_eq!(
        segments(text, 5),
        Some(vec!["a".to_string(), "b".to_string(), "c".to_string()])
    );
    assert_eq!(segments(text, 6), None);
    assert_eq!(segments(text, 7), Some(vec!["d".to_string()]));
    assert_eq!(segments(text, 100), None);
}

#[test]
fn a_dot_after_something_else_does_not_qualify() {
    assert_eq!(segments("().b", 3), Some(vec!["b".to_string()]));
    assert_eq!(segments(".b", 1), Some(vec!["b".to_string()]));
    assert_eq!(segments("", 0), None);
}

#[test]
fn a_stream_stops_at_the_end_and_where_it_stalls() {
    let mut stream = TokenStream::new();
    assert!(stream.accept(Token {
        start: 0,
        kind: TokenKind::Dot,
        end: 1,
    }));
    assert!(!stream.accept(Token {
        start: 1,
        kind: TokenKind::Other,
        end: 1,
    }));
    assert!(!stream.accept(Token {
        start: 1,
        kind: TokenKind::Eof,
        end: 2,
    }));

    let kept = stream.into_tokens();
    assert_eq!(kept.len(), 1);
    assert_eq!(kept[0].end, 1);
    assert!(matches!(kept[0].kind, TokenKind::Dot));
}

#[test]
fn a_broken_file_changes_no_answer_of_another() {
    let mut with_broken = workspace();
    with_broken.set(path("/src/Broken.mc"), BROKEN.to_string());

    for offset in 0..=TEST.len() {
        assert_eq!(
            answers(&with_broken, "/src/ComboTest.mc", offset),
            answers(&workspace(), "/src/ComboTest.mc", offset)
        );
    }
}

#[test]
fn a_broken_source_changes_no_qualified_search() {
    let qualifiers = vec!["Combo".to_string()];
    let found = |workspace: &Workspace| {
        qualified(&workspace.sources(), &syntax(workspace), &qualifiers, "beats")
            .iter()
            .map(|location| pointed_at(workspace, location))
            .collect::<Vec<_>>()
    };
    let mut with_broken = workspace();
    with_broken.set(path("/src/Broken.mc"), BROKEN.to_string());

    assert_eq!(found(&workspace()), vec!["Combo.mc:beats"]);
    assert_eq!(found(&with_broken), found(&workspace()));
}
