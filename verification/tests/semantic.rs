use cpp_navigator::engine::outline::Mode;
use cpp_navigator::engine::semantic::{
    compile_arguments, entity_kind_to_model_kind, leading_comment_start, line_col_to_byte, EntityKind,
    SemanticEntity, SemanticScope, SemanticUnit,
};
use cpp_navigator::engine::{Engine, SemanticEngine};
use cpp_navigator::model::Kind;
use cpp_navigator::search::Candidate;
use cpp_navigator::sources::SourceFile;

fn candidate(path: &str) -> Vec<Candidate> {
    vec![Candidate {
        file_path: path.to_string(),
        line: 1,
        byte_offset: 0,
        snippet: String::new(),
    }]
}

fn entity(name: &str, definition: bool, start: (usize, usize), end: (usize, usize)) -> SemanticEntity {
    SemanticEntity {
        kind: EntityKind::FunctionDecl,
        name: Some(name.to_string()),
        parents: vec![
            SemanticScope { kind: EntityKind::ClassDecl, name: Some("C".to_string()) },
            SemanticScope { kind: EntityKind::Other, name: Some("skipped".to_string()) },
            SemanticScope { kind: EntityKind::Namespace, name: Some("ns".to_string()) },
            SemanticScope { kind: EntityKind::TranslationUnit, name: Some("a.cpp".to_string()) },
        ],
        is_definition: definition,
        file: Some("a.cpp".to_string()),
        start: Some(start),
        end: Some(end),
        comment: None,
        display_name: Some(format!("{name}()")),
        type_spelling: Some("int ()".to_string()),
    }
}

fn engine(body: &str, entities: Vec<SemanticEntity>) -> SemanticEngine {
    let mut e = SemanticEngine::new("build".to_string());
    e.units.push(SemanticUnit { file: "a.cpp".to_string(), entities });
    e.sources.push(SourceFile { path: "a.cpp".to_string(), bytes: body.as_bytes().to_vec() });
    e
}

#[test]
fn line_col_to_byte_basic() {
    let src = b"line1\nline2\nline3\n";
    assert_eq!(line_col_to_byte(src, 1, 1), Some(0));
    assert_eq!(line_col_to_byte(src, 1, 3), Some(2));
    assert_eq!(line_col_to_byte(src, 2, 1), Some(6));
    assert_eq!(line_col_to_byte(src, 3, 1), Some(12));
}

#[test]
fn line_col_to_byte_at_the_edges() {
    let src = b"ab\ncd";
    assert_eq!(line_col_to_byte(src, 0, 1), None);
    assert_eq!(line_col_to_byte(src, 3, 1), None);
    assert_eq!(line_col_to_byte(src, 1, 0), Some(0));
    // Past the end of the text counts as the end.
    assert_eq!(line_col_to_byte(src, 2, 9), Some(5));
    // The end of the text as a line of its own does not clamp.
    assert_eq!(line_col_to_byte(b"ab\n", 2, 3), Some(5));
}

#[test]
fn semantic_engine_no_compile_db_returns_empty() {
    let engine = SemanticEngine::new("dir".to_string());
    let files = vec![SourceFile {
        path: "dir/a.cpp".to_string(),
        bytes: b"int add(int a, int b) { return a + b; }\n".to_vec(),
    }];
    let results = engine.definitions("add", &candidate("dir/a.cpp"), &files);
    assert!(results.is_empty());
}

#[test]
fn definitions_of_a_parsed_unit_are_found() {
    let body = "int add(int a, int b) { return a + b; }\n";
    let e = engine(body, vec![entity("add", true, (1, 5), (1, 40))]);
    let results = e.definitions("add", &candidate("a.cpp"), &[]);
    assert_eq!(results.len(), 1);
    assert_eq!(results[0].symbol.name, "add");
    assert_eq!(results[0].symbol.kind, Kind::Function);
    assert_eq!(results[0].engine, "libclang");
    assert_eq!(results[0].confidence, 95);
    assert_eq!(results[0].content_bytes, body.as_bytes()[4..39].to_vec());
    assert_eq!(results[0].symbol.qualified_name.as_deref(), Some("ns::C::add"));
    // It is no declaration.
    assert!(e.declarations("add", &candidate("a.cpp"), &[]).is_empty());
}

#[test]
fn a_qualified_target_is_matched_by_components() {
    let body = "int add();\n";
    let e = engine(body, vec![entity("add", false, (1, 5), (1, 10))]);
    let c = candidate("a.cpp");
    assert_eq!(e.declarations("C::add", &c, &[]).len(), 1);
    assert_eq!(e.declarations("ns::C::add", &c, &[]).len(), 1);
    assert_eq!(e.declarations("D::add", &c, &[]).len(), 0);
    let found = e.declarations("add", &c, &[]);
    assert_eq!(found[0].symbol.signature.as_deref(), Some("add()"));
    assert_eq!(found[0].symbol.type_spelling.as_deref(), Some("int ()"));
}

#[test]
fn the_comment_above_is_part_of_the_content() {
    let body = "int x;\n/// Doc.\n/// More.\nint add() { return 1; }\n";
    let e = engine(body, vec![entity("add", true, (4, 5), (4, 24))]);
    let r = e.definitions("add", &candidate("a.cpp"), &[]);
    assert_eq!(r[0].source_ref.span.start_line, 2);
    assert_eq!(r[0].source_ref.span.start_byte, 7);
    assert!(r[0].content_bytes.starts_with(b"/// Doc."));
    assert_eq!(leading_comment_start(body.as_bytes(), 4), Some((7, 2)));
    assert_eq!(leading_comment_start(body.as_bytes(), 1), None);
    assert_eq!(leading_comment_start(body.as_bytes(), 9), None);
}

#[test]
fn entities_at_one_place_are_reported_once() {
    let body = "int add() { return 1; }\nint add(int) { return 2; }\n";
    let e = engine(
        body,
        vec![
            entity("add", true, (2, 5), (2, 27)),
            entity("add", true, (1, 5), (1, 24)),
            entity("add", true, (1, 5), (1, 24)),
            entity("add", true, (1, 9), (1, 5)),
        ],
    );
    let r = e.definitions("add", &candidate("a.cpp"), &[]);
    assert_eq!(r.len(), 2);
    assert!(r[0].source_ref.span.start_byte < r[1].source_ref.span.start_byte);
}

#[test]
fn compile_arguments_drop_output_and_source() {
    let args: Vec<String> = [
        "c++", "-c", "-Iinc", "-o", "a.o", "-oa.o", "./src/a.cpp", "src/a.cpp", "-emit-ast", "-DX=1",
        "-fsyntax-only",
    ]
    .iter()
    .map(|s| s.to_string())
    .collect();
    assert_eq!(
        compile_arguments(&args, "src/a.cpp"),
        vec!["-Iinc".to_string(), "./src/a.cpp".to_string(), "-DX=1".to_string()]
    );
    assert!(compile_arguments(&[], "a.cpp").is_empty());
}

#[test]
fn entity_kinds_map_to_model_kinds() {
    assert_eq!(entity_kind_to_model_kind(EntityKind::Constructor, Mode::Definition), Kind::Method);
    assert_eq!(entity_kind_to_model_kind(EntityKind::ClassTemplate, Mode::Definition), Kind::Template);
    assert_eq!(entity_kind_to_model_kind(EntityKind::MacroDefinition, Mode::Definition), Kind::Macro);
    assert_eq!(entity_kind_to_model_kind(EntityKind::Other, Mode::Definition), Kind::Variable);
    assert_eq!(entity_kind_to_model_kind(EntityKind::Other, Mode::Declaration), Kind::Function);
}

#[test]
fn scopes_are_left_to_the_syntax_tree() {
    let body = "int add() {\n    return 1;\n}\n";
    let files = vec![SourceFile { path: "a.cpp".to_string(), bytes: body.as_bytes().to_vec() }];
    let e = SemanticEngine::new("build".to_string());
    assert_eq!(e.enclosing_scope("a.cpp", 16, &files).unwrap().end_line, 3);
    assert!(e.enclosing_class_scope("a.cpp", 16, &files).is_none());
    assert_eq!(e.name(), "libclang");
    assert_eq!(e.filter_references("A::add", &candidate("a.cpp"), &files).len(), 1);
}

#[test]
fn spans_name_lines_and_columns() {
    let body = "static int add() { return 1; }\n/// Doc.\n  int sub() {\n return 2; }\n";
    let e = engine(
        body,
        vec![
            entity("add", true, (1, 8), (1, 31)),
            entity("sub", true, (3, 3), (4, 13)),
        ],
    );
    let r = e.definitions("add", &candidate("a.cpp"), &[]);
    let s = &r[0].source_ref.span;
    assert_eq!((s.start_line, s.start_col, s.start_byte), (1, 7, 7));
    assert_eq!((s.end_line, s.end_col, s.end_byte), (1, 30, 30));
    // A comment above starts its line.
    let r = e.definitions("sub", &candidate("a.cpp"), &[]);
    let s = &r[0].source_ref.span;
    assert_eq!((s.start_line, s.start_col, s.start_byte), (2, 0, 31));
    assert_eq!((s.end_line, s.end_col, s.end_byte), (4, 12, 66));
    assert_eq!(body.as_bytes()[..s.end_byte].iter().filter(|b| **b == 10).count() + 1, s.end_line);
}
