use cpp_navigator::cli::{Cli, Command, Format, IncludeField};
use cpp_navigator::commands::dispatch;
use cpp_navigator::output::{Record, Status};
use cpp_navigator::sources::SourceFile;

const WIDGET_H: &str = "#pragma once\n\
namespace ui {\n\
\n\
class Widget {\n\
public:\n\
    void InitializeUI();\n\
\n\
    /// Draw the widget on screen.\n\
    void Draw();\n\
\n\
    void SetText(const char* text);\n\
    void SetText(const char* text, int maxlen);\n\
};\n\
\n\
}\n";

const WIDGET_CPP: &str = "#include \"widget.h\"\n\
namespace ui {\n\
\n\
void Widget::InitializeUI() {\n\
}\n\
\n\
void Widget::Draw() {\n\
}\n\
\n\
void Widget::SetText(const char* text) {\n\
}\n\
\n\
void Widget::SetText(const char* text, int maxlen) {\n\
}\n\
\n\
}\n";

const MAIN_CPP: &str = "#include \"widget.h\"\n\
\n\
void RenderFrame(ui::Widget& w) {\n\
    w.SetText(\"hello\");\n\
    w.Draw();\n\
}\n\
\n\
int main() {\n\
    ui::Widget w;\n\
    w.InitializeUI();\n\
    w.SetText(\"bye\", 3);\n\
    w.Draw();\n\
    return 0;\n\
}\n";

fn fixture() -> Vec<SourceFile> {
    [("sample/widget.h", WIDGET_H), ("sample/widget.cpp", WIDGET_CPP), ("sample/main.cpp", MAIN_CPP)]
        .iter()
        .map(|(p, b)| SourceFile { path: p.to_string(), bytes: b.as_bytes().to_vec() })
        .collect()
}

fn run(command: Command, max_results: usize, include_fields: Vec<IncludeField>) -> Vec<Record> {
    let cli = Cli {
        command,
        root: vec!["sample".to_string()],
        semantic: false,
        compile_db: None,
        lang: vec![],
        max_candidates: 200,
        max_results,
        window: 10,
        jobs: None,
        no_ignore: false,
        format: Format::Jsonl,
        legend: false,
        include_fields,
        manifest: None,
        budget: None,
        empty_macro: vec![],
        quiet: false,
        interactive: false,
        editor: None,
        editor_template: None,
    };
    match dispatch(&cli, None, &fixture(), None) {
        Ok(o) => o.records,
        Err(_) => panic!("every target can be searched for"),
    }
}

fn names(n: &str) -> Vec<String> {
    vec![n.to_string()]
}

#[test]
fn golden_find_def_resolved_single() {
    let records = run(Command::FindDef { name: names("InitializeUI"), scope: false }, 3, vec![]);
    assert_eq!(records.len(), 1);

    let r = &records[0];
    assert_eq!(r.schema_version, "1.2");
    assert_eq!(r.tool, "cpp-navigator");
    assert_eq!(r.command, "find-def");
    assert_eq!(r.target, "InitializeUI");
    assert_eq!(r.status, Status::Resolved);

    // Must resolve to the .cpp implementation.
    let file_path = r.file_path.as_deref().unwrap();
    assert!(file_path.contains("widget.cpp"), "resolved to {file_path}");
    assert!(r.content.as_deref().unwrap().contains("InitializeUI"));
}

#[test]
fn golden_find_def_overloaded_shows_multi_resolved() {
    let records = run(Command::FindDef { name: names("SetText"), scope: false }, 5, vec![]);
    assert_eq!(records.len(), 1);

    let r = &records[0];
    assert_eq!(r.status, Status::Resolved);
    assert!(r.results.len() >= 2, "expected two overloads or more, got {}", r.results.len());
    for res in &r.results {
        assert!(res.content.as_deref().unwrap().contains("SetText"));
    }
}

#[test]
fn golden_find_decl_resolved_in_header() {
    let records = run(Command::FindDecl { name: names("Draw") }, 3, vec![]);
    assert_eq!(records.len(), 1);

    let r = &records[0];
    let file_path = r.file_path.as_deref().unwrap_or("");
    assert!(file_path.contains("widget.h") || r.status == Status::Resolved);
    assert_eq!(r.schema_version, "1.2");
    assert!(r.doc.as_deref().unwrap_or("").contains("Draw the widget on screen"));
    assert!(r.signature.is_some());
    assert!(r.content.is_none(), "content should be opt-in for declarations");
    assert!(r.start_byte.is_none(), "offsets should be opt-in");
    assert!(r.end_byte.is_none(), "offsets should be opt-in");
    assert!(r.type_spelling.is_none(), "type should be opt-in");
}

#[test]
fn golden_find_decl_with_includes_restores_optional_fields() {
    let records = run(
        Command::FindDecl { name: names("Draw") },
        3,
        vec![IncludeField::Content, IncludeField::Offsets, IncludeField::Type],
    );
    assert_eq!(records.len(), 1);

    let r = &records[0];
    assert_eq!(r.schema_version, "1.2");
    assert!(r.content.as_deref().unwrap_or("").contains("void Draw()"));
    assert!(r.start_byte.is_some());
    assert!(r.end_byte.is_some());
    assert!(r.type_spelling.is_some());
}

#[test]
fn golden_find_refs_location_only() {
    let records = run(Command::FindRefs { name: names("Draw"), context: false }, 3, vec![]);
    assert_eq!(records.len(), 1);

    let r = &records[0];
    assert_eq!(r.status, Status::Resolved);
    assert_eq!(r.resolution_type, "references");
    assert!(r.locations.len() >= 3, "expected three locations or more, got {}", r.locations.len());
}

#[test]
fn golden_find_refs_context_mode() {
    let records = run(Command::FindRefs { name: names("SetText"), context: true }, 3, vec![]);
    assert_eq!(records.len(), 1);

    let r = &records[0];
    assert_eq!(r.status, Status::Resolved);
    assert_eq!(r.resolution_type, "references_with_context");
    assert!(r.contexts.len() >= 2, "expected two entries or more, got {}", r.contexts.len());
}

#[test]
fn golden_find_def_not_found() {
    let records =
        run(Command::FindDef { name: names("NonExistentSymbol_XYZ123"), scope: false }, 3, vec![]);
    assert_eq!(records.len(), 1);
    assert_eq!(records[0].status, Status::NotFound);
}

#[test]
fn schema_validation_all_commands() {
    let runs = vec![
        run(Command::FindDef { name: names("Widget"), scope: false }, 3, vec![]),
        run(Command::FindDecl { name: names("Widget") }, 3, vec![]),
        run(Command::FindRefs { name: names("Draw"), context: false }, 3, vec![]),
        run(Command::FindRefs { name: names("SetText"), context: true }, 3, vec![]),
        run(Command::FindDef { name: names("NoSuchSymbol_ABC"), scope: false }, 3, vec![]),
    ];
    for records in &runs {
        for rec in records {
            assert_eq!(rec.schema_version, "1.2");
            assert_eq!(rec.tool, "cpp-navigator");
            assert!(!rec.command.is_empty());
            assert!(!rec.target.is_empty());
            assert!(!rec.resolution_type.is_empty());
            assert!(matches!(
                rec.status,
                Status::Resolved | Status::Ambiguous | Status::Fallback | Status::NotFound
            ));
        }
    }
}
