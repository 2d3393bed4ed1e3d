use cpp_navigator::budget::apply_budget;
use cpp_navigator::cli::{Cli, Command, Format, IncludeField};
use cpp_navigator::commands::{
    build_finder_config, collect_targets, collect_unconfirmed_macros, dispatch, expand_to_class_scope,
    macro_note, read_window, resolution_type, resolve_one, resolve_refs, resolve_refs_locations,
    text_fallback, to_candidate, Query, Settings,
};
use cpp_navigator::engine::{Engine, SemanticEngine, SyntacticEngine};
use cpp_navigator::model::Kind;
use cpp_navigator::names::NameSet;
use cpp_navigator::output::{Candidate as Choice, Record, Status};
use cpp_navigator::search::{find_candidates, Candidate, FinderConfig, FinderResult};
use cpp_navigator::sources::SourceFile;

fn write(files: &mut Vec<SourceFile>, path: &str, body: &str) {
    files.push(SourceFile { path: path.to_string(), bytes: body.as_bytes().to_vec() });
}

fn one_candidate(p: &str) -> Vec<Candidate> {
    vec![Candidate { file_path: p.to_string(), line: 1, byte_offset: 0, snippet: String::new() }]
}

fn plain() -> SyntacticEngine {
    SyntacticEngine::new()
}

fn cli_for(command: Command, max_results: usize, window: usize) -> Cli {
    Cli {
        command,
        root: vec!["root".to_string()],
        semantic: false,
        compile_db: None,
        lang: vec![],
        max_candidates: 200,
        max_results,
        window,
        jobs: None,
        no_ignore: false,
        format: Format::Jsonl,
        legend: false,
        include_fields: vec![],
        manifest: None,
        budget: None,
        empty_macro: vec![],
        quiet: false,
        interactive: false,
        editor: None,
        editor_template: None,
    }
}

fn settings(cli: &Cli) -> Settings {
    let (query, scope, context) = match &cli.command {
        Command::FindDef { scope, .. } => (Query::Definition, *scope, false),
        Command::FindDecl { .. } => (Query::Declaration, false, false),
        Command::FindRefs { context, .. } => (Query::References, false, *context),
    };
    Settings {
        query,
        scope,
        context,
        max_candidates: cli.max_candidates,
        max_results: cli.max_results,
        window: cli.window,
    }
}

#[test]
fn window_clamps_at_file_start() {
    let mut files: Vec<SourceFile> = Vec::new();
    let p = "a.cpp";
    write(&mut files, p, "l1\nl2\nl3\nl4\nl5\n");
    let (buf, before, after) = read_window(&files, p, 1, 10).unwrap();
    assert_eq!(before, 0);
    assert_eq!(after, 4);
    assert_eq!(buf, "l1\nl2\nl3\nl4\nl5");
}

#[test]
fn window_centers_on_line() {
    let mut files: Vec<SourceFile> = Vec::new();
    let p = "a.cpp";
    write(&mut files, p, "l1\nl2\nl3\nl4\nl5\n");
    let (buf, before, after) = read_window(&files, p, 3, 1).unwrap();
    assert_eq!(before, 1);
    assert_eq!(after, 1);
    assert_eq!(buf, "l2\nl3\nl4");
}

#[test]
fn window_extends_for_line_comment_block() {
    let mut files: Vec<SourceFile> = Vec::new();
    let p = "a.hpp";
    let body = "/// Brief description.\n\
                /// @param x the value\n\
                void foo(int x);\n\
                void bar();\n";
    write(&mut files, p, body);
    // window=0 normally gives only the hit line; comment extension pulls
    // in the 2-line doc block above.
    let (buf, before, after) = read_window(&files, p, 3, 0).unwrap();
    assert_eq!(before, 2, "should capture both comment lines");
    assert_eq!(after, 0);
    assert!(buf.contains("/// Brief description."));
    assert!(buf.contains("/// @param x"));
    assert!(buf.contains("void foo(int x);"));
}

#[test]
fn window_extends_for_block_comment() {
    let mut files: Vec<SourceFile> = Vec::new();
    let p = "a.hpp";
    let body = "/**\n\
                * @brief Allocates the pool.\n\
                * @param n pool size\n\
                */\n\
                void InitPool(size_t n);\n";
    write(&mut files, p, body);
    let (buf, before, after) = read_window(&files, p, 5, 0).unwrap();
    assert_eq!(before, 4, "should capture all 4 comment lines");
    assert_eq!(after, 0);
    assert!(buf.starts_with("/**"));
    assert!(buf.contains("@brief Allocates"));
    assert!(buf.contains("void InitPool"));
}

#[test]
fn window_stops_at_blank_line_between_comments() {
    let mut files: Vec<SourceFile> = Vec::new();
    let p = "a.hpp";
    // The blank line separates an unrelated comment from the function's doc.
    let body = "/// Unrelated comment.\n\
                \n\
                /// Relevant doc.\n\
                void foo();\n";
    write(&mut files, p, body);
    let (buf, before, after) = read_window(&files, p, 4, 0).unwrap();
    assert_eq!(before, 1, "should capture only the adjacent comment");
    assert_eq!(after, 0);
    assert!(buf.contains("/// Relevant doc."));
    assert!(!buf.contains("/// Unrelated comment."));
}

#[test]
fn window_no_extension_when_no_comment_above() {
    let mut files: Vec<SourceFile> = Vec::new();
    let p = "a.cpp";
    write(&mut files, p, "int x = 1;\nvoid foo();\n");
    let (buf, before, after) = read_window(&files, p, 2, 0).unwrap();
    assert_eq!(before, 0, "code above, not a comment — no extension");
    assert_eq!(after, 0);
    assert_eq!(buf, "void foo();");
}

#[test]
fn def_resolution_type_by_kind() {
    assert_eq!(resolution_type(Query::Definition, Kind::Function), "function_definition");
    assert_eq!(resolution_type(Query::Definition, Kind::Template), "template_definition");
    assert_eq!(resolution_type(Query::Declaration, Kind::Function), "declaration");
}

#[test]
fn scope_expands_inline_member_with_byte_fidelity() {
    let mut files: Vec<SourceFile> = Vec::new();
    let p = "w.hpp";
    let body = "class Widget {\npublic:\n    int area() { return w * h; }\n    int w, h;\n};\n";
    write(&mut files, p, body);
    let eng = SyntacticEngine::new();

    let defs = eng.definitions("area", &one_candidate(p), &files);
    assert_eq!(defs.len(), 1);
    let member = &defs[0];
    assert!(String::from_utf8_lossy(&member.content_bytes).starts_with("int area()"));

    let expanded = expand_to_class_scope(&eng, member, &files).unwrap();
    let s = String::from_utf8_lossy(&expanded.content_bytes);
    assert!(s.starts_with("class Widget {"));
    assert!(s.trim_end().ends_with('}'));
    let disk = body.as_bytes();
    let span = &expanded.source_ref.span;
    assert_eq!(&disk[span.start_byte..span.end_byte], expanded.content_bytes.as_slice());
}

#[test]
fn scope_is_noop_for_free_function() {
    let mut files: Vec<SourceFile> = Vec::new();
    let p = "a.cpp";
    write(&mut files, p, "int add(int a, int b) {\n    return a + b;\n}\n");
    let eng = SyntacticEngine::new();
    let defs = eng.definitions("add", &one_candidate(p), &files);
    assert_eq!(defs.len(), 1);
    assert!(expand_to_class_scope(&eng, &defs[0], &files).is_none());
}

#[test]
fn refs_location_only_returns_dense_list() {
    let mut files: Vec<SourceFile> = Vec::new();
    let p = "a.cpp";
    let body = "void foo() {}\nvoid bar() { foo(); }\nvoid baz() { foo(); }\n";
    write(&mut files, p, body);

    let finder_cfg = FinderConfig {
        roots: vec!["root".to_string()],
        ..Default::default()
    };
    let result = find_candidates("foo", &finder_cfg, &files).unwrap();
    // foo appears on lines 1 (def), 2 (call), 3 (call)
    assert!(result.candidates.len() >= 3);

    let record = resolve_refs_locations("find-refs", "foo", &result);
    assert_eq!(record.status, Status::Resolved);
    assert_eq!(record.resolution_type, "references");
    assert!(record.locations.len() >= 3);
    assert!(!record.truncated);
}

#[test]
fn refs_deduplicates_same_line() {
    let mut files: Vec<SourceFile> = Vec::new();
    let p = "a.cpp";
    // Two mentions of `x` on the same line
    let body = "int x = 1;\nvoid f() { x = x + 1; }\n";
    write(&mut files, p, body);

    let finder_cfg = FinderConfig {
        roots: vec!["root".to_string()],
        ..Default::default()
    };
    let result = find_candidates("x", &finder_cfg, &files).unwrap();
    let record = resolve_refs_locations("find-refs", "x", &result);
    // Line 1 has one mention, line 2 has two mentions (deduplicated to one).
    assert_eq!(record.locations.len(), 2);
}

#[test]
fn refs_context_returns_enclosing_function() {
    let mut files: Vec<SourceFile> = Vec::new();
    let p = "a.cpp";
    let joined = [
        "int helper() { return 42; }\n",
        "void caller1() {\n",
        "    int v = helper();\n",
        "}\n",
        "void caller2() {\n",
        "    helper();\n",
        "}\n",
    ]
    .concat();
    let body = joined.as_str();
    write(&mut files, p, body);

    let eng = SyntacticEngine::new();
    let finder_cfg = FinderConfig {
        roots: vec!["root".to_string()],
        ..Default::default()
    };
    let result = find_candidates("helper", &finder_cfg, &files).unwrap();

    // Use resolve_refs with context=true
    let cli = cli_for(Command::FindRefs { name: vec!["helper".into()], context: true }, 3, 10);
    let record = resolve_refs("find-refs", "helper", true, &result, &eng, cli.max_candidates, &files);
    assert_eq!(record.resolution_type, "references_with_context");
    // Should have contexts for: helper() def, caller1, caller2
    // but deduped by enclosing scope, so at most 3 distinct scopes.
    assert!(record.contexts.len() >= 2);
    // Each context should contain the function body.
    for ctx in &record.contexts {
        assert!(!ctx.content.is_empty());
        assert!(ctx.scope_start_line > 0);
    }
}

#[test]
fn refs_context_deduplicates_same_scope() {
    let mut files: Vec<SourceFile> = Vec::new();
    let p = "a.cpp";
    // Multiple references to `val` in the same function
    let body = "void work() {\n    int val = 1;\n    val++;\n    val *= 2;\n}\n";
    write(&mut files, p, body);

    let eng = SyntacticEngine::new();
    let finder_cfg = FinderConfig {
        roots: vec!["root".to_string()],
        ..Default::default()
    };
    let result = find_candidates("val", &finder_cfg, &files).unwrap();
    assert!(result.candidates.len() >= 3); // val appears 3 times

    let cli = cli_for(Command::FindRefs { name: vec!["val".into()], context: true }, 3, 10);
    let record = resolve_refs("find-refs", "val", true, &result, &eng, cli.max_candidates, &files);
    // All refs in the same function → deduplicated to one context entry.
    assert_eq!(record.contexts.len(), 1);
    assert!(record.contexts[0].content.contains("int val = 1;"));
}

#[test]
fn refs_across_multiple_files() {
    let mut files: Vec<SourceFile> = Vec::new();
    let p1 = "a.cpp";
    let p2 = "b.cpp";
    write(&mut files, p1, "void target() {}\n");
    write(&mut files, p2, "extern void target();\nvoid use() { target(); }\n");

    let finder_cfg = FinderConfig {
        roots: vec!["root".to_string()],
        ..Default::default()
    };
    let result = find_candidates("target", &finder_cfg, &files).unwrap();
    let record = resolve_refs_locations("find-refs", "target", &result);
    // At least 3 locations: def in a.cpp, decl in b.cpp, call in b.cpp
    assert!(record.locations.len() >= 3);
    // Files should be ordered deterministically.
    let files: Vec<&str> = record.locations.iter().map(|l| l.file.as_str()).collect();
    let mut sorted = files.clone();
    sorted.sort();
    assert_eq!(files, sorted);
}

#[test]
fn overloads_within_max_results_show_full_content() {
    let mut files: Vec<SourceFile> = Vec::new();
    let p = "a.cpp";
    let body = "void process(int x) { x++; }\nvoid process(double y) { y *= 2; }\n";
    write(&mut files, p, body);

    let eng = SyntacticEngine::new();
    let candidates = one_candidate(p);
    let resolutions = eng.definitions("process", &candidates, &files);
    assert_eq!(resolutions.len(), 2);

    // With max_results=3, both should be shown in full.
    let record = Record::multi_resolved(
        "find-def", "process", "function_definition", &resolutions, 2,
    );
    assert_eq!(record.status, Status::Resolved);
    assert_eq!(record.results.len(), 2);
    assert!(record.results[0].content.as_deref().unwrap_or("").contains("x++"));
    assert!(record.results[1].content.as_deref().unwrap_or("").contains("y *= 2"));
}

#[test]
fn overloads_exceeding_max_results_show_ambiguous() {
    let mut files: Vec<SourceFile> = Vec::new();
    let p = "a.cpp";
    let joined = [
        "void f(int a) {}\n",
        "void f(double a) {}\n",
        "void f(char a) {}\n",
        "void f(long a) {}\n",
    ]
    .concat();
    let body = joined.as_str();
    write(&mut files, p, body);

    let eng = SyntacticEngine::new();
    let candidates = one_candidate(p);
    let resolutions = eng.definitions("f", &candidates, &files);
    assert_eq!(resolutions.len(), 4);

    // Simulate what resolve_one does with max_results=3
    let max_results = 3;
    let n = resolutions.len();
    assert!(n > max_results);
    let candidates_out: Vec<Choice> = resolutions.iter().map(to_candidate).collect();
    let record = Record::ambiguous("find-def", "f", candidates_out);
    assert_eq!(record.status, Status::Ambiguous);
    assert_eq!(record.candidates.len(), 4);
}

#[test]
fn refs_finds_method_calls_through_pointer() {
    // Pattern: calls via pointer/member, e.g. m_pEdit->GetWindowText(str)
    let mut files: Vec<SourceFile> = Vec::new();
    let p = "dlg.cpp";
    let joined = [
        "class CDialog {\n",
        "public:\n",
        "    void GetWindowText(CString& s);\n",
        "};\n",
        "void OnOK() {\n",
        "    CString str;\n",
        "    m_pEdit->GetWindowText(str);\n",
        "}\n",
        "void OnChange() {\n",
        "    CString s;\n",
        "    m_pEdit->GetWindowText(s);\n",
        "    m_label.GetWindowText(s);\n",
        "}\n",
    ]
    .concat();
    let body = joined.as_str();
    write(&mut files, p, body);

    let finder_cfg = FinderConfig {
        roots: vec!["root".to_string()],
        ..Default::default()
    };
    let result = find_candidates("GetWindowText", &finder_cfg, &files).unwrap();
    let record = resolve_refs_locations("find-refs", "GetWindowText", &result);
    // Should find all 4 mentions: declaration + 3 calls
    assert_eq!(record.locations.len(), 4);
}

#[test]
fn refs_context_finds_method_in_class_member_function() {
    // Pattern: out-of-line member definitions, e.g. CMainFrame::OnCreate
    let mut files: Vec<SourceFile> = Vec::new();
    let p = "frame.cpp";
    let joined = [
        "int CMainFrame::OnCreate(LPCREATESTRUCT lp) {\n",
        "    if (CFrameWnd::OnCreate(lp) == -1)\n",
        "        return -1;\n",
        "    return 0;\n",
        "}\n",
        "int CChildView::OnCreate(LPCREATESTRUCT lp) {\n",
        "    OnCreate(lp);\n",
        "    return 0;\n",
        "}\n",
    ]
    .concat();
    let body = joined.as_str();
    write(&mut files, p, body);

    let eng = SyntacticEngine::new();
    let finder_cfg = FinderConfig {
        roots: vec!["root".to_string()],
        ..Default::default()
    };
    let result = find_candidates("OnCreate", &finder_cfg, &files).unwrap();
    assert!(result.candidates.len() >= 4); // multiple mentions

    let cli = cli_for(Command::FindRefs { name: vec!["OnCreate".into()], context: true }, 3, 10);
    let record = resolve_refs("find-refs", "OnCreate", true, &result, &eng, cli.max_candidates, &files);
    assert_eq!(record.resolution_type, "references_with_context");
    // Should deduplicate to 2 distinct function scopes.
    assert_eq!(record.contexts.len(), 2);
}

#[test]
fn find_def_qualified_shows_specific_overload() {
    // Pattern: CMainFrame::OnCreate vs CChildView::OnCreate
    let mut files: Vec<SourceFile> = Vec::new();
    let p = "frame.cpp";
    let joined = [
        "int CMainFrame::OnCreate(LPCREATESTRUCT lp) {\n",
        "    return 0;\n",
        "}\n",
        "int CChildView::OnCreate(LPCREATESTRUCT lp) {\n",
        "    return 0;\n",
        "}\n",
    ]
    .concat();
    let body = joined.as_str();
    write(&mut files, p, body);

    let eng = SyntacticEngine::new();
    let candidates = one_candidate(p);
    // Qualified name narrows to one.
    let res = eng.definitions("CMainFrame::OnCreate", &candidates, &files);
    assert_eq!(res.len(), 1);
    assert!(String::from_utf8_lossy(&res[0].content_bytes).contains("CMainFrame::OnCreate"));
}

#[test]
fn refs_not_found_for_missing_symbol() {
    let mut files: Vec<SourceFile> = Vec::new();
    let p = "a.cpp";
    write(&mut files, p, "void other() {}\n");

    let result = FinderResult {
        candidates: vec![],
        truncated: false,
    };
    let record = resolve_refs_locations("find-refs", "missing", &result);
    // Empty locations is valid — caller should check not_found first.
    assert!(record.locations.is_empty());
}

#[test]
fn manifest_parses_targets_and_deduplicates() {
    let content = "alpha\nbeta\n# comment line\nalpha\ngamma\n";
    let targets = collect_targets(&["alpha".to_string()], Some(content));
    assert_eq!(targets, vec!["alpha", "beta", "gamma"]);
}

#[test]
fn budget_trims_records_correctly() {
    // Create records that exceed the budget, verify trimming.
    let rec1 = Record::not_found("find-def", "big_target_name_1");
    let mut rec2 = Record::not_found("find-def", "big_target_name_2");
    rec2.content = Some("x".repeat(1000)); // make it large
    let records = vec![rec1, rec2];
    let trimmed = apply_budget(records, 50);
    assert!(trimmed.len() <= 2);
    // At least one record survives.
    assert!(!trimmed.is_empty());
    assert!(trimmed.last().unwrap().budget_trimmed);
}

#[test]
fn find_decl_falls_back_to_single_definition_when_no_prototype() {
    let mut files: Vec<SourceFile> = Vec::new();
    let p = "a.cpp";
    // Only a definition — no separate forward declaration.
    write(&mut files, p, "static void helper(int x) { x++; }\n");

    let eng = SyntacticEngine::new();
    let finder_cfg = FinderConfig {
        roots: vec!["root".to_string()],
        ..Default::default()
    };
    let result = find_candidates("helper", &finder_cfg, &files).unwrap();
    assert!(!result.candidates.is_empty());

    let cli = cli_for(Command::FindDecl { name: vec!["helper".into()] }, 3, 10);
    let record = resolve_one("find-decl", "helper", &settings(&cli), &result, &eng, &plain(), &files);
    assert_eq!(record.status, Status::Resolved);
    assert!(record.content.as_deref().unwrap_or("").contains("helper"));
    assert!(record.message.as_deref().unwrap_or("").contains("No forward declaration"));
}

#[test]
fn find_decl_shows_all_definition_overloads_when_no_prototypes() {
    let mut files: Vec<SourceFile> = Vec::new();
    let p = "a.cpp";
    // Two overloads with only definitions — no separate prototypes.
    write(&mut files, p, "void process(int x) { x++; }\nvoid process(double y) { y *= 2; }\n");

    let eng = SyntacticEngine::new();
    let finder_cfg = FinderConfig {
        roots: vec!["root".to_string()],
        ..Default::default()
    };
    let result = find_candidates("process", &finder_cfg, &files).unwrap();

    let cli = cli_for(Command::FindDecl { name: vec!["process".into()] }, 5, 10);
    let record = resolve_one("find-decl", "process", &settings(&cli), &result, &eng, &plain(), &files);
    assert_eq!(record.status, Status::Resolved);
    // Both overloads should be in `results`.
    assert_eq!(record.results.len(), 2);
    assert!(record.message.as_deref().unwrap_or("").contains("overload"));
}

#[test]
fn find_decl_prefers_declaration_over_definition_when_both_exist() {
    let mut files: Vec<SourceFile> = Vec::new();
    let h = "a.hpp";
    let cpp = "a.cpp";
    write(&mut files, h, "void compute(int x);\n");
    write(&mut files, cpp, "void compute(int x) { x++; }\n");

    let eng = SyntacticEngine::new();
    // Header-biased search returns only the header candidate.
    let finder_cfg = FinderConfig {
        roots: vec!["root".to_string()],
        prefer_headers: true,
        ..Default::default()
    };
    let result = find_candidates("compute", &finder_cfg, &files).unwrap();
    // Candidates should come from the header only.
    assert!(result.candidates.iter().all(|c| c.file_path.ends_with("a.hpp")));

    let cli = cli_for(Command::FindDecl { name: vec!["compute".into()] }, 3, 10);
    let record = resolve_one("find-decl", "compute", &settings(&cli), &result, &eng, &plain(), &files);
    assert_eq!(record.status, Status::Resolved);
    // Should show the prototype, not the definition body.
    let file = record.file_path.as_deref().unwrap_or("");
    assert!(file.ends_with("a.hpp"), "expected header, got {file}");
    // Message should NOT say "No forward declaration" since a prototype exists.
    assert!(!record.message.as_deref().unwrap_or("").contains("No forward declaration"));
}

#[test]
fn find_candidates_searches_inl_files_by_default() {
    let mut files: Vec<SourceFile> = Vec::new();
    let p = "impl.inl";
    write(&mut files, p, "inline void inl_func(int x) { x++; }\n");

    let finder_cfg = FinderConfig {
        roots: vec!["root".to_string()],
        ..Default::default()
    };
    let result = find_candidates("inl_func", &finder_cfg, &files).unwrap();
    assert_eq!(result.candidates.len(), 1);
    assert!(result.candidates[0].file_path.ends_with("impl.inl"));
}

#[test]
fn find_decl_finds_local_function_in_inl_file() {
    let mut files: Vec<SourceFile> = Vec::new();
    let p = "helpers.inl";
    write(&mut files, p, "static int square(int x) { return x * x; }\n");

    let eng = SyntacticEngine::new();
    let finder_cfg = FinderConfig {
        roots: vec!["root".to_string()],
        prefer_headers: true,
        ..Default::default()
    };
    let result = find_candidates("square", &finder_cfg, &files).unwrap();
    assert!(!result.candidates.is_empty());

    let cli = cli_for(Command::FindDecl { name: vec!["square".into()] }, 3, 10);
    let record = resolve_one("find-decl", "square", &settings(&cli), &result, &eng, &plain(), &files);
    assert_eq!(record.status, Status::Resolved);
    assert!(record.content.as_deref().unwrap_or("").contains("square"));
}

#[test]
fn text_fallback_emits_one_window_per_distinct_hit() {
    let mut files: Vec<SourceFile> = Vec::new();
    let p = "a.cpp";
    // Three distinct hit lines for `Widget` that the engine won't resolve as
    // a definition/declaration (bare mentions only).
    let joined = [
        "// uses Widget here\n",
        "int a; // Widget\n",
        "int b;\n",
        "int c; // Widget again\n",
    ]
    .concat();
    let body = joined.as_str();
    write(&mut files, p, body);

    let finder_cfg = FinderConfig {
        roots: vec!["root".to_string()],
        ..Default::default()
    };
    let result = find_candidates("Widget", &finder_cfg, &files).unwrap();
    assert!(result.candidates.len() >= 3);

    let cli = cli_for(Command::FindDef { name: vec!["Widget".into()], scope: false }, 3, 2);
    let rec = text_fallback("find-def", "Widget", &result, cli.max_results, cli.window, &files);
    assert_eq!(rec.status, Status::Fallback);
    // One window per distinct hit line (3), no single-window fields set.
    assert_eq!(rec.windows.len(), 3);
    assert!(rec.content_buffer.is_none());
    assert!(rec.windows.iter().all(|w| !w.content_buffer.is_empty()));
}

#[test]
fn text_fallback_single_hit_keeps_single_window_shape() {
    let mut files: Vec<SourceFile> = Vec::new();
    let p = "a.cpp";
    write(&mut files, p, "int a; // OnlyOnce\n");

    let finder_cfg = FinderConfig {
        roots: vec!["root".to_string()],
        ..Default::default()
    };
    let result = find_candidates("OnlyOnce", &finder_cfg, &files).unwrap();
    let cli = cli_for(Command::FindDef { name: vec!["OnlyOnce".into()], scope: false }, 3, 2);
    let rec = text_fallback("find-def", "OnlyOnce", &result, cli.max_results, cli.window, &files);
    assert_eq!(rec.status, Status::Fallback);
    assert!(rec.windows.is_empty());
    assert!(rec.content_buffer.is_some());
}

#[test]
fn collect_unconfirmed_macros_flags_undefined_annotation_tokens() {
    let mut files: Vec<SourceFile> = Vec::new();
    let p = "api.h";
    // WINAPI is an UPPER_CASE annotation token with no #define anywhere;
    // KNOWN is confirmed via the passed set; PI is #defined locally.
    let joined = [
            "#define PI 3.14\n",
            "static CStr WINAPI Foo(int a);\n",
            "static CStr KNOWN Bar(int a);\n",
            "static CStr PI Baz(int a);\n",
    ]
    .concat();
    write(&mut files, p, &joined);

    let result = FinderResult {
        candidates: vec![Candidate {
            file_path: p.to_string(),
            line: 2,
            byte_offset: 0,
            snippet: String::new(),
        }],
        truncated: false,
    };
    let confirmed = NameSet::from_names(&["KNOWN".to_string()]);
    let mut out = Vec::new();
    collect_unconfirmed_macros(&result, &confirmed, &mut out, &files);
    // Only WINAPI is unconfirmed: KNOWN is in the set, PI is #defined here.
    assert_eq!(out, vec!["WINAPI".to_string()]);
}

#[test]
fn text_fallback_caps_windows_at_max_results_and_marks_truncated() {
    let mut files: Vec<SourceFile> = Vec::new();
    let p = "a.cpp";
    let body = "// Foo\n// Foo\n// Foo\n// Foo\n// Foo\n";
    write(&mut files, p, body);

    let finder_cfg = FinderConfig {
        roots: vec!["root".to_string()],
        ..Default::default()
    };
    let result = find_candidates("Foo", &finder_cfg, &files).unwrap();
    assert!(result.candidates.len() >= 5);

    // max_results = 2 caps the windows; remaining hits set truncated.
    let mut cli = cli_for(Command::FindDef { name: vec!["Foo".into()], scope: false }, 3, 2);
    cli.max_results = 2;
    let rec = text_fallback("find-def", "Foo", &result, cli.max_results, cli.window, &files);
    assert_eq!(rec.windows.len(), 2);
    assert!(rec.truncated);
}

#[test]
fn window_of_a_missing_or_undecodable_file_falls_back_to_the_hit() {
    let files = vec![SourceFile { path: "b.cpp".to_string(), bytes: b"\xff\xfe hit\n".to_vec() }];
    assert!(read_window(&files, "a.cpp", 1, 1).is_none());
    assert!(read_window(&files, "b.cpp", 1, 1).is_none());
    let result = FinderResult {
        candidates: vec![Candidate {
            file_path: "b.cpp".to_string(),
            line: 1,
            byte_offset: 0,
            snippet: "hit".to_string(),
        }],
        truncated: false,
    };
    let rec = text_fallback("find-refs", "hit", &result, 3, 2, &files);
    assert_eq!(rec.content_buffer.as_deref(), Some("hit"));
    assert_eq!(rec.window_before, Some(0));
    assert_eq!(rec.message.as_deref(), Some("Reference locations as a raw text window."));
}

#[test]
fn window_handles_huge_sizes_and_lines() {
    let mut files = Vec::new();
    write(&mut files, "a.cpp", "l1\nl2\n");
    write(&mut files, "e.cpp", "");
    let (buf, before, after) = read_window(&files, "a.cpp", 99, usize::MAX).unwrap();
    assert_eq!((buf.as_str(), before, after), ("l1\nl2", 1, 0));
    assert_eq!(read_window(&files, "e.cpp", 1, 1).unwrap(), (String::new(), 0, 0));
}

#[test]
fn an_empty_manifest_adds_nothing() {
    assert_eq!(collect_targets(&["a".to_string()], None), vec!["a"]);
    assert_eq!(collect_targets(&["a".to_string()], Some("  \n\t# x\n  b \r\n")), vec!["a", "b"]);
}

#[test]
fn macro_note_lists_names_and_flags() {
    assert!(macro_note(&[]).is_none());
    assert_eq!(
        macro_note(&["A".to_string(), "B".to_string()]).unwrap(),
        "cpp-navigator: note: unrecognized annotation macro(s) [A, B] may be hiding declarations; \
         if so, re-run with --empty-macro A --empty-macro B"
    );
}

#[test]
fn ambiguous_snippets_are_first_lines() {
    let mut files = Vec::new();
    write(&mut files, "a.cpp", "void f() {\n}\n");
    let r = plain().definitions("f", &one_candidate("a.cpp"), &files);
    let c = to_candidate(&r[0]);
    assert_eq!(c.snippet.as_deref(), Some("void f() {"));
    assert_eq!(c.line, 1);
}

#[test]
fn the_ladder_has_a_rung_for_every_count() {
    let mut files = Vec::new();
    write(&mut files, "a.cpp", "void f(int a) {}\nvoid f(char a) {}\n// g\n");
    let mut cli = cli_for(
        Command::FindDef {
            name: vec!["f".to_string(), "g".to_string(), "h".to_string(), "f".to_string()],
            scope: false,
        },
        2,
        1,
    );
    let out = match dispatch(&cli, None, &files, None) {
        Ok(o) => o,
        Err(_) => panic!("every target can be searched for"),
    };
    let statuses: Vec<Status> = out.records.iter().map(|r| r.status).collect();
    assert_eq!(statuses, vec![Status::Resolved, Status::Fallback, Status::NotFound]);
    assert_eq!(out.records[0].message.as_deref(), Some("Found 2 matches."));
    cli.max_results = 1;
    let out = match dispatch(&cli, None, &files, None) {
        Ok(o) => o,
        Err(_) => panic!("every target can be searched for"),
    };
    assert_eq!(out.records[0].status, Status::Ambiguous);
    assert_eq!(
        out.records[0].message.as_deref(),
        Some("Found 2 candidates (exceeds --max-results 1). Returning locations only.")
    );
}

#[test]
fn scope_widens_to_the_class() {
    let mut files = Vec::new();
    write(&mut files, "w.hpp", "class W {\n    int area() { return 1; }\n};\n");
    let cli = cli_for(Command::FindDef { name: vec!["area".to_string()], scope: true }, 3, 1);
    let out = match dispatch(&cli, None, &files, None) {
        Ok(o) => o,
        Err(_) => panic!("every target can be searched for"),
    };
    assert!(out.records[0].content.as_deref().unwrap().starts_with("class W {"));
    assert_eq!(
        out.records[0].message.as_deref(),
        Some("Expanded to the enclosing class/struct scope (--scope).")
    );
}

#[test]
fn an_empty_semantic_engine_gives_way_to_the_syntactic_one() {
    let mut files = Vec::new();
    write(&mut files, "a.cpp", "void f(int a) {}\n");
    let mut cli = cli_for(Command::FindDef { name: vec!["f".to_string()], scope: false }, 3, 1);
    cli.semantic = true;
    let semantic = SemanticEngine::new("build".to_string());
    let out = match dispatch(&cli, None, &files, Some(&semantic)) {
        Ok(o) => o,
        Err(_) => panic!("every target can be searched for"),
    };
    assert_eq!(out.records[0].engine.as_deref(), Some("tree-sitter"));
}

#[test]
fn unconfirmed_macros_are_reported_when_a_target_falls_short() {
    let mut files = Vec::new();
    write(&mut files, "a.h", "// Foo\nstatic CStr WINAPI Bar(int a);\nint AFX_EXT Baz();\n");
    let cli = cli_for(Command::FindDef { name: vec!["Foo".to_string()], scope: false }, 3, 1);
    let out = match dispatch(&cli, None, &files, None) {
        Ok(o) => o,
        Err(_) => panic!("every target can be searched for"),
    };
    assert_eq!(out.unconfirmed, vec!["AFX_EXT".to_string(), "WINAPI".to_string()]);
}

#[test]
fn a_macro_defined_in_another_file_is_confirmed() {
    let mut files = Vec::new();
    write(&mut files, "defs.h", "#define LIB_API __declspec(dllimport)\n");
    write(
        &mut files,
        "i.h",
        "class I {\npublic:\n    virtual CW LIB_API Convert(const CStr& a) = 0;\n    \
         virtual CW LIB_API Convert(const CStr& a, int n) = 0;\n};\n",
    );
    let cli = cli_for(Command::FindDecl { name: vec!["Convert".to_string()] }, 3, 1);
    let out = match dispatch(&cli, None, &files, None) {
        Ok(o) => o,
        Err(_) => panic!("every target can be searched for"),
    };
    assert_eq!(out.records[0].results.len(), 2);
}

#[test]
fn a_target_that_cannot_be_searched_for_ends_the_run() {
    let big = "x".repeat(5_000_000);
    let cli = cli_for(Command::FindDef { name: vec!["f".to_string(), format!("A::{big}")], scope: false }, 3, 1);
    match dispatch(&cli, None, &[], None) {
        Ok(_) => panic!("expected an error"),
        Err(e) => assert_eq!(e.needle.len(), big.len()),
    }
}

#[test]
fn references_with_context_are_capped() {
    let mut files = Vec::new();
    write(&mut files, "a.cpp", "void a() { v(); }\nvoid b() { v(); }\nvoid c() { v(); }\n");
    let cfg = FinderConfig::default();
    let found = match find_candidates("v", &cfg, &files) {
        Ok(f) => f,
        Err(_) => panic!("the target can be searched for"),
    };
    let rec = resolve_refs("find-refs", "v", true, &found, &plain(), 2, &files);
    assert_eq!(rec.contexts.len(), 2);
    assert!(rec.truncated);
    assert_eq!(rec.message.as_deref(), Some("Found 2 references with context."));
}

#[test]
fn references_outside_scopes_degrade_to_locations() {
    let mut files = Vec::new();
    write(&mut files, "a.cpp", "int v;\n");
    let found = match find_candidates("v", &FinderConfig::default(), &files) {
        Ok(f) => f,
        Err(_) => panic!("the target can be searched for"),
    };
    let rec = resolve_refs("find-refs", "v", true, &found, &plain(), 9, &files);
    assert_eq!(rec.resolution_type, "references");
    assert_eq!(rec.locations.len(), 1);
}

#[test]
fn finder_config_follows_the_options() {
    let mut cli = cli_for(Command::FindDecl { name: vec![] }, 3, 1);
    let c = build_finder_config(&cli);
    assert_eq!(c.roots, vec!["root".to_string()]);
    assert_eq!(c.extensions.len(), 9);
    assert!(c.respect_ignore && !c.prefer_headers);
    cli.root = vec![];
    cli.lang = vec!["h".to_string()];
    cli.no_ignore = true;
    cli.jobs = Some(2);
    let c = build_finder_config(&cli);
    assert_eq!(c.roots, vec![".".to_string()]);
    assert_eq!(c.extensions, vec!["h".to_string()]);
    assert!(!c.respect_ignore);
    assert_eq!(c.threads, Some(2));
}

#[test]
fn a_budget_applies_to_the_whole_run() {
    let mut files = Vec::new();
    let body = "int hit;\n".repeat(200);
    write(&mut files, "a.cpp", &body);
    let mut cli = cli_for(
        Command::FindRefs { name: vec!["hit".to_string(), "none".to_string()], context: false },
        3,
        1,
    );
    cli.budget = Some(200);
    cli.include_fields = vec![IncludeField::Content];
    let out = match dispatch(&cli, None, &files, None) {
        Ok(o) => o,
        Err(_) => panic!("every target can be searched for"),
    };
    assert_eq!(out.records.len(), 2);
    assert!(out.records[0].budget_trimmed && out.records[1].budget_trimmed);
    assert!(!out.records[0].locations.is_empty() && out.records[0].locations.len() < 200);
}

fn refs(names: &[&str], files: &[SourceFile], context: bool) -> Vec<Record> {
    let name = names.iter().map(|n| n.to_string()).collect();
    let cli = cli_for(Command::FindRefs { name, context }, 5, 2);
    dispatch(&cli, None, files, None).unwrap().records
}

#[test]
fn references_to_a_qualified_name_leave_out_other_scopes() {
    let mut files: Vec<SourceFile> = Vec::new();
    let body = "class A { void draw(); };\n\
                class B { void draw(); };\n\
                void f(A& a) { a.draw(); }\n\
                void g() { B::draw(); }\n";
    write(&mut files, "root/a.cpp", body);
    let lines = |r: &Record| r.locations.iter().map(|l| l.line).collect::<Vec<_>>();
    let r = refs(&["draw"], &files, false);
    assert_eq!(lines(&r[0]), vec![1, 2, 3, 4]);
    let r = refs(&["A::draw"], &files, false);
    assert_eq!(lines(&r[0]), vec![1, 3]);
    assert_eq!(r[0].message.as_deref(), Some("Found 2 references."));
    let r = refs(&["A::draw"], &files, true);
    assert_eq!(r[0].contexts.len(), 1);
    assert_eq!(r[0].contexts[0].line, 3);
}

#[test]
fn references_that_are_all_elsewhere_leave_an_empty_list() {
    let mut files: Vec<SourceFile> = Vec::new();
    write(&mut files, "root/b.cpp", "class B { void draw(); };\nvoid g() { B::draw(); }\n");
    let r = refs(&["A::draw"], &files, false);
    assert_eq!(r[0].status, Status::Resolved);
    assert_eq!(r[0].resolution_type, "references");
    assert!(r[0].locations.is_empty());
    assert_eq!(r[0].message.as_deref(), Some("Found 0 references."));
    // Without any hit there is nothing to list.
    assert_eq!(refs(&["A::none"], &files, false)[0].status, Status::NotFound);
}
