use cpp_navigator::engine::{Engine, SyntacticEngine};
use cpp_navigator::interactive::browser::{Browser, Key, Mode, Style};
use cpp_navigator::interactive::editor::{
    open_args, resolve, split_shell, template_for, DEFAULT_TEMPLATE,
};
use cpp_navigator::interactive::hits::{collect_hits, expand_to_lines, files_to_read, FileCache};
use cpp_navigator::interactive::ide::{detect, vscode_uri_path, Ide, Launch, TerminalEnv};
use cpp_navigator::interactive::tree::{
    all_folder_paths, build_tree, build_visible, find_node, splice_collapse, splice_expand, Line, Row,
};
use cpp_navigator::interactive::{no_results, title};
use cpp_navigator::names::NameSet;
use cpp_navigator::output::{
    Candidate, FallbackWindow, Record, RefContext, RefLocation, Status, TextWindow,
};
use cpp_navigator::search::{find_candidates, FinderConfig};
use cpp_navigator::sources::SourceFile;
use std::collections::HashSet;

// Editors ---------------------------------------------------------------------

#[test]
fn templates_match_known_editors() {
    assert_eq!(template_for(&["code".to_string(), "-g".to_string()]), "-g {file}:{line}:{column}");
    assert_eq!(template_for(&["vim".to_string()]), "+{line} {file}");
    assert_eq!(template_for(&["/usr/bin/nvim".to_string()]), "+{line} {file}");
    assert_eq!(template_for(&["unknown-editor".to_string()]), DEFAULT_TEMPLATE);
}

#[test]
fn open_args_substitutes_and_keeps_spaced_paths_single() {
    let argv = open_args(
        &["code".to_string()],
        "-g {file}:{line}:{column}",
        "C:/a dir/file.cpp",
        42,
        1,
    );
    assert_eq!(argv, vec!["code", "-g", "C:/a dir/file.cpp:42:1"]);
}

#[test]
fn split_shell_honors_quotes() {
    assert_eq!(split_shell("code -g"), vec!["code", "-g"]);
    assert_eq!(split_shell("'my editor' --wait"), vec!["my editor", "--wait"]);
}

#[test]
fn split_shell_keeps_empty_quoted_tokens() {
    assert_eq!(split_shell("  a\t\"b 'c'\" '' d"), vec!["a", "b 'c'", "", "d"]);
    assert_eq!(split_shell("a\u{a0}b"), vec!["a", "b"]);
    assert!(split_shell("  ").is_empty());
}

#[test]
fn windows_names_are_recognized() {
    assert_eq!(template_for(&["C:\\bin\\Code.exe".to_string()]), "-g {file}:{line}:{column}");
    assert_eq!(template_for(&["NOTEPAD++.EXE".to_string()]), "-n{line} {file}");
    assert_eq!(template_for(&["notepad.exe".to_string()]), "{file}");
    assert_eq!(template_for(&["zed".to_string()]), "{file}:{line}:{column}");
    assert_eq!(template_for(&[]), DEFAULT_TEMPLATE);
}

#[test]
fn an_empty_template_opens_the_file() {
    assert_eq!(open_args(&["e".to_string()], "", "a b", 3, 1), vec!["e", "a b"]);
    assert_eq!(open_args(&[], "{line}{line}", "x", 7, 1), vec!["77"]);
}

#[test]
fn the_editor_is_resolved_in_order() {
    let (argv, template) = resolve(Some("code -w"), None, Some("vim"), Some("nano"), "vi");
    assert_eq!(argv, vec!["code", "-w"]);
    assert_eq!(template, "-g {file}:{line}:{column}");
    let (argv, _) = resolve(None, None, Some("vim"), Some("nano"), "vi");
    assert_eq!(argv, vec!["vim"]);
    let (argv, _) = resolve(None, None, None, Some("nano"), "vi");
    assert_eq!(argv, vec!["nano"]);
    let (argv, template) = resolve(None, Some("T"), None, None, "vi");
    assert_eq!(argv, vec!["vi"]);
    assert_eq!(template, "T");
}

// IDEs ------------------------------------------------------------------------

#[test]
fn windows_path_becomes_a_valid_vscode_uri_path() {
    assert_eq!(
        vscode_uri_path("C:\\tools\\cpp-navigator\\src\\main.rs"),
        "/C:/tools/cpp-navigator/src/main.rs"
    );
}

#[test]
fn posix_absolute_path_passes_through() {
    assert_eq!(vscode_uri_path("/home/u/proj/main.cpp"), "/home/u/proj/main.cpp");
}

#[test]
fn spaces_and_specials_are_percent_encoded() {
    assert_eq!(vscode_uri_path("C:\\a dir\\f#1.cpp"), "/C:/a%20dir/f%231.cpp");
}

#[test]
fn letters_beyond_ascii_are_encoded_byte_by_byte() {
    assert_eq!(vscode_uri_path("/\u{e9}~"), "/%C3%A9~");
}

#[test]
fn editors_open_lines_in_their_own_way() {
    match Ide::VsCode.open("/a b", 3, 1) {
        Launch::Url(u) => assert_eq!(u, "vscode://file/a%20b:3:1"),
        Launch::Program { .. } => panic!("expected a URL"),
    }
    let jb = Ide::JetBrains { launcher: "clion".to_string(), label: "CLion".to_string() };
    match jb.open("/a", 3, 1) {
        Launch::Program { program, args } => {
            assert_eq!(program, "clion");
            assert_eq!(args, vec!["--line", "3", "/a"]);
        }
        Launch::Url(_) => panic!("expected a program"),
    }
    match Ide::Zed.open("/a", 3, 1) {
        Launch::Program { program, args } => {
            assert_eq!(program, "zed");
            assert_eq!(args, vec!["/a:3:1"]);
        }
        Launch::Url(_) => panic!("expected a program"),
    }
    assert_eq!(jb.label(), "CLion");
    assert_eq!(jb.open_error(), "clion not found on PATH");
    assert_eq!(Ide::Zed.open_error(), "zed not found on PATH (run 'zed: install cli')");
    assert_eq!(Ide::VsCode.open_error(), "could not hand off to VS Code");
}

fn env(term: Option<&str>, emulator: Option<&str>, zed: Option<&str>, service: Option<&str>) -> TerminalEnv {
    TerminalEnv {
        term_program: term.map(|s| s.to_string()),
        terminal_emulator: emulator.map(|s| s.to_string()),
        zed_term: zed.map(|s| s.to_string()),
        service_name: service.map(|s| s.to_string()),
    }
}

#[test]
fn terminals_are_detected() {
    assert!(detect(&env(None, None, None, None), &[]).is_none());
    assert!(matches!(detect(&env(Some("vscode"), None, None, None), &[]), Some(Ide::VsCode)));
    assert!(matches!(detect(&env(Some("zed"), None, None, None), &[]), Some(Ide::Zed)));
    assert!(matches!(detect(&env(None, None, Some("true"), None), &[]), Some(Ide::Zed)));
    let jedi = Some("JetBrains-JediTerm");
    let found = detect(&env(None, jedi, None, Some("com.jetbrains.CLion")), &["idea".to_string()]);
    assert_eq!(found.unwrap().label(), "CLion");
    let found = detect(&env(None, jedi, None, None), &["rider".to_string()]);
    assert_eq!(found.unwrap().label(), "Rider");
    let found = detect(&env(None, jedi, None, Some("other")), &[]);
    assert_eq!(found.unwrap().label(), "JetBrains IDE");
}

// Tree ------------------------------------------------------------------------

type Fingerprint =
    (String, usize, bool, String, bool, usize, bool, Option<usize>, Option<(String, usize)>);

/// Every field of a row that the browser reads.
fn fingerprint(r: &Row) -> Fingerprint {
    (
        r.id.clone(),
        r.depth,
        r.is_folder,
        r.seg.clone(),
        r.is_file_node,
        r.child_count,
        r.expanded,
        r.number,
        r.line.as_ref().map(|l| (l.file.clone(), l.line)),
    )
}

fn sample_lines() -> Vec<Line> {
    let mut lines = Vec::new();
    for d in 0..4 {
        for s in 0..3 {
            for f in 0..3 {
                let file = format!("dir{d}/sub{s}/file_{f}.cpp");
                for n in 0..4 {
                    lines.push(Line {
                        file: file.clone(),
                        line: n + 1,
                        text: format!("{file}:{n}"),
                        anchor: n == 0,
                        label: if n == 0 { Some(format!("[{file}] hit")) } else { None },
                    });
                }
            }
        }
    }
    lines
}

/// A small deterministic generator.
struct Rng(u64);

impl Rng {
    fn next(&mut self) -> u64 {
        let mut x = self.0;
        x ^= x << 13;
        x ^= x >> 7;
        x ^= x << 17;
        self.0 = x;
        x
    }
}

#[test]
fn splice_matches_full_build_under_random_toggles() {
    let root = build_tree(&sample_lines());
    let mut folder_paths = NameSet::new();
    all_folder_paths(&root, &mut folder_paths);

    for seed in 1..=25u64 {
        let mut rng = Rng(seed.wrapping_mul(0x9E3779B97F4A7C15));
        // Start fully expanded, like the browser does.
        let mut expanded = folder_paths.clone();
        let mut rows = build_visible(&root, &expanded);

        for _ in 0..400 {
            // Pick a random folder row to toggle.
            let folder_indices: Vec<usize> =
                rows.iter().enumerate().filter(|(_, r)| r.is_folder).map(|(i, _)| i).collect();
            if folder_indices.is_empty() {
                break;
            }
            let idx = folder_indices[(rng.next() as usize) % folder_indices.len()];
            let path = rows[idx].id.trim_start_matches("F:").to_string();
            if rows[idx].expanded {
                expanded.remove(&path);
                splice_collapse(&mut rows, idx);
            } else {
                expanded.insert(&path);
                splice_expand(&mut rows, idx, &root, &expanded);
            }

            // Must match a from-scratch flatten of the same expanded set.
            let reference = build_visible(&root, &expanded);
            assert_eq!(rows.len(), reference.len(), "seed {seed}: length drift");
            for (i, (a, b)) in rows.iter().zip(reference.iter()).enumerate() {
                assert_eq!(fingerprint(a), fingerprint(b), "seed {seed}: row {i} mismatch");
            }
            // Numbers must be gap-free 1..N.
            let mut expect = 0;
            for r in &rows {
                if let Some(n) = r.number {
                    expect += 1;
                    assert_eq!(n, expect, "seed {seed}: numbering gap");
                }
            }
        }
    }
}

fn line(file: &str, n: usize, anchor: bool) -> Line {
    Line {
        file: file.to_string(),
        line: n,
        text: format!("{file}:{n}"),
        anchor,
        label: if anchor { Some(format!("[{file}] hit")) } else { None },
    }
}

#[test]
fn folders_are_ordered_whatever_the_case() {
    let root = build_tree(&[line("b/x.c", 1, true), line("C\\y.c", 2, true), line("/A/z.c", 3, true)]);
    let mut open = NameSet::new();
    all_folder_paths(&root, &mut open);
    let rows = build_visible(&root, &open);
    let ids: Vec<&str> = rows.iter().filter(|r| r.is_folder).map(|r| r.id.as_str()).collect();
    assert_eq!(ids, vec!["F:A", "F:A/z.c", "F:b", "F:b/x.c", "F:C", "F:C/y.c"]);
    assert_eq!(
        rows[2].id,
        "L:A/z.c\0".to_string() + "00000000000000000003_00000002"
    );
    assert!(find_node(&root, "b/x.c").unwrap().is_file_node());
    assert!(!find_node(&root, "b").unwrap().is_file_node());
    assert!(find_node(&root, "b/none").is_none());
    assert!(find_node(&root, "").is_none());
}

#[test]
fn lines_sort_by_number_then_by_arrival() {
    let root = build_tree(&[line("a.c", 10, true), line("a.c", 9, true), line("a.c", 10, false)]);
    let mut open = NameSet::new();
    open.insert("a.c");
    let rows = build_visible(&root, &open);
    let got: Vec<(usize, bool)> =
        rows.iter().filter_map(|r| r.line.as_ref()).map(|l| (l.line, l.anchor)).collect();
    assert_eq!(got, vec![(9, true), (10, true), (10, false)]);
    // A closed folder hides its lines.
    assert_eq!(build_visible(&root, &NameSet::new()).len(), 1);
}

// Hits ------------------------------------------------------------------------

#[test]
fn not_found_record_yields_no_hits() {
    let rec = Record::not_found("find-def", "NoSuchSymbol");
    assert!(collect_hits(&[rec]).is_empty());
}

fn sample() -> Vec<SourceFile> {
    let widget_h = "class Widget {\npublic:\n    void Draw();\n};\n";
    let widget_cpp = "#include \"widget.h\"\nvoid Widget::Draw() {\n}\n";
    let main_cpp = "int main() {\n    Widget w;\n    w.Draw();\n}\n";
    [("sample/include/widget.h", widget_h), ("sample/widget.cpp", widget_cpp), ("sample/main.cpp", main_cpp)]
        .iter()
        .map(|(p, b)| SourceFile { path: p.to_string(), bytes: b.as_bytes().to_vec() })
        .collect()
}

fn def_record(target: &str) -> Record {
    let files = sample();
    let result = match find_candidates(target, &FinderConfig::default(), &files) {
        Ok(r) => r,
        Err(_) => panic!("the target can be searched for"),
    };
    let eng = SyntacticEngine::new();
    let defs = eng.definitions(target, &result.candidates, &files);
    assert!(!defs.is_empty(), "expected at least one definition for {target}");
    if defs.len() == 1 {
        Record::resolved("find-def", target, "class_definition", &defs[0])
    } else {
        let n = defs.len();
        Record::multi_resolved("find-def", target, "function_definition", &defs, n)
    }
}

fn refs_record(target: &str) -> Record {
    let files = sample();
    let result = match find_candidates(target, &FinderConfig::default(), &files) {
        Ok(r) => r,
        Err(_) => panic!("the target can be searched for"),
    };
    let locations = result
        .candidates
        .iter()
        .map(|c| RefLocation { file: c.file_path.clone(), line: c.line })
        .collect();
    Record::references("find-refs", target, locations, false)
}

#[test]
fn pipeline_produces_unique_ids_and_sequential_jump_numbers() {
    for rec in [def_record("Widget"), refs_record("Widget")] {
        let collected = collect_hits(&[rec]);
        assert!(!collected.is_empty());
        let mut cache = FileCache::new();
        for f in sample() {
            cache.add_file(&f.path, &String::from_utf8(f.bytes).unwrap());
        }
        let lines = expand_to_lines(&collected, &cache);
        assert!(lines.len() >= collected.len());

        let node = build_tree(&lines);
        let mut expanded = NameSet::new();
        all_folder_paths(&node, &mut expanded);
        let rows = build_visible(&node, &expanded);

        let mut ids = HashSet::new();
        for r in &rows {
            assert!(ids.insert(r.id.clone()), "duplicate row id {}", r.id);
        }
        let numbers: Vec<usize> = rows.iter().filter_map(|r| r.number).collect();
        let expected: Vec<usize> = (1..=numbers.len()).collect();
        assert_eq!(numbers, expected, "jump numbers should be 1..=N in display order");

        // Every line row's "collapse to parent folder" target must exist
        // among the folder rows whenever the file is nested in a dir.
        for row in rows.iter().filter(|r| !r.is_folder) {
            let file_path = row.id.trim_start_matches("L:").split('\0').next().unwrap();
            if let Some((parent, _)) = file_path.rsplit_once('/') {
                let target = format!("F:{parent}");
                assert!(
                    rows.iter().any(|r| r.id == target),
                    "missing parent folder row {target} for line {file_path}"
                );
            }
        }
    }
}

#[test]
fn every_shape_of_a_record_has_hits() {
    let refs = Record::references(
        "find-refs",
        "f",
        vec![RefLocation { file: "a.c".to_string(), line: 2 }],
        false,
    );
    let ctx = Record::references_with_context(
        "find-refs",
        "f",
        vec![RefContext {
            file: "a.c".to_string(),
            line: 2,
            scope_start_line: 1,
            scope_end_line: 3,
            content: "x\ny\nz".to_string(),
        }],
        false,
    );
    let amb = Record::ambiguous("find-def", "f", vec![Candidate {
        file_path: "a.c".to_string(),
        line: 4,
        snippet: Some("s".to_string()),
    }]);
    let one = Record::fallback(
        "find-def",
        "f",
        TextWindow {
            file_path: "a.c".to_string(),
            approximate_line: 3,
            before: 5,
            after: 1,
            content_buffer: "w".to_string(),
        },
        "m".to_string(),
    );
    let many = Record::fallback_multi(
        "find-def",
        "f",
        vec![FallbackWindow {
            file_path: "a.c".to_string(),
            approximate_line: 9,
            window_before: 2,
            window_after: 3,
            content_buffer: "w".to_string(),
        }],
        "m".to_string(),
    );
    let mut single = Record::new("find-def", "f", Status::Resolved, "function_definition");
    single.file_path = Some("b.c".to_string());
    single.qualified_name = Some("N::f".to_string());
    single.content = Some("q".to_string());
    let hits = collect_hits(&[refs, ctx, amb, one, many, single]);
    let ranges: Vec<(usize, usize)> = hits.iter().map(|h| (h.start_line, h.end_line)).collect();
    assert_eq!(ranges, vec![(2, 2), (1, 3), (4, 4), (0, 4), (7, 12), (1, 1)]);
    assert_eq!(hits[1].label, "references_with_context (hit at L2)");
    assert_eq!(files_to_read(&hits), vec!["a.c"]);
    let mut cache = FileCache::new();
    cache.add_file("a.c", "first\nsecond\n");
    let lines = expand_to_lines(&hits, &cache);
    assert_eq!(lines[0].text, "second");
    assert_eq!(lines[0].label.as_deref(), Some("[f] references  L2"));
    assert_eq!(lines[2].text, "y");
    assert_eq!(lines[2].line, 2);
    assert!(!lines[2].anchor && lines[2].label.is_none());
    assert_eq!(lines[lines.len() - 1].label.as_deref(), Some("[f] function_definition N::f  L1"));
    assert_eq!(lines[4].label.as_deref(), Some("[f] ambiguous  L4"));
    assert_eq!(lines[5].label.as_deref(), Some("[f] fallback  L0-4"));
}

// Browser ---------------------------------------------------------------------

fn three_file_browser() -> Browser {
    let lines = vec![
        line("a.cpp", 1, true),
        line("a.cpp", 2, false),
        line("b.cpp", 1, true),
        line("b.cpp", 2, false),
        line("c.cpp", 1, true),
    ];
    Browser::new("t".to_string(), lines, None, vec!["true".to_string()], "{file}".to_string())
}

fn cursor_file(b: &Browser) -> &str {
    &b.rows[b.cursor].line.as_ref().unwrap().file
}

#[test]
fn next_prev_file_clamp_without_wrapping() {
    let mut b = three_file_browser();
    assert_eq!(cursor_file(&b), "a.cpp");

    b.prev_file();
    assert_eq!(b.status, "already on the first file");
    assert_eq!(cursor_file(&b), "a.cpp");

    b.next_file();
    assert_eq!(cursor_file(&b), "b.cpp");
    assert_eq!(b.rows[b.cursor].line.as_ref().unwrap().line, 1);

    b.next_file();
    assert_eq!(cursor_file(&b), "c.cpp");

    b.next_file();
    assert_eq!(b.status, "already on the last file");
    assert_eq!(cursor_file(&b), "c.cpp");

    b.prev_file();
    assert_eq!(cursor_file(&b), "b.cpp");
    b.prev_file();
    assert_eq!(cursor_file(&b), "a.cpp");
    b.prev_file();
    assert_eq!(b.status, "already on the first file");
    assert_eq!(cursor_file(&b), "a.cpp");
}

#[test]
fn next_file_expands_a_folded_file() {
    let mut b = three_file_browser();
    b.expanded.remove("b.cpp");
    b.rebuild();
    assert_eq!(cursor_file(&b), "a.cpp");

    b.next_file();
    assert!(b.expanded.contains("b.cpp"), "next_file should expand the folded file");
    assert_eq!(cursor_file(&b), "b.cpp");
}

#[test]
fn keys_move_fold_and_quit() {
    let mut b = three_file_browser();
    assert_eq!((b.rows.len(), b.cursor, b.line_count, b.file_count), (8, 1, 5, 3));
    assert!(b.handle_key(Key::Home).is_none());
    assert_eq!(b.cursor, 0);
    b.handle_key(Key::Up);
    assert_eq!(b.cursor, 0);
    b.handle_key(Key::Left);
    assert_eq!(b.rows.len(), 6);
    assert_eq!(b.line_count, 3);
    b.handle_key(Key::Char('l'));
    assert_eq!(b.rows.len(), 8);
    b.handle_key(Key::Right);
    assert_eq!(b.cursor, 1);
    b.handle_key(Key::Char('G'));
    assert_eq!(b.cursor, 7);
    b.handle_key(Key::Down);
    assert_eq!(b.cursor, 7);
    let open = b.handle_key(Key::Enter).unwrap();
    assert_eq!((open.file.as_str(), open.line), ("c.cpp", 1));
    assert!(!b.quit);
    b.handle_key(Key::Char('q'));
    assert!(b.quit);
}

#[test]
fn a_number_jumps_to_its_line() {
    let mut b = three_file_browser();
    b.handle_key(Key::Char(':'));
    b.handle_key(Key::Char('4'));
    assert_eq!(b.rows[b.cursor].number, Some(4));
    b.handle_key(Key::Char('2'));
    // Past the last number, the last line.
    assert_eq!(b.rows[b.cursor].number, Some(5));
    b.handle_key(Key::Backspace);
    assert_eq!(b.rows[b.cursor].number, Some(4));
    b.handle_key(Key::Enter);
    assert!(!b.jump_active);
    b.handle_key(Key::Char(':'));
    for _ in 0..30 {
        b.handle_key(Key::Char('9'));
    }
    // A number that is too large counts as zero.
    assert_eq!(b.rows[b.cursor].number, Some(1));
    // Another key ends the number and acts.
    b.handle_key(Key::Char('j'));
    assert!(!b.jump_active);
    assert_eq!(b.rows[b.cursor].number, Some(2));
}

#[test]
fn a_filter_selects_lines_whatever_the_case() {
    let mut b = three_file_browser();
    b.handle_key(Key::Char('/'));
    assert_eq!(b.mode, Mode::Filter);
    for c in "B.CPP".chars() {
        b.handle_key(Key::Char(c));
    }
    assert_eq!((b.line_count, b.file_count), (2, 1));
    assert_eq!(cursor_file(&b), "b.cpp");
    b.handle_key(Key::Enter);
    assert_eq!(b.mode, Mode::Browse);
    b.handle_key(Key::Char('/'));
    b.handle_key(Key::Backspace);
    assert_eq!(b.query, "B.CP");
    b.handle_key(Key::Char('#'));
    assert_eq!(b.rows.len(), 0);
    b.handle_key(Key::Esc);
    assert_eq!(b.line_count, 5);
    assert_eq!(b.mode, Mode::Browse);
}

#[test]
fn stepping_out_of_a_line_goes_to_the_directory() {
    let mut b = Browser::new(
        "t".to_string(),
        vec![line("src/a.cpp", 1, true)],
        None,
        vec![],
        String::new(),
    );
    assert_eq!(b.cursor, 2);
    b.handle_key(Key::Char('h'));
    assert_eq!(b.rows[b.cursor].id, "F:src");
    // In a file at the top there is nowhere to go.
    let mut c = three_file_browser();
    c.handle_key(Key::Char('h'));
    assert_eq!(c.cursor, 1);
}

#[test]
fn lines_are_launched_and_reported() {
    let mut b = three_file_browser();
    let l = b.handle_key(Key::Enter).unwrap();
    match b.launch("/abs/a.cpp", l.line).unwrap() {
        Launch::Program { program, args } => {
            assert_eq!(program, "true");
            assert_eq!(args, vec!["/abs/a.cpp"]);
        }
        Launch::Url(_) => panic!("expected a program"),
    }
    b.opened("/abs/a.cpp", &l, Ok(()));
    assert_eq!(b.status, "opened a.cpp:1");
    b.opened("/abs/a.cpp", &l, Err("gone".to_string()));
    assert_eq!(b.status, "could not open editor true: gone");
    b.ide = Some(Ide::Zed);
    b.opened("/abs/a.cpp", &l, Ok(()));
    assert_eq!(b.status, "opened a.cpp:1 in Zed");
    b.opened("/abs/a.cpp", &l, Err("gone".to_string()));
    assert_eq!(b.status, "zed not found on PATH (run 'zed: install cli')");
    match b.launch("/abs/a.cpp", 7).unwrap() {
        Launch::Program { args, .. } => assert_eq!(args, vec!["/abs/a.cpp:7:1"]),
        Launch::Url(_) => panic!("expected a program"),
    }
}

#[test]
fn a_command_that_is_all_template_is_named_when_it_fails() {
    let mut b = Browser::new(
        "t".to_string(),
        vec![line("a.cpp", 3, true)],
        None,
        vec![],
        "less +{line} {file}".to_string(),
    );
    let l = b.handle_key(Key::Enter).unwrap();
    b.opened("/abs/a.cpp", &l, Err("gone".to_string()));
    assert_eq!(b.status, "could not open editor less: gone");
    // Without a template the file itself stands first.
    b.line_template = String::new();
    b.opened("/abs/a.cpp", &l, Err("gone".to_string()));
    assert_eq!(b.status, "could not open editor /abs/a.cpp: gone");
}

#[test]
fn a_frame_shows_the_rows_around_the_cursor() {
    let mut b = three_file_browser();
    let f = b.render(40, 7);
    assert_eq!(f.header.text, " t    [BROWSE]    5 lines in 3 files    ");
    assert_eq!(f.header.style, Style::Bold);
    assert_eq!(f.rule.len(), 40);
    assert_eq!(f.rows.len(), 3);
    assert_eq!(f.blank, 0);
    assert_eq!(f.rows[0].text, "      \u{25be} a.cpp (2)                       ");
    assert_eq!(f.rows[0].style, Style::File);
    assert_eq!(f.rows[1].style, Style::Reverse);
    assert_eq!(f.rows[1].text, "   1      1    [a.cpp] hit  | a.cpp:1   ");
    assert_eq!(f.rows[2].style, Style::Detail);
    assert_eq!(f.footer, " j/k move * n/p file * Enter open * h/l ");
    b.handle_key(Key::End);
    let f = b.render(10, 7);
    assert_eq!(b.top, 5);
    assert_eq!(f.rows[2].style, Style::Reverse);
    let f = b.render(10, 50);
    assert_eq!((b.top, f.rows.len(), f.blank), (0, 8, 38));
    b.handle_key(Key::Char('/'));
    b.handle_key(Key::Char('x'));
    let f = b.render(60, 50);
    assert_eq!(f.footer, " filter: x    Enter apply * Esc clear");
    assert_eq!(f.header.text.trim_end(), " t    [FILTER]    0 lines in 0 files");
}

#[test]
fn titles_name_the_command_and_its_targets() {
    let targets = vec!["a".to_string(), "b".to_string()];
    assert_eq!(title("find-def", &targets), "cpp-navigator find-def a b");
    assert_eq!(no_results("find-def", &targets), "cpp-navigator: no results for find-def a b");
}

#[test]
fn a_folder_named_like_a_row_mark_opens_and_closes() {
    let root = build_tree(&[Line {
        file: "F:/a.cpp".to_string(),
        line: 1,
        text: "x".to_string(),
        anchor: true,
        label: None,
    }]);
    let mut open = NameSet::new();
    let mut rows = build_visible(&root, &open);
    assert_eq!(rows.len(), 1);
    assert_eq!(rows[0].id, "F:F:");
    open.insert("F:");
    splice_expand(&mut rows, 0, &root, &open);
    assert_eq!(rows.len(), 2);
    assert_eq!(rows[0].id, "F:F:");
    assert!(rows[0].expanded);
    assert_eq!(rows[1].id, "F:F:/a.cpp");
    assert_eq!(rows[1].depth, 1);
    assert!(rows[1].is_file_node);
    assert!(!rows[1].expanded);
    splice_collapse(&mut rows, 0);
    assert_eq!(rows.len(), 1);
    assert!(!rows[0].expanded);
}

#[test]
fn keys_step_through_a_drive_named_like_a_row_mark() {
    let mut b = Browser::new(
        "t".to_string(),
        vec![line("F:/L:/a.cpp", 1, true)],
        None,
        vec![],
        String::new(),
    );
    assert_eq!(b.rows.len(), 4);
    assert_eq!(b.cursor, 3);
    b.handle_key(Key::Char('h'));
    assert_eq!(b.rows[b.cursor].id, "F:F:/L:");
    b.handle_key(Key::Char('h'));
    assert_eq!(b.rows.len(), 2);
    b.handle_key(Key::Char('l'));
    assert_eq!(b.rows.len(), 4);
    b.handle_key(Key::Char('h'));
    b.handle_key(Key::Char('h'));
    assert_eq!(b.rows[b.cursor].id, "F:F:");
}

#[test]
fn an_open_tree_shows_every_line_once() {
    let lines = vec![
        line("b/x.c", 7, true),
        line("b\\x.c", 7, false),
        line("b/x.c", 3, true),
        line("a.c", 10, true),
        line("a.c", 9, true),
        line("b/x.c", 3, true),
    ];
    let root = build_tree(&lines);
    let mut open = NameSet::new();
    all_folder_paths(&root, &mut open);
    let rows = build_visible(&root, &open);
    let shown: Vec<(String, usize, bool, usize)> = rows
        .iter()
        .filter(|r| !r.is_folder)
        .map(|r| {
            let l = r.line.as_ref().unwrap();
            (l.file.clone(), l.line, l.anchor, r.number.unwrap())
        })
        .collect();
    let expected = [
        ("a.c", 9, true, 1),
        ("a.c", 10, true, 2),
        ("b/x.c", 3, true, 3),
        ("b/x.c", 3, true, 4),
        ("b/x.c", 7, true, 5),
        ("b\\x.c", 7, false, 6),
    ];
    assert_eq!(shown.len(), lines.len());
    for (got, want) in shown.iter().zip(expected) {
        assert_eq!((got.0.as_str(), got.1, got.2, got.3), want);
    }
}

#[test]
fn a_line_can_hide_a_file_of_the_same_name() {
    let lines = vec![line("a.c", 1, true), line("a.c/00000000000000000001_00000000/x.c", 2, true)];
    let root = build_tree(&lines);
    let mut open = NameSet::new();
    all_folder_paths(&root, &mut open);
    let rows = build_visible(&root, &open);
    assert_eq!(rows.iter().filter(|r| !r.is_folder).count(), 1);
}

#[test]
fn a_path_in_a_url_can_be_decoded() {
    for path in ["/a b/\u{e9}%41.cpp", "C:\\x\\y+z.h", ""] {
        let url = vscode_uri_path(path);
        let mut bytes = Vec::new();
        let mut rest = url.as_str();
        while let Some(c) = rest.chars().next() {
            if c == '%' {
                bytes.push(u8::from_str_radix(&rest[1..3], 16).unwrap());
                rest = &rest[3..];
            } else {
                bytes.push(c as u8);
                rest = &rest[1..];
            }
        }
        let forward = path.replace('\\', "/");
        let expected = if forward.starts_with('/') { forward } else { format!("/{forward}") };
        assert_eq!(String::from_utf8(bytes).unwrap(), expected);
    }
}

#[test]
fn hits_of_batches_join() {
    let one = vec![def_record("Draw"), Record::not_found("find-def", "none")];
    let two = vec![refs_record("Draw")];
    let first = collect_hits(&one);
    let second = collect_hits(&two);
    let both: Vec<Record> = one.into_iter().chain(two).collect();
    let joined = collect_hits(&both);
    assert_eq!(joined.len(), first.len() + second.len());
    for (a, b) in joined.iter().zip(first.iter().chain(second.iter())) {
        assert_eq!((&a.target, &a.file, a.start_line, &a.label), (&b.target, &b.file, b.start_line, &b.label));
    }
}
