use cpp_navigator::search::{
    bare_component, candidates_from, default_extensions, discover_defines, find_candidates, Candidate,
    FinderConfig, Gathering, MatchedLine,
};
use cpp_navigator::sources::SourceFile;
use std::collections::HashSet;

fn write(files: &mut Vec<SourceFile>, name: &str, body: &str) {
    files.push(SourceFile { path: format!("root/{name}"), bytes: body.as_bytes().to_vec() });
}

fn cfg() -> FinderConfig {
    FinderConfig { roots: vec!["root".to_string()], ..Default::default() }
}

#[test]
fn prefers_headers_when_available() {
    let mut files = Vec::new();
    write(&mut files, "a.cpp", "int needle;\n");
    write(&mut files, "a.hpp", "int needle;\n");
    let mut c = cfg();
    c.prefer_headers = true;
    let res = find_candidates("needle", &c, &files).unwrap();
    assert_eq!(res.candidates.len(), 1);
    assert!(res.candidates[0].file_path.ends_with("a.hpp"));
}

#[test]
fn falls_back_to_sources_when_no_header() {
    let mut files = Vec::new();
    write(&mut files, "a.cpp", "int needle;\n");
    let mut c = cfg();
    c.prefer_headers = true;
    let res = find_candidates("needle", &c, &files).unwrap();
    assert_eq!(res.candidates.len(), 1);
    assert!(res.candidates[0].file_path.ends_with("a.cpp"));
}

#[test]
fn bare_component_strips_qualifiers() {
    assert_eq!(bare_component("A::B::f"), "f");
    assert_eq!(bare_component("f"), "f");
    assert_eq!(bare_component("operator=="), "operator==");
}

#[test]
fn finds_whole_word_only() {
    let mut files = Vec::new();
    write(&mut files, "a.cpp", "int foo = 1;\nint foobar = 2;\nfoo();\n");
    let res = find_candidates("foo", &cfg(), &files).unwrap();
    // Lines 1 and 3 mention `foo`; line 2's `foobar` must not match.
    assert_eq!(res.candidates.len(), 2);
    assert_eq!(res.candidates[0].line, 1);
    assert_eq!(res.candidates[1].line, 3);
    assert!(!res.truncated);
}

#[test]
fn qualified_target_matches_bare_use() {
    let mut files = Vec::new();
    write(&mut files, "a.cpp", "void ParseNode() {}\n");
    let res = find_candidates("ast::ParseNode", &cfg(), &files).unwrap();
    assert_eq!(res.candidates.len(), 1);
    assert_eq!(res.candidates[0].line, 1);
}

#[test]
fn respects_extension_filter() {
    let mut files = Vec::new();
    write(&mut files, "a.cpp", "int target;\n");
    write(&mut files, "b.txt", "int target;\n");
    write(&mut files, "c.py", "target = 1\n");
    let res = find_candidates("target", &cfg(), &files).unwrap();
    assert_eq!(res.candidates.len(), 1);
    assert!(res.candidates[0].file_path.ends_with("a.cpp"));
}

#[test]
fn caps_distinct_files_and_marks_truncated() {
    let mut files = Vec::new();
    for i in 0..10 {
        write(&mut files, &format!("f{i}.cpp"), "int hit;\n");
    }
    let mut c = cfg();
    c.max_candidates = 3;
    let res = find_candidates("hit", &c, &files).unwrap();
    assert!(res.truncated);
    // Distinct files are capped at 3.
    let distinct: HashSet<_> = res.candidates.iter().map(|c| &c.file_path).collect();
    assert_eq!(distinct.len(), 3);
}

#[test]
fn not_found_is_empty_not_error() {
    let mut files = Vec::new();
    write(&mut files, "a.cpp", "int other;\n");
    let res = find_candidates("missing", &cfg(), &files).unwrap();
    assert!(res.candidates.is_empty());
    assert!(!res.truncated);
}

#[test]
fn exactly_as_many_files_as_the_cap_is_not_truncated() {
    let mut files = Vec::new();
    for i in 0..3 {
        write(&mut files, &format!("f{i}.cpp"), "int hit;\n");
    }
    let mut c = cfg();
    c.max_candidates = 3;
    let res = find_candidates("hit", &c, &files).unwrap();
    assert!(!res.truncated);
    assert_eq!(res.candidates.len(), 3);
}

#[test]
fn candidates_carry_line_offset_and_snippet() {
    let mut files = Vec::new();
    write(&mut files, "a.cpp", "one\r\n  two hit  \r\nthree hit");
    let res = find_candidates("hit", &cfg(), &files).unwrap();
    assert_eq!(res.candidates.len(), 2);
    assert_eq!(res.candidates[0].line, 2);
    assert_eq!(res.candidates[0].byte_offset, 5);
    assert_eq!(res.candidates[0].snippet, "  two hit  ");
    assert_eq!(res.candidates[1].line, 3);
    assert_eq!(res.candidates[1].byte_offset, 18);
    assert_eq!(res.candidates[1].snippet, "three hit");
}

#[test]
fn candidates_come_in_order_of_path_and_offset() {
    let mut files = Vec::new();
    write(&mut files, "b.cpp", "hit\nhit\n");
    write(&mut files, "a/z.cpp", "hit\n");
    write(&mut files, "a.cpp", "hit\n");
    let res = find_candidates("hit", &cfg(), &files).unwrap();
    let got: Vec<(String, usize)> =
        res.candidates.iter().map(|c| (c.file_path.clone(), c.line)).collect();
    assert_eq!(
        got,
        vec![
            ("root/a/z.cpp".to_string(), 1),
            ("root/a.cpp".to_string(), 1),
            ("root/b.cpp".to_string(), 1),
            ("root/b.cpp".to_string(), 2),
        ]
    );
}

#[test]
fn the_needle_is_taken_literally() {
    let mut files = Vec::new();
    write(&mut files, "a.cpp", "int axc;\nint a.c;\n");
    let res = find_candidates("a.c", &cfg(), &files).unwrap();
    assert_eq!(res.candidates.len(), 1);
    assert_eq!(res.candidates[0].line, 2);
}

#[test]
fn invalid_text_is_searched_and_shown_lossily() {
    let files =
        vec![SourceFile { path: "root/a.cpp".to_string(), bytes: b"\xff hit\n".to_vec() }];
    let res = find_candidates("hit", &cfg(), &files).unwrap();
    assert_eq!(res.candidates[0].snippet, "\u{fffd} hit");
}

#[test]
fn a_pattern_that_is_too_large_is_an_error() {
    let files = Vec::new();
    let target = "x".repeat(5_000_000);
    let res = find_candidates(&target, &cfg(), &files);
    match res {
        Ok(_) => panic!("expected an error"),
        Err(e) => assert_eq!(e.needle.len(), target.len()),
    }
}

#[test]
fn defines_are_discovered_in_searched_files_only() {
    let mut files = Vec::new();
    write(&mut files, "a.h", "#define ONE 1\n");
    write(&mut files, "b.inl", "#define TWO 2\n");
    write(&mut files, "c.txt", "#define THREE 3\n");
    let found = discover_defines(&cfg(), &files);
    assert_eq!(found.len(), 2);
    assert!(found.contains("ONE") && found.contains("TWO"));
    assert_eq!(default_extensions().len(), 9);
}

#[test]
fn hidden_names_and_bare_dots_have_no_extension() {
    let mut files = Vec::new();
    write(&mut files, ".cpp", "int hit;\n");
    write(&mut files, "cpp", "int hit;\n");
    write(&mut files, "a.cpp/", "int hit;\n");
    let res = find_candidates("hit", &cfg(), &files).unwrap();
    assert_eq!(res.candidates.len(), 1);
    assert_eq!(res.candidates[0].file_path, "root/a.cpp/");
}

#[test]
fn gathering_stops_at_the_cap() {
    let hit = |path: &str| {
        vec![Candidate {
            file_path: path.to_string(),
            line: 1,
            byte_offset: 0,
            snippet: String::new(),
        }]
    };
    let mut g = Gathering::new();
    g.add_hits("a.c", vec![], 1);
    g.add_hits("a.c", hit("a.c"), 1);
    assert!(!g.truncated);
    assert_eq!(g.files, vec!["a.c"]);
    g.add_hits("b.c", hit("b.c"), 1);
    g.add_hits("c.c", hit("c.c"), 9);
    assert!(g.truncated);
    assert_eq!(g.candidates.len(), 1);
    // One file under two spellings counts once.
    let mut g = Gathering::new();
    g.add_hits("d/a.c", hit("d/a.c"), 2);
    g.add_hits("d//./a.c", hit("d//./a.c"), 2);
    assert_eq!((g.files.len(), g.candidates.len()), (1, 2));
}

#[test]
fn matching_lines_become_candidates() {
    let file = SourceFile { path: "a.c".to_string(), bytes: b"x\ny\nz".to_vec() };
    let lines = vec![
        MatchedLine { line: 3, text: "z\r\n".to_string() },
        MatchedLine { line: 9, text: "q".to_string() },
    ];
    let c = candidates_from(&file, &lines);
    assert_eq!((c[0].line, c[0].byte_offset, c[0].snippet.as_str()), (3, 4, "z"));
    assert_eq!((c[1].line, c[1].byte_offset), (9, 5));
}

#[test]
fn names_of_operators_are_found() {
    let files =
        vec![SourceFile { path: "a.cpp".to_string(), bytes: b"bool operator==(const A& o);\n".to_vec() }];
    let res = find_candidates("operator==", &FinderConfig::default(), &files).unwrap();
    assert!(!res.truncated);
    assert_eq!(res.candidates.len(), 1);
    assert_eq!(res.candidates[0].file_path, "a.cpp");
    assert_eq!(res.candidates[0].line, 1);
    assert_eq!(res.candidates[0].byte_offset, 0);
    assert_eq!(res.candidates[0].snippet, "bool operator==(const A& o);");
    // A name that starts with no word character, and one inside a longer word.
    let mut files = Vec::new();
    write(&mut files, "a.cpp", "W::~W() {}\nmyoperator==(1);\n~W2();\n");
    let res = find_candidates("W::~W", &cfg(), &files).unwrap();
    assert_eq!(res.candidates.iter().map(|c| c.line).collect::<Vec<_>>(), vec![1]);
    assert!(find_candidates("operator==", &cfg(), &files).unwrap().candidates.is_empty());
}

#[test]
fn an_empty_name_is_found_at_words() {
    let mut files = Vec::new();
    write(&mut files, "a.cpp", "word\n\n+\nmore\n");
    let res = find_candidates("A::", &cfg(), &files).unwrap();
    assert_eq!(res.candidates.iter().map(|c| c.line).collect::<Vec<_>>(), vec![1, 4]);
}

#[test]
fn lines_of_wide_text_are_placed_in_the_file() {
    let text = "int \u{10a}a;\nint hit;\n\u{a00} hit\n";
    let mut low = vec![0xff, 0xfe];
    let mut high = vec![0xfe, 0xff];
    for unit in text.encode_utf16() {
        low.push((unit & 0xff) as u8);
        low.push((unit >> 8) as u8);
        high.push((unit >> 8) as u8);
        high.push((unit & 0xff) as u8);
    }
    for bytes in [low, high] {
        let files = vec![SourceFile { path: "a.cpp".to_string(), bytes }];
        let res = find_candidates("hit", &cfg(), &files).unwrap();
        let got: Vec<(usize, usize, &str)> =
            res.candidates.iter().map(|c| (c.line, c.byte_offset, c.snippet.as_str())).collect();
        assert_eq!(got, vec![(2, 18, "int hit;"), (3, 36, "\u{a00} hit")]);
    }
}
