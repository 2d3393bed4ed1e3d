use cpp_navigator::engine::macros::{collect_defines, neutralize, unconfirmed_annotations};
use cpp_navigator::names::NameSet;

fn set(names: &[&str]) -> NameSet {
    let owned: Vec<String> = names.iter().map(|s| s.to_string()).collect();
    NameSet::from_names(&owned)
}

/// Blank using only an annotation set.
fn neu_annot(src: &str, names: &[&str]) -> Option<String> {
    neutralize(src.as_bytes(), &NameSet::new(), &set(names)).map(|b| String::from_utf8(b).unwrap())
}

#[test]
fn blanks_confirmed_macro_in_annotation_position() {
    let src = "static CWideStr LIB_API Foo(int a);";
    let out = neu_annot(src, &["LIB_API"]).unwrap();
    assert_eq!(out.len(), src.len());
    assert!(!out.contains("LIB_API"));
    assert!(out.starts_with("static CWideStr "));
    assert!(out.ends_with(" Foo(int a);"));
    assert_eq!(out.replace(' ', ""), "staticCWideStrFoo(inta);");
}

#[test]
fn does_not_blank_unconfirmed_uppercase_token() {
    assert!(neu_annot("static CStr LIB_API Foo(int a);", &[]).is_none());
}

#[test]
fn does_not_blank_confirmed_macro_outside_annotation_position() {
    assert!(neu_annot("int x = PI * r;", &["PI"]).is_none());
}

#[test]
fn global_macro_is_blanked_everywhere() {
    let src = "class LibExport Widget;";
    let out = String::from_utf8(
        neutralize(src.as_bytes(), &set(&["LibExport"]), &NameSet::new()).unwrap(),
    )
    .unwrap();
    assert_eq!(out, "class           Widget;");
}

#[test]
fn leaves_lone_uppercase_return_type_alone() {
    assert!(neu_annot("BOOL Foo(int a);", &["BOOL"]).is_none());
}

#[test]
fn collect_defines_harvests_names() {
    let mut out = NameSet::new();
    collect_defines(
        b"#define LIB_API __declspec(dllimport)\n#  define FOO(x) ((x)+1)\nint defined_elsewhere;\n",
        &mut out,
    );
    assert!(out.contains("LIB_API"));
    assert!(out.contains("FOO"));
    assert_eq!(out.len(), 2);
}

#[test]
fn unconfirmed_annotations_reports_uppercase_not_defined() {
    let src = "static CStr LIB_API Foo(int a);\nstatic CStr KNOWN Bar();";
    let confirmed = set(&["KNOWN"]);
    let got = unconfirmed_annotations(src.as_bytes(), &confirmed);
    assert_eq!(got, vec!["LIB_API".to_string()]);
}

#[test]
fn unconfirmed_annotations_respects_file_defines() {
    let src = "#define LIB_API\nstatic CStr LIB_API Foo(int a);";
    assert!(unconfirmed_annotations(src.as_bytes(), &NameSet::new()).is_empty());
}

#[test]
fn does_not_blank_inside_strings_or_comments() {
    assert!(neu_annot("const char* s = \"int M Foo(\"; // int M Bar(", &["M"]).is_none());
}

#[test]
fn block_comments_and_directives_are_skipped() {
    assert!(neu_annot("/* int M Foo( */ #", &["M"]).is_none());
    assert!(neu_annot("#if int M \\\n int M Foo(\n", &["M"]).is_none());
    // After the directive ends, scanning goes on.
    let out = neu_annot("#if 1\nint M Foo();", &["M"]).unwrap();
    assert_eq!(out, "#if 1\nint   Foo();");
}

#[test]
fn scope_and_pointer_tokens_end_a_type() {
    assert_eq!(neu_annot("char* M F();", &["M"]).unwrap(), "char*   F();");
    assert_eq!(neu_annot("std::M F();", &["M"]).unwrap(), "std::  F();");
    assert_eq!(neu_annot("vector<int> M F();", &["M"]).unwrap(), "vector<int>   F();");
}

#[test]
fn unterminated_literals_and_comments_end_the_scan() {
    assert!(neu_annot("int M \"abc\\", &["M"]).is_none());
    assert!(neu_annot("int M /*", &["M"]).is_none());
    // A literal that is not closed ends at its line.
    assert_eq!(neu_annot("'x\nint M F();", &["M"]).unwrap(), "'x\nint   F();");
}

#[test]
fn unconfirmed_names_come_once_in_order() {
    let src = "int BB f(); int AA g(); int BB h(); int Cc i(); int X j();";
    let got = unconfirmed_annotations(src.as_bytes(), &NameSet::new());
    assert_eq!(got, vec!["BB".to_string(), "AA".to_string()]);
}

#[test]
fn define_needs_a_word_and_a_name() {
    let mut out = NameSet::new();
    collect_defines(b"#defined X\n#define 9X\n#define\n # define  Y\r\n#undef Z\n", &mut out);
    assert_eq!(out.len(), 1);
    assert!(out.contains("Y"));
}

#[test]
fn blanking_keeps_lines_where_they_are() {
    let src = "int\nM\nF();\n";
    let out = neu_annot(src, &["M"]).unwrap();
    assert_eq!(out, "int\n \nF();\n");
}

#[test]
fn name_sets_add_and_remove() {
    let mut s = set(&["a", "b", "a"]);
    assert_eq!(s.len(), 2);
    assert!(!s.insert("a"));
    assert!(s.insert("c"));
    assert!(s.remove("a"));
    assert!(!s.remove("a"));
    assert!(!s.contains("a") && s.contains("b") && s.contains("c"));
    let copy = s.clone();
    assert!(copy.contains("b") && !copy.is_empty());
    assert!(NameSet::new().is_empty());
}

#[test]
fn a_reported_name_is_blanked_once_it_is_adopted() {
    let src = "int BB f(); int AA g(); int BB h(); BB x;";
    for name in unconfirmed_annotations(src.as_bytes(), &NameSet::new()) {
        let out = neu_annot(src, &[&name]).unwrap();
        assert!(out.matches(&name).count() < src.matches(&name).count());
    }
    assert_eq!(neu_annot(src, &["BB"]).unwrap(), "int    f(); int AA g(); int    h(); BB x;");
}
