use cpp_navigator::engine::outline::Mode;
use cpp_navigator::engine::syntactic::{
    class_in_tree, distinct_files_of, function_in_tree, prefers_recovered, qualified_compatible, resolutions_in_tree,
};
use cpp_navigator::engine::syntax::{tree_of_nodes, RawNode};
use cpp_navigator::engine::{Engine, SyntacticEngine};
use cpp_navigator::model::Kind;
use cpp_navigator::search::Candidate;
use cpp_navigator::sources::SourceFile;

fn file(name: &str, body: &str) -> Vec<SourceFile> {
    vec![SourceFile { path: name.to_string(), bytes: body.as_bytes().to_vec() }]
}

fn candidates_for(files: &[SourceFile]) -> Vec<Candidate> {
    vec![Candidate {
        file_path: files[0].path.clone(),
        line: 1,
        byte_offset: 0,
        snippet: String::new(),
    }]
}

#[test]
fn finds_function_definition_with_exact_bytes() {
    let body = "int add(int a, int b) {\n    return a + b;\n}\n";
    let files = file("a.cpp", body);
    let eng = SyntacticEngine::new();
    let res = eng.definitions("add", &candidates_for(&files), &files);
    assert_eq!(res.len(), 1);
    let r = &res[0];
    // Byte-fidelity: re-slice from disk equals reported content.
    let disk = body.as_bytes();
    let slice = &disk[r.source_ref.span.start_byte..r.source_ref.span.end_byte];
    assert_eq!(slice, r.content_bytes.as_slice());
    assert_eq!(r.content_bytes, b"int add(int a, int b) {\n    return a + b;\n}");
    assert_eq!(r.symbol.kind, Kind::Function);
}

#[test]
fn overloads_yield_multiple_matches() {
    let body = "void f(int a) {}\nvoid f(double a) {}\n";
    let files = file("a.cpp", body);
    let eng = SyntacticEngine::new();
    let res = eng.definitions("f", &candidates_for(&files), &files);
    assert_eq!(res.len(), 2);
}

#[test]
fn template_span_includes_prefix() {
    let body = "template <typename T>\nT identity(T x) {\n    return x;\n}\n";
    let files = file("a.cpp", body);
    let eng = SyntacticEngine::new();
    let res = eng.definitions("identity", &candidates_for(&files), &files);
    assert_eq!(res.len(), 1);
    assert_eq!(res[0].symbol.kind, Kind::Template);
    // Span starts at the `template` keyword, not at `T identity`.
    assert_eq!(res[0].source_ref.span.start_line, 1);
    assert!(String::from_utf8_lossy(&res[0].content_bytes).starts_with("template"));
}

#[test]
fn qualified_target_matches_out_of_line_def() {
    let body = "void Foo::bar() {\n    return;\n}\n";
    let files = file("a.cpp", body);
    let eng = SyntacticEngine::new();
    assert_eq!(eng.definitions("Foo::bar", &candidates_for(&files), &files).len(), 1);
    assert_eq!(eng.definitions("bar", &candidates_for(&files), &files).len(), 1);
    // A wrong qualifier must not match.
    assert_eq!(eng.definitions("Baz::bar", &candidates_for(&files), &files).len(), 0);
}

#[test]
fn declaration_carries_signature_and_doc() {
    let body = "/// Allocate the global pool.\nvoid InitPool(size_t n);\n";
    let files = file("a.hpp", body);
    let eng = SyntacticEngine::new();
    let res = eng.declarations("InitPool", &candidates_for(&files), &files);
    assert_eq!(res.len(), 1);
    let s = &res[0].symbol;
    assert_eq!(s.signature.as_deref(), Some("void InitPool(size_t n);"));
    assert_eq!(s.doc.as_deref(), Some("/// Allocate the global pool."));
    assert_eq!(s.type_spelling.as_deref(), Some("void(size_t)"));
}

#[test]
fn declaration_content_includes_leading_comment() {
    // The `content` payload must start at the doc comment, not the
    // declaration keyword, so LLMs get the full context in one field.
    let body = "/// Allocate the global pool.\nvoid InitPool(size_t n);\n";
    let files = file("a.hpp", body);
    let eng = SyntacticEngine::new();
    let res = eng.declarations("InitPool", &candidates_for(&files), &files);
    assert_eq!(res.len(), 1);
    let content = String::from_utf8_lossy(&res[0].content_bytes);
    assert!(content.starts_with("/// Allocate"), "content should start with the doc comment");
    assert!(content.contains("void InitPool"), "content should include the declaration");
    // Byte-fidelity: re-slice from disk equals reported content.
    let disk = body.as_bytes();
    let span = &res[0].source_ref.span;
    assert_eq!(&disk[span.start_byte..span.end_byte], res[0].content_bytes.as_slice());
    assert_eq!(span.start_line, 1, "span should start at the comment line");
}

#[test]
fn definition_content_includes_leading_comment() {
    // Definitions also extend their span to cover the leading comment.
    let body = "/// Compute the sum.\nint add(int a, int b) {\n    return a + b;\n}\n";
    let files = file("a.cpp", body);
    let eng = SyntacticEngine::new();
    let res = eng.definitions("add", &candidates_for(&files), &files);
    assert_eq!(res.len(), 1);
    let content = String::from_utf8_lossy(&res[0].content_bytes);
    assert!(content.starts_with("/// Compute"), "definition content should start with comment");
    assert!(content.contains("return a + b"), "definition content should include body");
    // Byte-fidelity.
    let disk = body.as_bytes();
    let span = &res[0].source_ref.span;
    assert_eq!(&disk[span.start_byte..span.end_byte], res[0].content_bytes.as_slice());
    assert_eq!(span.start_line, 1);
}

#[test]
fn no_comment_span_is_unchanged() {
    // When there is no leading comment the span and content are as before.
    let body = "void InitPool(size_t n);\n";
    let files = file("a.hpp", body);
    let eng = SyntacticEngine::new();
    let res = eng.declarations("InitPool", &candidates_for(&files), &files);
    assert_eq!(res.len(), 1);
    let content = String::from_utf8_lossy(&res[0].content_bytes);
    assert!(content.starts_with("void InitPool"), "no comment — content starts at declaration");
    assert_eq!(res[0].source_ref.span.start_line, 1);
    assert!(res[0].symbol.doc.is_none());
}

#[test]
fn block_comment_included_in_content_with_byte_fidelity() {
    // Multi-line Doxygen block comment is included and byte-exact.
    let body = "/**\n * @brief Frobnicate.\n * @param n count\n */\nvoid Frob(int n);\n";
    let files = file("a.hpp", body);
    let eng = SyntacticEngine::new();
    let res = eng.declarations("Frob", &candidates_for(&files), &files);
    assert_eq!(res.len(), 1);
    let content = String::from_utf8_lossy(&res[0].content_bytes);
    assert!(content.starts_with("/**"), "block comment must be in content");
    assert!(content.contains("void Frob(int n);"), "declaration must follow comment in content");
    let disk = body.as_bytes();
    let span = &res[0].source_ref.span;
    assert_eq!(&disk[span.start_byte..span.end_byte], res[0].content_bytes.as_slice());
    assert_eq!(span.start_line, 1);
}

#[test]
fn definition_is_not_returned_as_declaration() {
    let body = "int add(int a) { return a; }\n";
    let files = file("a.cpp", body);
    let eng = SyntacticEngine::new();
    // It's a definition, so find-decl (declarations) should not match it.
    assert_eq!(eng.declarations("add", &candidates_for(&files), &files).len(), 0);
    assert_eq!(eng.definitions("add", &candidates_for(&files), &files).len(), 1);
}

#[test]
fn variable_with_initializer_is_a_definition() {
    let body = "int counter = 42;\nextern int other;\n";
    let files = file("a.cpp", body);
    let eng = SyntacticEngine::new();
    let defs = eng.definitions("counter", &candidates_for(&files), &files);
    assert_eq!(defs.len(), 1);
    assert_eq!(defs[0].symbol.kind, Kind::Variable);
    // `other` has no initializer → declaration, not definition.
    assert_eq!(eng.definitions("other", &candidates_for(&files), &files).len(), 0);
    assert_eq!(eng.declarations("other", &candidates_for(&files), &files).len(), 1);
}

#[test]
fn enclosing_scope_finds_function() {
    let body = "int add(int a, int b) {\n    return a + b;\n}\n";
    let files = file("a.cpp", body);
    let eng = SyntacticEngine::new();
    // Byte offset inside `return a + b;`.
    let off = body.find("return").unwrap();
    let span = eng.enclosing_scope(&files[0].path, off, &files).unwrap();
    assert_eq!(span.start_line, 1);
    assert_eq!(span.end_line, 3);
}

#[test]
fn enclosing_class_scope_covers_inline_member() {
    let body = "class Widget {\npublic:\n    int area() { return w * h; }\n    int w, h;\n};\n";
    let files = file("a.hpp", body);
    let eng = SyntacticEngine::new();
    // Offset inside the inline method body.
    let off = body.find("return w * h").unwrap();
    let span = eng.enclosing_class_scope(&files[0].path, off, &files).unwrap();
    // Spans the whole `class Widget { ... }` (excluding the trailing `;`).
    let disk = body.as_bytes();
    let slice = &disk[span.start_byte..span.end_byte];
    assert!(slice.starts_with(b"class Widget {"));
    assert!(slice.ends_with(b"}"));
    assert_eq!(span.start_line, 1);
    assert_eq!(span.end_line, 5);
}

#[test]
fn enclosing_class_scope_includes_template_prefix() {
    let body =
        "template <typename T>\nclass Box {\npublic:\n    T get() { return v; }\n    T v;\n};\n";
    let files = file("a.hpp", body);
    let eng = SyntacticEngine::new();
    let off = body.find("return v").unwrap();
    let span = eng.enclosing_class_scope(&files[0].path, off, &files).unwrap();
    let disk = body.as_bytes();
    let slice = &disk[span.start_byte..span.end_byte];
    // The reported span starts at the `template` keyword.
    assert!(slice.starts_with(b"template <typename T>"));
    assert_eq!(span.start_line, 1);
}

#[test]
fn enclosing_class_scope_none_for_out_of_line_member() {
    // Out-of-line member: lexical encloser is the TU, not the class.
    let body = "void Foo::bar() {\n    return;\n}\n";
    let files = file("a.cpp", body);
    let eng = SyntacticEngine::new();
    let off = body.find("return").unwrap();
    assert!(eng.enclosing_class_scope(&files[0].path, off, &files).is_none());
}

#[test]
fn enclosing_class_scope_none_for_free_function() {
    let body = "int add(int a, int b) {\n    return a + b;\n}\n";
    let files = file("a.cpp", body);
    let eng = SyntacticEngine::new();
    let off = body.find("return").unwrap();
    assert!(eng.enclosing_class_scope(&files[0].path, off, &files).is_none());
}

#[test]
fn method_prototype_kind_and_qualified_name() {
    let body = "namespace ns {\nclass C {\n    int compute(double x);\n};\n}\n";
    let files = file("c.hpp", body);
    let eng = SyntacticEngine::new();
    let res = eng.declarations("compute", &candidates_for(&files), &files);
    assert_eq!(res.len(), 1);
    assert_eq!(res[0].symbol.kind, Kind::Method);
    assert_eq!(res[0].symbol.qualified_name.as_deref(), Some("ns::C::compute"));
    assert_eq!(res[0].symbol.type_spelling.as_deref(), Some("int(double)"));
}

#[test]
fn qualified_target_requires_component_aligned_suffix() {
    // `Calc::square` must NOT match `MiniCalc::square`: the `Calc` token in
    // the target has to align with a whole `::` component of the node's
    // qualified name, not merely be a substring suffix of one.
    let body = "namespace ns {\nclass MiniCalc {\n    int square(int x);\n};\n}\n";
    let files = file("m.hpp", body);
    let eng = SyntacticEngine::new();
    assert_eq!(eng.declarations("Calc::square", &candidates_for(&files), &files).len(), 0);
    // The genuine class still resolves, qualified or bare.
    assert_eq!(eng.declarations("MiniCalc::square", &candidates_for(&files), &files).len(), 1);
    assert_eq!(eng.declarations("ns::MiniCalc::square", &candidates_for(&files), &files).len(), 1);
    assert_eq!(eng.declarations("square", &candidates_for(&files), &files).len(), 1);
}

#[test]
fn in_class_method_resolves_by_qualified_name() {
    // find-decl reconstructs the qualifier from the enclosing namespace +
    // class scopes, so a bare in-class prototype is reachable via any
    // component-aligned suffix of `ns::Calc::square`.
    let body = "namespace ns {\nclass Calc {\n    int square(int x);\n};\n}\n";
    let files = file("c.hpp", body);
    let eng = SyntacticEngine::new();
    for t in ["square", "Calc::square", "ns::Calc::square"] {
        assert_eq!(
            eng.declarations(t, &candidates_for(&files), &files).len(),
            1,
            "target {t:?} should resolve the in-class method"
        );
    }
    // A wrong qualifier must not match.
    assert_eq!(eng.declarations("Other::square", &candidates_for(&files), &files).len(), 0);
}

#[test]
fn class_annotation_macro_does_not_hide_class_scope() {
    // `class MACRO Name { ... }` silently misparses (no error) as a function
    // returning a bodyless `class MACRO`, dropping the class scope. The
    // engine must detect the shape, blank the annotation, and reparse so the
    // member's qualified name keeps the class — `find-decl Name::method`
    // resolves without any --empty-macro flag.
    let joined = [
        "namespace textutil {\n",
        "class TEXTUTIL_DSPEC CTextBuffer {\n",
        "public:\n",
        "    void assign_from_fn(int fn);\n",
        "};\n",
        "}\n",
    ]
    .concat();
    let body = joined.as_str();
    let files = file("tb.h", body);
    let eng = SyntacticEngine::new();
    for t in [
        "assign_from_fn",
        "CTextBuffer::assign_from_fn",
        "textutil::CTextBuffer::assign_from_fn",
    ] {
        let res = eng.declarations(t, &candidates_for(&files), &files);
        assert_eq!(res.len(), 1, "target {t:?} should resolve");
        assert_eq!(
            res[0].symbol.qualified_name.as_deref(),
            Some("textutil::CTextBuffer::assign_from_fn"),
            "target {t:?} must keep the class scope"
        );
        assert_eq!(res[0].symbol.kind, Kind::Method);
    }
    // A wrong class qualifier still does not match.
    assert_eq!(
        eng.declarations("Other::assign_from_fn", &candidates_for(&files), &files).len(),
        0
    );
}

#[test]
fn class_annotation_macro_is_recognized_as_class_definition() {
    // The same misparse otherwise makes `find-def` report the class as a
    // function. After recovery it is a real class definition.
    let body = "struct DLL_EXPORT Widget {\n    int x;\n};\n";
    let files = file("w.h", body);
    let eng = SyntacticEngine::new();
    let res = eng.definitions("Widget", &candidates_for(&files), &files);
    assert_eq!(res.len(), 1);
    assert_eq!(res[0].symbol.kind, Kind::Struct);
    // Byte-fidelity preserved despite the blank-and-reparse.
    let disk = body.as_bytes();
    let s = &res[0].source_ref.span;
    assert_eq!(&disk[s.start_byte..s.end_byte], res[0].content_bytes.as_slice());
    assert!(String::from_utf8_lossy(&res[0].content_bytes).contains("DLL_EXPORT"));
}

#[test]
fn namespaced_type_matches_qualified_target() {
    let body = "namespace duckdb {\nstruct UpdateInfo { int x; };\n}\n";
    let files = file("u.hpp", body);
    let eng = SyntacticEngine::new();
    assert_eq!(eng.definitions("duckdb::UpdateInfo", &candidates_for(&files), &files).len(), 1);
    assert_eq!(eng.definitions("UpdateInfo", &candidates_for(&files), &files).len(), 1);
    assert_eq!(eng.definitions("wrong::UpdateInfo", &candidates_for(&files), &files).len(), 0);
}

#[test]
fn block_comment_doc_is_captured() {
    let body = "/** Frobnicate the widget.\n *  @param n count\n */\nvoid Frob(int n);\n";
    let files = file("a.hpp", body);
    let eng = SyntacticEngine::new();
    let res = eng.declarations("Frob", &candidates_for(&files), &files);
    assert_eq!(res.len(), 1);
    let doc = res[0].symbol.doc.as_deref().unwrap();
    assert!(doc.starts_with("/**"));
    assert!(doc.contains("@param n count"));
}

#[test]
fn declaration_return_type_includes_const_ref() {
    // Primitive base type so tree-sitter parses the reference return
    // unambiguously.
    let body = "const int &Clamp(int x);\n";
    let files = file("a.hpp", body);
    let eng = SyntacticEngine::new();
    let res = eng.declarations("Clamp", &candidates_for(&files), &files);
    assert_eq!(res.len(), 1);
    assert_eq!(
        res[0].symbol.type_spelling.as_deref(),
        Some("const int &(int)")
    );
}

#[test]
fn declaration_pointer_return_type() {
    let body = "int *Allocate(size_t n);\n";
    let files = file("a.hpp", body);
    let eng = SyntacticEngine::new();
    let res = eng.declarations("Allocate", &candidates_for(&files), &files);
    assert_eq!(res.len(), 1);
    assert_eq!(res[0].symbol.type_spelling.as_deref(), Some("int *(size_t)"));
}

#[test]
fn declaration_trailing_return_type() {
    let body = "auto Compute(int x) -> double;\n";
    let files = file("a.hpp", body);
    let eng = SyntacticEngine::new();
    let res = eng.declarations("Compute", &candidates_for(&files), &files);
    assert_eq!(res.len(), 1);
    assert_eq!(res[0].symbol.type_spelling.as_deref(), Some("double(int)"));
}

// --- macro-annotation overload tests (e.g. LIB_API-style) ---

#[test]
fn declarations_finds_single_line_macro_annotated_overloads() {
    // Reproduces the pattern: `static RetType MACRO FuncName(params);`
    // where MACRO is an unknown annotation that may sit between the return
    // type and the function_declarator in tree-sitter's parse tree.
    let joined = [
        "#define MOCK_EXPORT __declspec(dllexport)\n",
        "class Coder {\n",
        "public:\n",
        "    static int MOCK_EXPORT Convert(const char* a, bool flag = false);\n",
        "    static int MOCK_EXPORT Convert(const char* a, int n, bool flag = false);\n",
        "};\n",
    ]
    .concat();
    let body = joined.as_str();
    let files = file("coder.h", body);
    let eng = SyntacticEngine::new();
    let res = eng.declarations("Convert", &candidates_for(&files), &files);
    assert_eq!(res.len(), 2, "both macro-annotated overloads should be found");
    let names: Vec<_> = res.iter().map(|r| r.symbol.name.as_str()).collect();
    assert!(names.iter().all(|&n| n == "Convert"));
}

#[test]
fn declarations_finds_multiline_macro_annotated_overloads() {
    // Two overloads in the same class, both with a macro annotation,
    // multi-line parameter lists, and default values on split lines.
    let joined = [
        "#define MOCK_EXPORT __declspec(dllexport)\n",
        "class Coder {\n",
        "public:\n",
        "    static int MOCK_EXPORT Convert(\n",
        "        const char* session,\n",
        "        const char* input,\n",
        "        bool useEntities,\n",
        "        int lang = 0,\n",
        "        int mode =\n",
        "            DefaultMode,\n",
        "        bool urduMode = false);\n",
        "\n",
        "    static int MOCK_EXPORT Convert(\n",
        "        const char* input,\n",
        "        bool useEntities,\n",
        "        int lang = 0,\n",
        "        int mode =\n",
        "            DefaultMode,\n",
        "        bool urduMode = false);\n",
        "};\n",
    ]
    .concat();
    let body = joined.as_str();
    let files = file("coder.h", body);
    let eng = SyntacticEngine::new();
    let res = eng.declarations("Convert", &candidates_for(&files), &files);
    assert_eq!(res.len(), 2, "both multiline macro-annotated overloads should be found");
}

#[test]
fn declarations_finds_macro_annotated_overload_with_doxygen_comments() {
    // Full pattern: Doxygen block comment above each overload, macro
    // annotation, multi-line params.
    let joined = [
        "#define MOCK_EXPORT __declspec(dllexport)\n",
        "class Coder {\n",
        "public:\n",
        "    /**\n",
        "     * Overload 1 — with session.\n",
        "     * @param session The session.\n",
        "     * @param input The input.\n",
        "     */\n",
        "    static int MOCK_EXPORT Convert(\n",
        "        const char* session,\n",
        "        const char* input);\n",
        "\n",
        "    /**\n",
        "     * Overload 2 — default session.\n",
        "     * @param input The input.\n",
        "     */\n",
        "    static int MOCK_EXPORT Convert(\n",
        "        const char* input);\n",
        "};\n",
    ]
    .concat();
    let body = joined.as_str();
    let files = file("coder.h", body);
    let eng = SyntacticEngine::new();
    let res = eng.declarations("Convert", &candidates_for(&files), &files);
    assert_eq!(res.len(), 2, "both overloads with Doxygen comments should be found");
    // Each result should carry its own doc comment.
    for r in &res {
        assert!(
            r.symbol.doc.as_deref().unwrap_or("").contains("Overload"),
            "expected doc comment, got {:?}", r.symbol.doc
        );
    }
}

#[test]
fn declarations_finds_pure_virtual_macro_annotated_overloads() {
    // The key breaker: a pure-virtual interface with a dllimport/export macro
    // between the return type and the name. tree-sitter reparses one `= 0`
    // overload as a function_definition (skipped by find-decl) and wraps the
    // macro of the other in an ERROR node — dropping an overload.
    // Macro neutralization (via per-file #define harvest) recovers both.
    let joined = [
        "#define LIB_API __declspec(dllimport)\n",
        "class ICodec {\n",
        "public:\n",
        "    virtual CWideStr LIB_API Convert(const CStr& a) = 0;\n",
        "    virtual CWideStr LIB_API Convert(const CStr& a, int n) = 0;\n",
        "};\n",
    ]
    .concat();
    let body = joined.as_str();
    let files = file("icodec.h", body);
    let eng = SyntacticEngine::new();
    let res = eng.declarations("Convert", &candidates_for(&files), &files);
    assert_eq!(res.len(), 2, "both pure-virtual macro overloads should be found");
    // Byte-fidelity holds: each reported span re-slices from disk exactly,
    // and the macro text remains visible (we slice the original, not the
    // blanked buffer).
    let disk = body.as_bytes();
    for r in &res {
        let s = &r.source_ref.span;
        assert_eq!(&disk[s.start_byte..s.end_byte], r.content_bytes.as_slice());
        assert!(String::from_utf8_lossy(&r.content_bytes).contains("LIB_API"));
    }
}

#[test]
fn empty_macro_config_recovers_mixed_case_annotation() {
    // A mixed-case annotation macro the search for `#define`s won't catch;
    // the user supplies it via `--empty-macro` (with_empty_macros). This
    // form breaks the parse hard — plain resolution finds neither overload.
    let joined = [
        "class ICodec {\n",
        "public:\n",
        "    virtual CWideStr Codec_Export Convert(const CStr& a) = 0;\n",
        "    virtual CWideStr Codec_Export Convert(const CStr& a, int n) = 0;\n",
        "};\n",
    ]
    .concat();
    let body = joined.as_str();
    let files = file("icodec.h", body);
    // Without the name of the macro it cannot be recovered.
    let plain = SyntacticEngine::new();
    assert_eq!(plain.declarations("Convert", &candidates_for(&files), &files).len(), 0);
    // With config, both overloads are recovered.
    let eng = SyntacticEngine::with_empty_macros(vec!["Codec_Export".to_string()]);
    assert_eq!(eng.declarations("Convert", &candidates_for(&files), &files).len(), 2);
}

/// Build one line-start candidate per line containing `needle`, mirroring the
/// finder's whole-line, line-offset hits.
fn line_candidates(path: &str, src: &str, needle: &str) -> Vec<Candidate> {
    let mut out = Vec::new();
    let mut offset = 0usize;
    for (i, line) in src.split_inclusive('\n').enumerate() {
        if line.contains(needle) {
            out.push(Candidate {
                file_path: path.to_string(),
                line: i + 1,
                byte_offset: offset,
                snippet: line.trim_end().to_string(),
            });
        }
        offset += line.len();
    }
    out
}

fn kept_lines(
    eng: &SyntacticEngine,
    target: &str,
    cands: &[Candidate],
    files: &[SourceFile],
) -> Vec<usize> {
    eng.filter_references(target, cands, files)
        .iter()
        .map(|c| c.line)
        .collect()
}

#[test]
fn filter_references_drops_other_scopes_keeps_unknown() {
    let joined = [
        "namespace app {\n",            // 1
        "class Widget {\n",             // 2
        "    void render();\n",          // 3  Widget member decl  -> keep
        "};\n",                          // 4
        "class Gadget {\n",             // 5
        "    void render();\n",          // 6  Gadget member decl   -> drop
        "};\n",                          // 7
        "void Widget::render() {}\n",   // 8  qualified Widget      -> keep
        "void Gadget::render() {}\n",   // 9  qualified Gadget      -> drop
        "void use(Widget w, Gadget g) {\n", // 10
        "    w.render();\n",             // 11 member access unknown -> keep
        "    g.render();\n",             // 12 member access unknown -> keep
        "    app::Widget::render();\n",  // 13 qualified, compatible -> keep
        "    Gadget::render();\n",       // 14 qualified, incompatible-> drop
        "}\n",                            // 15
        "}\n",                            // 16
    ]
    .concat();
    let body = joined.as_str();
    let files = file("w.cpp", body);
    let eng = SyntacticEngine::new();
    let cands = line_candidates(&files[0].path, body, "render");
    // Bare target: nothing is dropped (no scope to filter on).
    assert_eq!(kept_lines(&eng, "render", &cands, &files).len(), cands.len());
    // Qualified target: only the provably-different occurrences are removed.
    assert_eq!(
        kept_lines(&eng, "Widget::render", &cands, &files),
        vec![3, 8, 11, 12, 13]
    );
    // The fully-qualified form behaves identically.
    assert_eq!(
        kept_lines(&eng, "app::Widget::render", &cands, &files),
        vec![3, 8, 11, 12, 13]
    );
}

#[test]
fn filter_references_keeps_comment_only_hits() {
    // A bare name appearing only inside a comment has no determinable node;
    // erring toward recall, the line is kept.
    let joined = [
        "struct A { void run(); };\n",       // 1 A member decl -> drop for B::run
        "struct B { void run(); };\n",       // 2 B member decl -> keep
        "// call run() somewhere\n",          // 3 comment       -> keep
    ]
    .concat();
    let body = joined.as_str();
    let files = file("c.cpp", body);
    let eng = SyntacticEngine::new();
    let cands = line_candidates(&files[0].path, body, "run");
    assert_eq!(kept_lines(&eng, "B::run", &cands, &files), vec![2, 3]);
}

fn node(kind: &str, field: Option<&str>, depth: usize, start: usize, end: usize) -> RawNode {
    RawNode {
        kind: kind.to_string(),
        field: field.map(|f| f.to_string()),
        named: true,
        is_error: false,
        is_missing: false,
        has_error: false,
        depth,
        start_byte: start,
        end_byte: end,
        start_row: 0,
        start_col: start,
        end_row: 0,
        end_col: end,
    }
}

/// The nodes of `class C{int f();};`, as far as they matter.
fn class_nodes() -> Vec<RawNode> {
    vec![
        node("translation_unit", None, 0, 0, 18),
        node("class_specifier", None, 1, 0, 17),
        node("type_identifier", Some("name"), 2, 6, 7),
        node("field_declaration_list", Some("body"), 2, 7, 17),
        node("field_declaration", None, 3, 8, 16),
        node("primitive_type", Some("type"), 4, 8, 11),
        node("function_declarator", Some("declarator"), 4, 12, 15),
        node("field_identifier", Some("declarator"), 5, 12, 13),
        node("parameter_list", Some("parameters"), 5, 13, 15),
    ]
}

#[test]
fn trees_are_read_off_their_nodes() {
    let src = b"class C{int f();};";
    let tree = tree_of_nodes(&class_nodes(), src.len()).unwrap();
    assert_eq!(tree.len(), 9);
    assert_eq!(tree.parent(7), Some(6));
    assert_eq!(tree.parent(0), None);
    assert_eq!(tree.subtree_end(3), 9);
    let found = resolutions_in_tree(&tree, src, "C::f", Mode::Declaration, "c.h");
    assert_eq!(found.len(), 1);
    assert_eq!(found[0].symbol.name, "f");
    assert_eq!(found[0].symbol.qualified_name.as_deref(), Some("C::f"));
    assert_eq!(found[0].symbol.kind, Kind::Method);
    assert_eq!(found[0].symbol.signature.as_deref(), Some("int f();"));
    assert_eq!(found[0].symbol.type_spelling.as_deref(), Some("int()"));
    assert_eq!(found[0].content_bytes, b"int f();".to_vec());
    assert_eq!(found[0].confidence, 80);
    let found = resolutions_in_tree(&tree, src, "C", Mode::Definition, "c.h");
    assert_eq!(found[0].symbol.kind, Kind::Class);
    // The node with the given extent decides the scope.
    assert_eq!(class_in_tree(&tree, Some((12, 13, 1))).unwrap().end_byte, 17);
    assert!(function_in_tree(&tree, Some((12, 13, 1))).is_none());
    assert!(class_in_tree(&tree, Some((1, 2, 1))).is_none());
    assert!(class_in_tree(&tree, None).is_none());
    assert!(class_in_tree(&tree, Some((0, 17, 9))).is_none());
    assert!(class_in_tree(&tree, Some((0, 17, 8))).is_some());
}

#[test]
fn trees_that_do_not_fit_are_rejected() {
    assert!(tree_of_nodes(&vec![], 10).is_none());
    assert!(tree_of_nodes(&class_nodes(), 17).is_none());
    let mut nodes = class_nodes();
    nodes.swap(2, 3);
    assert!(tree_of_nodes(&nodes, 18).is_none());
}

#[test]
fn trees_with_a_scope_at_the_root_or_loose_ends_are_rejected() {
    let mut nodes = class_nodes();
    nodes[0].kind = "class_specifier".to_string();
    assert!(tree_of_nodes(&nodes, 18).is_none());
    let mut nodes = class_nodes();
    nodes[8].end_byte = 16;
    assert!(tree_of_nodes(&nodes, 18).is_none());
    nodes[6].end_byte = 16;
    assert!(tree_of_nodes(&nodes, 18).is_some());
}

#[test]
fn a_cleaner_tree_is_preferred() {
    let good = tree_of_nodes(&class_nodes(), 18).unwrap();
    let mut nodes = class_nodes();
    nodes[5].is_error = true;
    let bad = tree_of_nodes(&nodes, 18).unwrap();
    assert!(prefers_recovered(&bad, &good, false));
    assert!(!prefers_recovered(&good, &bad, true));
    assert!(!prefers_recovered(&good, &good, false));
    assert!(prefers_recovered(&good, &good, true));
}

#[test]
fn scopes_are_compatible_by_components() {
    assert!(qualified_compatible("CTextBuffer::m", "ns::CTextBuffer::m"));
    assert!(qualified_compatible("ns::CTextBuffer::m", "CTextBuffer::m"));
    assert!(!qualified_compatible("CTextBuffer::m", "Other::m"));
    assert!(!qualified_compatible("Calc::m", "MiniCalc::m"));
}

#[test]
fn names_that_are_not_text_are_repaired() {
    let files = vec![SourceFile {
        path: "a.cpp".to_string(),
        bytes: b"// \xff\nint add() { return 1; }\n".to_vec(),
    }];
    let eng = SyntacticEngine::new();
    let res = eng.definitions("add", &candidates_for(&files), &files);
    assert_eq!(res[0].symbol.doc.as_deref(), Some("// \u{fffd}"));
    assert_eq!(res[0].content_bytes[3], 0xff);
}

#[test]
fn a_file_mentioned_twice_is_read_once() {
    let files = file("dir/a.cpp", "void f(int a) {}\n");
    let mut cands = candidates_for(&files);
    cands.extend(candidates_for(&files));
    let eng = SyntacticEngine::new();
    assert_eq!(eng.definitions("f", &cands, &files).len(), 1);
    assert_eq!(eng.name(), "tree-sitter");
}

#[test]
fn an_offset_outside_the_tree_has_no_scope() {
    let eng = SyntacticEngine::new();
    // The only function covers the same bytes as the whole tree.
    let files = file("a.cpp", "  void f() { g(); }");
    assert!(eng.enclosing_scope("a.cpp", 0, &files).is_none());
    assert_eq!(eng.enclosing_scope("a.cpp", 13, &files).unwrap().start_byte, 2);
    let files = file("a.cpp", "  class C { int f(); }");
    assert!(eng.enclosing_class_scope("a.cpp", 0, &files).is_none());
}

#[test]
fn only_the_files_of_candidates_matter() {
    let files = vec![
        SourceFile { path: "a.cpp".to_string(), bytes: b"void f(int) {}\nvoid f() {}\n".to_vec() },
        SourceFile { path: "b.cpp".to_string(), bytes: b"void f() {}\n".to_vec() },
    ];
    let at = |path: &str, line: usize, byte_offset: usize| Candidate {
        file_path: path.to_string(),
        line,
        byte_offset,
        snippet: String::new(),
    };
    let eng = SyntacticEngine::new();
    let one = eng.definitions("f", &[at("a.cpp", 1, 0), at("b.cpp", 1, 0)], &files);
    let two = eng.definitions(
        "f",
        &[at("gone.cpp", 1, 0), at("b.cpp", 9, 3), at("a.cpp", 2, 15), at("a.cpp", 1, 0)],
        &files,
    );
    let places = |rs: &Vec<cpp_navigator::model::Resolution>| {
        rs.iter()
            .map(|r| (r.source_ref.file_path.clone(), r.source_ref.span.start_byte))
            .collect::<Vec<_>>()
    };
    assert_eq!(
        places(&one),
        vec![("a.cpp".to_string(), 0), ("a.cpp".to_string(), 15), ("b.cpp".to_string(), 0)]
    );
    assert_eq!(places(&one), places(&two));
}

#[test]
fn scopes_lie_around_every_offset() {
    let body = "  template <class T> struct S { T f() { return g(); } };\nint x; void h( { }\n\nclass {";
    let files = file("a.cpp", body);
    let eng = SyntacticEngine::new();
    for offset in 0..body.len() + 2 {
        if let Some(s) = eng.enclosing_scope("a.cpp", offset, &files) {
            assert!(s.start_byte <= offset && offset <= s.end_byte);
        }
        if let Some(s) = eng.enclosing_class_scope("a.cpp", offset, &files) {
            assert!(s.start_byte <= offset && offset <= s.end_byte);
        }
    }
    let inside = body.find("return").unwrap();
    assert_eq!(eng.enclosing_class_scope("a.cpp", inside, &files).unwrap().start_byte, 2);
    assert_eq!(&body[eng.enclosing_scope("a.cpp", inside, &files).unwrap().start_byte..][..5], "T f()");
}

#[test]
fn a_path_can_be_written_in_two_ways() {
    let files = file("src/a.cpp", "void f() {}\n");
    let at = |path: &str| Candidate {
        file_path: path.to_string(),
        line: 1,
        byte_offset: 0,
        snippet: String::new(),
    };
    let eng = SyntacticEngine::new();
    let found = eng.definitions("f", &[at("src//a.cpp"), at("src/./a.cpp")], &files);
    assert_eq!(found.len(), 1);
    assert_eq!(found[0].source_ref.file_path, "src//a.cpp");
    assert_eq!(eng.enclosing_scope("src/./a.cpp", 5, &files).unwrap().end_byte, 11);
    assert!(eng.definitions("f", &[at("lib/a.cpp")], &files).is_empty());
    assert_eq!(
        distinct_files_of(&[at("src//a.cpp"), at("b.cpp"), at("src/a.cpp"), at("b.cpp")]),
        vec!["src//a.cpp", "b.cpp"]
    );
}
