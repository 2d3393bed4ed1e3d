use cpp_navigator::budget::apply_budget;
use cpp_navigator::cli::{Format, IncludeField};
use cpp_navigator::human::render;
use cpp_navigator::output::{
    project, Candidate, FallbackWindow, Record, RefContext, RefLocation, Status, TextWindow, Writer,
};

fn locations(n: usize) -> Vec<RefLocation> {
    (0..n).map(|i| RefLocation { file: format!("f{i}.cpp"), line: i }).collect()
}

#[test]
fn jsonl_lines_are_emitted_at_once() {
    let mut w = Writer::new(Format::Jsonl, true);
    assert_eq!(w.write("{}"), "{}\n");
    assert_eq!(w.finish(), "");
}

#[test]
fn a_bundle_is_fenced_with_an_estimate() {
    let mut w = Writer::new(Format::Bundle, false);
    assert_eq!(w.write("{\"a\":1}"), "");
    assert_eq!(w.write("{\"b\":\"\u{e9}\"}"), "");
    assert_eq!(w.finish(), "```json\n{\"a\":1}\n{\"b\":\"\u{e9}\"}\n```\n// ~4 tokens\n");
    let w = Writer::new(Format::Bundle, true);
    assert_eq!(
        w.finish(),
        "// legend: each line is one JSON record; branch on `status` / `resolution_type`.\n\
         ```json\n```\n// ~0 tokens\n"
    );
}

#[test]
fn records_have_their_messages() {
    let r = Record::ambiguous("find-def", "f", vec![
        Candidate { file_path: "a".to_string(), line: 1, snippet: None },
        Candidate { file_path: "b".to_string(), line: 2, snippet: None },
    ]);
    assert_eq!(r.message.as_deref(), Some("Found 2 candidates. Returning raw candidate locations."));
    assert_eq!(r.resolution_type, "ambiguous_multiple_matches");
    let r = Record::references("find-refs", "f", locations(12), true);
    assert_eq!(r.message.as_deref(), Some("Found 12 references."));
    assert!(r.truncated);
    let r = Record::not_found("find-def", "f");
    assert_eq!(
        r.message.as_deref(),
        Some("No textual or semantic match in the searched roots.")
    );
    assert_eq!(r.resolution_type, "not_found");
    let r = Record::references_with_context(
        "find-refs",
        "f",
        vec![RefContext {
            file: "a".to_string(),
            line: 1,
            scope_start_line: 1,
            scope_end_line: 2,
            content: "x".to_string(),
        }],
        false,
    );
    assert_eq!(r.message.as_deref(), Some("Found 1 references with context."));
}

#[test]
fn fallback_records_hold_their_windows() {
    let w = TextWindow {
        file_path: "a.h".to_string(),
        approximate_line: 8,
        before: 1,
        after: 2,
        content_buffer: "x".to_string(),
    };
    let r = Record::fallback("find-def", "f", w, "m".to_string());
    assert_eq!(r.status, Status::Fallback);
    assert_eq!(r.window_before, Some(1));
    assert_eq!(r.window_after, Some(2));
    assert_eq!(r.approximate_line, Some(8));
    let r = Record::fallback_multi(
        "find-def",
        "f",
        vec![FallbackWindow {
            file_path: "a.h".to_string(),
            approximate_line: 8,
            window_before: 1,
            window_after: 2,
            content_buffer: "x".to_string(),
        }],
        "m".to_string(),
    );
    assert_eq!(r.resolution_type, "partial_resolution_fallback");
    assert_eq!(r.windows.len(), 1);
}

#[test]
fn declarations_lose_heavy_fields_unless_asked_for() {
    let mut r = Record::new("find-decl", "f", Status::Resolved, "declaration");
    r.signature = Some("void f();".to_string());
    r.content = Some("void f();".to_string());
    r.start_byte = Some(1);
    r.end_byte = Some(2);
    r.type_spelling = Some("void()".to_string());
    let r = project(r, &[IncludeField::Offsets]);
    assert!(r.content.is_none() && r.type_spelling.is_none());
    assert_eq!(r.start_byte, Some(1));
    // Without a signature nothing is left out.
    let mut d = Record::new("find-def", "f", Status::Resolved, "function_definition");
    d.content = Some("void f() {}".to_string());
    assert!(project(d, &[]).content.is_some());
}

#[test]
fn a_budget_that_suffices_changes_nothing() {
    let records = vec![Record::references("find-refs", "f", locations(3), false)];
    let kept = apply_budget(records, 10_000);
    assert_eq!(kept[0].locations.len(), 3);
    assert!(!kept[0].budget_trimmed);
    assert_eq!(kept[0].message.as_deref(), Some("Found 3 references."));
}

#[test]
fn arrays_are_shortened_before_records_are_dropped() {
    let records = vec![
        Record::references("find-refs", "f", locations(100), false),
        Record::not_found("find-refs", "g"),
    ];
    let kept = apply_budget(records, 300);
    assert_eq!(kept.len(), 2);
    let n = kept[0].locations.len();
    assert_eq!(n, 20);
    // What is kept is the leading part, unchanged.
    for i in 0..n {
        assert_eq!(kept[0].locations[i].file, format!("f{i}.cpp"));
    }
    assert!(kept[0].budget_trimmed);
    assert_eq!(
        kept[0].message.as_deref(),
        Some("Found 100 references. Output trimmed to fit --budget.")
    );
    assert_eq!(kept[1].target, "g");
    assert!(kept[1].budget_trimmed);
}

#[test]
fn records_are_dropped_when_single_items_are_too_much() {
    let records = |n: usize| {
        (0..n)
            .map(|_| Record::references("find-refs", "f", locations(100), false))
            .collect::<Vec<_>>()
    };
    // With one item each, a record takes 223 bytes; 300 tokens allow for 1203.
    let kept = apply_budget(records(6), 300);
    assert_eq!(kept.len(), 5);
    let counts: Vec<usize> = kept.iter().map(|r| r.locations.len()).collect();
    assert_eq!(counts, vec![3, 1, 1, 1, 1]);
    assert!(kept.iter().all(|r| r.budget_trimmed));
    // A record that keeps all its items is not marked, unless it is the last.
    let mut mixed = records(1);
    mixed.insert(0, Record::references("find-refs", "g", locations(2), false));
    let kept = apply_budget(mixed, 300);
    assert_eq!(kept.len(), 2);
    assert_eq!(kept[0].locations.len(), 2);
    assert!(!kept[0].budget_trimmed);
    assert!(kept[1].budget_trimmed);
}

#[test]
fn one_item_survives_a_budget_of_zero() {
    let records = vec![Record::references("find-refs", "f", locations(5), false)];
    let kept = apply_budget(records, 0);
    assert_eq!(kept.len(), 1);
    assert_eq!(kept[0].locations.len(), 1);
    assert!(apply_budget(Vec::new(), 0).is_empty());
}

#[test]
fn the_last_record_that_fits_carries_the_mark() {
    let mut big = Record::not_found("find-def", "big");
    big.content = Some("x".repeat(4000));
    let kept = apply_budget(vec![Record::not_found("find-def", "small"), big], 100);
    assert_eq!(kept.len(), 1);
    assert_eq!(kept[0].target, "small");
    assert!(kept[0].budget_trimmed);
}

#[test]
fn records_are_rendered_for_a_terminal() {
    let r = Record::not_found("find-def", "f");
    let text = "(not_found): No textual or semantic match in the searched roots.";
    assert_eq!(render(&r, false), format!("f {text}"));
    assert_eq!(render(&r, true), format!("\u{1b}[1mf\u{1b}[0m {text}"));
    let mut r = Record::new("find-def", "f", Status::Resolved, "function_definition");
    r.file_path = Some("a.cpp".to_string());
    r.start_line = Some(3);
    r.end_line = Some(4);
    r.qualified_name = Some("ns::f".to_string());
    r.content = Some("void f() {\r\n}\n".to_string());
    let text = "f (function_definition)\n  a.cpp:3  ns::f\n    void f() {\n    }";
    assert_eq!(render(&r, false), text);
    let r = Record::references("find-refs", "f", locations(2), false);
    assert_eq!(
        render(&r, true),
        "\u{1b}[1mf\u{1b}[0m (references): Found 2 references.\n  \
         \u{1b}[36mf0.cpp:0\u{1b}[0m\n  \u{1b}[36mf1.cpp:1\u{1b}[0m"
    );
}
