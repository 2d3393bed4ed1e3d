//! What the screen shows, which editor opens a line, and how records read on a terminal.

use crate::human::{excerpt_text, hit_text, hits_text, painted, record_text};
use crate::interactive::browser::{
    cut, fitted, footer_text, frame_of, header_text, launch_for, row_style, row_text, scrolled,
    told, BrowserView, Mode, Style,
};
use crate::interactive::editor::{
    basename_start, editor_name, exe_end, guessed_template, open_command, template_named,
};
use crate::interactive::hits::{record_hits, HitView};
use crate::interactive::ide::{
    detected, ide_error, ide_label, jetbrains_owner_of, launch_of, percent_encoded,
    product_at_hand, product_in, product_list, rooted, url_char, url_path, url_safe, IdeView,
    LaunchView,
};
use crate::interactive::tree::{slashed, LineView, RowView};
use crate::output::RecordView;
use crate::sources::{contents, contents_from, SourceFileView};
use crate::paths::same_path;
use crate::text::{decimal, has_infix, has_suffix, lowercase, occurs_at, padded};
use vstd::prelude::*;

verus! {

// ---------------------------------------------------------------------------
// The screen
// ---------------------------------------------------------------------------

/// A line of the screen is exactly as wide as the screen: the start of the text, and
/// spaces behind it.
pub proof fn screen_lines_are_as_wide_as_the_screen(s: Seq<char>, cols: int)
    requires
        0 <= cols,
    ensures
        fitted(s, cols).len() == cols,
        forall|i: int| 0 <= i < cols && i < s.len() ==> fitted(s, cols)[i] == s[i],
        forall|i: int| s.len() <= i < cols ==> fitted(s, cols)[i] == ' ',
        cut(s, cols).len() <= cols,
        cut(s, cols).len() == cols || cut(s, cols) == s,
        forall|i: int| 0 <= i < cut(s, cols).len() ==> cut(s, cols)[i] == s[i],
{
}

/// Is `s` made of `n` spaces?
pub open spec fn is_spaces(s: Seq<char>, n: int) -> bool {
    s.len() == n && forall|i: int| 0 <= i < s.len() ==> (#[trigger] s[i]) == ' '
}

/// A folder is shown indented by its depth, with an arrow that tells whether it is open
/// and its name; a file with the number of its lines, a directory with a slash.
pub proof fn folders_are_shown_by_name(r: RowView)
    requires
        r.is_folder,
    ensures
        exists|indent: Seq<char>|
            #![trigger is_spaces(indent, 6 + 2 * r.depth)]
            is_spaces(indent, 6 + 2 * r.depth) && row_text(r) == indent + seq![
                if r.expanded { '\u{25be}' } else { '\u{25b8}' },
                ' ',
            ] + r.seg + (if r.is_file_node {
                " ("@ + decimal(r.child_count as nat) + ")"@
            } else {
                "/"@
            }),
{
    reveal_strlit("      ");
    let n = r.depth as nat;
    let indent = "      "@ + (crate::text::repeated(' ', n) + crate::text::repeated(' ', n));
    let arrow = if r.expanded { '\u{25be}' } else { '\u{25b8}' };
    let tail = if r.is_file_node {
        " ("@ + decimal(r.child_count as nat) + ")"@
    } else {
        "/"@
    };
    assert(is_spaces(indent, 6 + 2 * r.depth));
    assert(row_text(r) =~= indent + seq![arrow, ' '] + r.seg + tail);
}

/// A line is shown with its jump number, its line number and its text, behind the label
/// if it has one.
pub proof fn lines_are_shown_with_their_numbers(r: RowView, l: LineView, n: usize)
    requires
        !r.is_folder,
        r.line == Some(l),
        r.number == Some(n),
    ensures
        exists|indent: Seq<char>|
            #![trigger is_spaces(indent, 2 * r.depth)]
            is_spaces(indent, 2 * r.depth) && row_text(r) == padded(decimal(n as nat), ' ', 4)
                + "  "@ + padded(decimal(l.line as nat), ' ', 5) + "  "@ + indent + (match l.label {
                Some(t) => t + "  | "@ + l.text,
                None => l.text,
            }),
{
    let d = r.depth as nat;
    let indent = crate::text::repeated(' ', d) + crate::text::repeated(' ', d);
    assert(is_spaces(indent, 2 * r.depth));
    let head = padded(decimal(n as nat), ' ', 4) + "  "@ + padded(decimal(l.line as nat), ' ', 5)
        + "  "@ + indent;
    if let Some(t) = l.label {
        assert(head + t + "  | "@ + l.text =~= head + (t + "  | "@ + l.text));
    }
}

/// A frame shows as many rows as there is room for, from the first one on the screen, in
/// order; the row under the cursor, and no other, stands out.
pub proof fn frames_show_the_rows(b: BrowserView, top: int, cols: int, area: int, k: int)
    requires
        0 <= top <= b.rows.len(),
        0 < area,
        0 <= cols,
    ensures
        ({
            let f = frame_of(b, top, cols, area);
            &&& f.rows.len() == (if b.rows.len() - top < area { b.rows.len() - top } else { area })
            &&& f.rows.len() + f.blank == area
            &&& 0 <= k < f.rows.len() ==> f.rows[k].text == fitted(row_text(b.rows[top + k]), cols)
                && (f.rows[k].style == Style::Reverse <==> top + k == b.cursor)
            &&& f.header.text == fitted(header_text(b), cols)
            &&& f.footer == cut(footer_text(b), cols)
            &&& f.rule.len() == cols
        }),
{
}

/// Files, directories, anchors and details are told apart by their style.
pub proof fn rows_have_the_style_of_what_they_are(r: RowView)
    ensures
        r.is_folder && r.is_file_node ==> row_style(r) == Style::File,
        r.is_folder && !r.is_file_node ==> row_style(r) == Style::Directory,
        !r.is_folder ==> (r.line matches Some(l) ==> row_style(r) == (if l.anchor {
            Style::Plain
        } else {
            Style::Detail
        })),
{
}

/// The screen scrolls no further than it must: it stays where it is while the cursor is
/// on it and the rows reach its end.
pub proof fn the_screen_scrolls_only_when_it_must(b: BrowserView, area: int)
    requires
        0 < area,
        b.cursor < b.rows.len(),
    ensures
        b.top <= b.cursor < b.top + area && b.top + area <= b.rows.len() ==> scrolled(b, area)
            == b.top,
        b.rows.len() <= area ==> scrolled(b, area) == 0,
        scrolled(b, area) <= b.cursor < scrolled(b, area) + area,
{
}

/// The header names the title, the mode and the numbers of lines and files that are
/// shown; while a filter is typed the footer shows it, else it shows the status.
pub proof fn header_and_footer_say_what_is_shown(b: BrowserView)
    ensures
        has_infix(header_text(b), b.title),
        has_infix(header_text(b), decimal(b.line_count as nat) + " line"@),
        has_infix(header_text(b), decimal(b.file_count as nat) + " file"@),
        b.mode == Mode::Filter ==> has_infix(footer_text(b), " filter: "@ + b.query),
        b.mode == Mode::Browse && b.status.len() > 0 ==> has_suffix(footer_text(b), b.status),
{
    let h = header_text(b);
    let mode = match b.mode {
        Mode::Browse => "BROWSE"@,
        Mode::Filter => "FILTER"@,
    };
    let a = " "@;
    assert(h.subrange(a.len() as int, a.len() as int + b.title.len()) =~= b.title);
    assert(occurs_at(h, b.title, a.len() as int));
    let c = a + b.title + "    ["@ + mode + "]    "@;
    let x = decimal(b.line_count as nat) + " line"@;
    assert(h.subrange(c.len() as int, c.len() as int + x.len()) =~= x);
    assert(occurs_at(h, x, c.len() as int));
    let d = c + decimal(b.line_count as nat) + " line"@ + crate::interactive::browser::plural(
        b.line_count,
    ) + " in "@;
    let y = decimal(b.file_count as nat) + " file"@;
    assert(h.subrange(d.len() as int, d.len() as int + y.len()) =~= y);
    assert(occurs_at(h, y, d.len() as int));
    let f = footer_text(b);
    if b.mode == Mode::Filter {
        let z = " filter: "@ + b.query;
        assert(f.subrange(0, z.len() as int) =~= z);
        assert(occurs_at(f, z, 0));
    } else if b.status.len() > 0 {
        let at = f.len() - b.status.len();
        assert(f.subrange(at, f.len() as int) =~= b.status);
    }
}

// ---------------------------------------------------------------------------
// Editors
// ---------------------------------------------------------------------------

/// A line is opened in the editor in whose terminal the browser runs; failing that by the
/// command that is configured, at that line.
pub proof fn lines_are_opened_at_their_place(b: BrowserView, path: Seq<char>, line: usize)
    ensures
        b.ide matches Some(ide) ==> launch_for(b, path, line) == Some(
            launch_of(ide, path, line as nat, 1),
        ),
        b.ide is None ==> ({
            let argv = open_command(b.editor_argv, b.line_template, path, line as nat, 1);
            &&& argv.len() > 0
            &&& launch_for(b, path, line) == Some(
                LaunchView::Program { program: argv[0], args: argv.skip(1) },
            )
        }),
{
    let tokens = crate::interactive::editor::shell_tokens(b.line_template);
    let argv = open_command(b.editor_argv, b.line_template, path, line as nat, 1);
    assert(argv.len() > 0);
}

/// Each editor is told the file and the line in its own way.
pub proof fn editors_are_told_the_place(path: Seq<char>, line: nat, column: nat, ide: IdeView)
    ensures
        launch_of(IdeView::VsCode, path, line, column) == LaunchView::Url(
            "vscode://file"@ + crate::interactive::ide::url_path(path) + ":"@ + decimal(line) + ":"@
                + decimal(column),
        ),
        launch_of(IdeView::Zed, path, line, column) == (LaunchView::Program {
            program: "zed"@,
            args: seq![path + ":"@ + decimal(line) + ":"@ + decimal(column)],
        }),
        ide matches IdeView::JetBrains { launcher, label } ==> launch_of(ide, path, line, column)
            == (LaunchView::Program {
            program: launcher,
            args: seq!["--line"@, decimal(line), path],
        }),
{
}

/// The status says which place was opened, and where; or that it could not be, and by
/// which command.
pub proof fn the_status_tells_how_opening_went(
    b: BrowserView,
    path: Seq<char>,
    line: LineView,
    e: Seq<char>,
)
    ensures
        ({
            let place = "opened "@ + line.file + ":"@ + decimal(line.line as nat);
            let done = told(b, path, line, Ok(()));
            let failed = told(b, path, line, Err(e));
            &&& done == BrowserView { status: done.status, ..b }
            &&& failed == BrowserView { status: failed.status, ..b }
            &&& b.ide is None ==> done.status == place && failed.status == "could not open editor "@
                + open_command(
                b.editor_argv,
                b.line_template,
                path,
                line.line as nat,
                1,
            )[0] + ": "@ + e
            &&& b.ide matches Some(ide) ==> done.status == place + " in "@ + ide_label(ide)
                && failed.status == ide_error(ide)
        }),
{
}

proof fn product_in_is_first(text: Seq<char>, i: int)
    requires
        0 <= i <= product_list().len(),
    ensures
        match product_in(text, i) {
            Some(p) => exists|k: int|
                i <= k < product_list().len() && p == #[trigger] product_list()[k] && has_infix(
                    text,
                    p.hint,
                ) && forall|j: int|
                    i <= j < k ==> !has_infix(text, (#[trigger] product_list()[j]).hint),
            None => forall|j: int|
                i <= j < product_list().len() ==> !has_infix(
                    text,
                    (#[trigger] product_list()[j]).hint,
                ),
        },
    decreases product_list().len() - i,
{
    if i < product_list().len() {
        if has_infix(text, product_list()[i].hint) {
            assert(product_in(text, i)->0 == product_list()[i]);
        } else {
            product_in_is_first(text, i + 1);
            if let Some(p) = product_in(text, i + 1) {
                let k = choose|k: int|
                    i + 1 <= k < product_list().len() && p == #[trigger] product_list()[k]
                        && has_infix(text, p.hint) && forall|j: int|
                        i + 1 <= j < k ==> !has_infix(text, (#[trigger] product_list()[j]).hint);
                assert(p == product_list()[k]);
            }
        }
    }
}

proof fn product_at_hand_is_first(launchers: Seq<Seq<char>>, i: int)
    requires
        0 <= i <= product_list().len(),
    ensures
        match product_at_hand(launchers, i) {
            Some(p) => exists|k: int|
                i <= k < product_list().len() && p == #[trigger] product_list()[k]
                    && launchers.contains(p.launcher) && forall|j: int|
                    i <= j < k ==> !launchers.contains((#[trigger] product_list()[j]).launcher),
            None => forall|j: int|
                i <= j < product_list().len() ==> !launchers.contains(
                    (#[trigger] product_list()[j]).launcher,
                ),
        },
    decreases product_list().len() - i,
{
    if i < product_list().len() {
        if launchers.contains(product_list()[i].launcher) {
            assert(product_at_hand(launchers, i)->0 == product_list()[i]);
        } else {
            product_at_hand_is_first(launchers, i + 1);
            if let Some(p) = product_at_hand(launchers, i + 1) {
                let k = choose|k: int|
                    i + 1 <= k < product_list().len() && p == #[trigger] product_list()[k]
                        && launchers.contains(p.launcher) && forall|j: int|
                        i + 1 <= j < k ==> !launchers.contains((#[trigger] product_list()[j]).launcher);
                assert(p == product_list()[k]);
            }
        }
    }
}

/// The JetBrains editor that owns a terminal is the first that the service name points
/// to, whatever the case; failing that the first whose launcher is at hand; failing that
/// the usual one.
pub proof fn owners_are_named_or_at_hand(service: Option<Seq<char>>, launchers: Seq<Seq<char>>)
    ensures
        ({
            let r = jetbrains_owner_of(service, launchers);
            let named = |k: int|
                0 <= k < product_list().len() && service is Some && has_infix(
                    lowercase(service->0),
                    product_list()[k].hint,
                );
            let at_hand = |k: int|
                0 <= k < product_list().len() && launchers.contains(product_list()[k].launcher);
            &&& forall|k: int|
                #[trigger] named(k) && (forall|j: int| 0 <= j < k ==> !#[trigger] named(j)) ==> r
                    == (IdeView::JetBrains {
                    launcher: product_list()[k].launcher,
                    label: product_list()[k].label,
                })
            &&& (forall|j: int| !#[trigger] named(j)) ==> forall|k: int|
                #[trigger] at_hand(k) && (forall|j: int| 0 <= j < k ==> !#[trigger] at_hand(j)) ==> r
                    == (IdeView::JetBrains {
                    launcher: product_list()[k].launcher,
                    label: product_list()[k].label,
                })
            &&& (forall|j: int| !#[trigger] named(j)) && (forall|j: int| !#[trigger] at_hand(j)) ==> r
                == (IdeView::JetBrains { launcher: "idea"@, label: "JetBrains IDE"@ })
        }),
{
    let named = |k: int|
        0 <= k < product_list().len() && service is Some && has_infix(
            lowercase(service->0),
            product_list()[k].hint,
        );
    let at_hand = |k: int|
        0 <= k < product_list().len() && launchers.contains(product_list()[k].launcher);
    if let Some(s) = service {
        product_in_is_first(lowercase(s), 0);
        if let Some(p) = product_in(lowercase(s), 0) {
            let k = choose|k: int|
                0 <= k < product_list().len() && p == #[trigger] product_list()[k] && has_infix(
                    lowercase(s),
                    p.hint,
                ) && forall|j: int|
                    0 <= j < k ==> !has_infix(lowercase(s), (#[trigger] product_list()[j]).hint);
            assert(named(k));
        } else {
            assert forall|j: int| !#[trigger] named(j) by {
                if 0 <= j < product_list().len() {
                    assert(!has_infix(lowercase(s), product_list()[j].hint));
                }
            }
        }
    }
    product_at_hand_is_first(launchers, 0);
    if let Some(p) = product_at_hand(launchers, 0) {
        let k = choose|k: int|
            0 <= k < product_list().len() && p == #[trigger] product_list()[k]
                && launchers.contains(p.launcher) && forall|j: int|
                0 <= j < k ==> !launchers.contains((#[trigger] product_list()[j]).launcher);
        assert(at_hand(k));
    }
}

/// The editor in whose terminal the browser runs is told from what it sets there.
pub proof fn terminals_are_told_apart(
    program: Option<Seq<char>>,
    emulator: Option<Seq<char>>,
    zed: Option<Seq<char>>,
    service: Option<Seq<char>>,
    launchers: Seq<Seq<char>>,
)
    ensures
        ({
            let r = detected(program, emulator, zed, service, launchers);
            &&& program == Some("vscode"@) ==> r == Some(IdeView::VsCode)
            &&& program != Some("vscode"@) && emulator == Some("JetBrains-JediTerm"@) ==> r == Some(
                jetbrains_owner_of(service, launchers),
            )
            &&& program != Some("vscode"@) && emulator != Some("JetBrains-JediTerm"@) ==> (r
                == Some(IdeView::Zed) <==> program == Some("zed"@) || zed == Some("true"@)) && (r is None
                <==> !(program == Some("zed"@) || zed == Some("true"@)))
        }),
{
}

proof fn basename_starts(s: Seq<char>, e: int)
    requires
        0 <= e <= s.len(),
    ensures
        0 <= basename_start(s, e) <= e,
        basename_start(s, e) > 0 ==> s[basename_start(s, e) - 1] == '/' || s[basename_start(s, e)
            - 1] == '\\',
        forall|j: int|
            basename_start(s, e) <= j < e ==> (#[trigger] s[j]) != '/' && s[j] != '\\',
    decreases e,
{
    if e > 0 && !(s[e - 1] == '/' || s[e - 1] == '\\') {
        basename_starts(s, e - 1);
    }
}

/// The name of an editor is that of its file, without directories and without `.exe`, in
/// lower case.
pub proof fn editors_are_known_by_their_file(dir: Seq<char>, name: Seq<char>)
    requires
        dir.len() == 0 || dir.last() == '/' || dir.last() == '\\',
        forall|j: int| 0 <= j < name.len() ==> (#[trigger] name[j]) != '/' && name[j] != '\\',
        exe_end(name, name.len() as int) == name.len(),
    ensures
        editor_name(dir + name) == lowercase(name),
        editor_name(dir + name + ".exe"@) == lowercase(name),
{
    reveal_strlit(".exe");
    let s = dir + name;
    let n = dir.len() as int;
    basename_starts(s, s.len() as int);
    let b = basename_start(s, s.len() as int);
    assert(b == n) by {
        if b > n {
            assert(s[b - 1] == name[b - 1 - n]);
        }
        if b < n {
            assert(s[n - 1] == dir.last());
        }
    }
    assert(s.skip(n) =~= name);
    assert(name.take(name.len() as int) =~= name);
    let exe = ".exe"@;
    let u = s + exe;
    basename_starts(u, u.len() as int);
    let c = basename_start(u, u.len() as int);
    assert(c == n) by {
        if c > n {
            if c - 1 < s.len() {
                assert(u[c - 1] == name[c - 1 - n]);
            } else {
                assert(u[c - 1] == exe[c - 1 - s.len()]);
            }
        }
        if c < n {
            assert(u[n - 1] == dir.last());
        }
    }
    let base = u.skip(n);
    assert(base =~= name + exe);
    let m = base.len() as int;
    assert(base[m - 4] == '.' && base[m - 3] == 'e' && base[m - 2] == 'x' && base[m - 1] == 'e');
    exe_end_agrees(name, base, m - 4);
    assert(base.take(m - 4) =~= name);
}

proof fn exe_end_agrees(a: Seq<char>, b: Seq<char>, e: int)
    requires
        0 <= e <= a.len(),
        e <= b.len(),
        forall|i: int| 0 <= i < e ==> a[i] == b[i],
    ensures
        exe_end(a, e) == exe_end(b, e),
    decreases e,
{
    if e >= 4 && a[e - 4] == '.' && a[e - 3] == 'e' && a[e - 2] == 'x' && a[e - 1] == 'e' {
        exe_end_agrees(a, b, e - 4);
    }
}

/// Each known editor has its own template; any other gets the usual one.
pub proof fn templates_are_known_by_name(name: Seq<char>, argv: Seq<Seq<char>>)
    ensures
        argv.len() > 0 ==> guessed_template(argv) == template_named(editor_name(argv[0])),
        name == "code"@ || name == "code-insiders"@ || name == "codium"@ ==> template_named(name)
            == "-g {file}:{line}:{column}"@,
        !(name == "code"@ || name == "code-insiders"@ || name == "codium"@ || name == "subl"@ || name
            == "sublime_text"@ || name == "zed"@ || name == "notepad++"@ || name
            == "notepad++.exe"@ || name == "notepad"@) ==> template_named(name)
            == "+{line} {file}"@,
        template_named("subl"@) == "{file}:{line}:{column}"@,
        template_named("sublime_text"@) == "{file}:{line}:{column}"@,
        template_named("zed"@) == "{file}:{line}:{column}"@,
        template_named("notepad++"@) == "-n{line} {file}"@,
        template_named("notepad"@) == "{file}"@,
{
    reveal_strlit("code");
    reveal_strlit("code-insiders");
    reveal_strlit("codium");
    reveal_strlit("subl");
    reveal_strlit("sublime_text");
    reveal_strlit("zed");
    reveal_strlit("notepad++");
    reveal_strlit("notepad++.exe");
    reveal_strlit("notepad");
    assert("code"@.len() == 4 && "code-insiders"@.len() == 13 && "codium"@.len() == 6);
    assert("subl"@.len() == 4 && "sublime_text"@.len() == 12 && "zed"@.len() == 3);
    assert("notepad++"@.len() == 9 && "notepad++.exe"@.len() == 13 && "notepad"@.len() == 7);
    assert("code"@[0] == 'c' && "subl"@[0] == 's');
}

// ---------------------------------------------------------------------------
// Terminals
// ---------------------------------------------------------------------------

/// On a terminal a record reads as its target, its kind and its message, and then each
/// place with its text, one after the other.
pub proof fn records_read_as_their_places(r: RecordView, colors: bool)
    ensures
        ({
            let hits = record_hits(r);
            record_text(r, colors) == painted(r.target, "1"@, colors) + " ("@ + r.resolution_type
                + ")"@ + (match r.message {
                Some(m) => ": "@ + m,
                None => Seq::empty(),
            }) + hits_text(hits, colors, hits.len() as int)
        }),
        painted(r.target, "1"@, false) == r.target,
{
}

/// Every place is named by file and line, on a line of its own, and each line of its text
/// follows on one.
pub proof fn places_read_line_by_line(hits: Seq<HitView>, k: int, colors: bool)
    requires
        0 <= k < hits.len(),
    ensures
        has_infix(hits_text(hits, colors, hits.len() as int), hit_text(hits[k], colors)),
        !colors ==> has_infix(
            hit_text(hits[k], colors),
            "\n  "@ + hits[k].file + ":"@ + decimal(hits[k].start_line as nat),
        ),
{
    let at = hit_is_there(hits, hits.len() as int, k, colors);
    assert(occurs_at(hits_text(hits, colors, hits.len() as int), hit_text(hits[k], colors), at));
    if !colors {
        let h = hits[k];
        let head = "\n  "@ + h.file + ":"@ + decimal(h.start_line as nat);
        let text = hit_text(h, colors);
        assert(text.subrange(0, head.len() as int) =~= head);
        assert(occurs_at(text, head, 0));
    }
}

proof fn hit_is_there(hits: Seq<HitView>, n: int, k: int, colors: bool) -> (at: int)
    requires
        0 <= k < n <= hits.len(),
    ensures
        occurs_at(hits_text(hits, colors, n), hit_text(hits[k], colors), at),
    decreases n,
{
    let before = hits_text(hits, colors, n - 1);
    let all = hits_text(hits, colors, n);
    let own = hit_text(hits[k], colors);
    if k == n - 1 {
        let at = before.len() as int;
        assert(all.subrange(at, at + own.len()) =~= own);
        at
    } else {
        let at = hit_is_there(hits, n - 1, k, colors);
        assert(all.subrange(at, at + own.len()) =~= before.subrange(at, at + own.len()));
        at
    }
}

/// Every line of a text is shown, indented, on a line of its own.
pub proof fn texts_read_line_by_line(ls: Seq<Seq<char>>, k: int)
    requires
        0 <= k < ls.len(),
    ensures
        has_infix(excerpt_text(ls, ls.len() as int), "\n    "@ + ls[k]),
{
    let at = line_is_there(ls, ls.len() as int, k);
    assert(occurs_at(excerpt_text(ls, ls.len() as int), "\n    "@ + ls[k], at));
}

proof fn line_is_there(ls: Seq<Seq<char>>, n: int, k: int) -> (at: int)
    requires
        0 <= k < n <= ls.len(),
    ensures
        occurs_at(excerpt_text(ls, n), "\n    "@ + ls[k], at),
    decreases n,
{
    let before = excerpt_text(ls, n - 1);
    let all = excerpt_text(ls, n);
    let own = "\n    "@ + ls[k];
    if k == n - 1 {
        let at = before.len() as int;
        assert(all.subrange(at, at + own.len()) =~= own);
        at
    } else {
        let at = line_is_there(ls, n - 1, k);
        assert(all.subrange(at, at + own.len()) =~= before.subrange(at, at + own.len()));
        at
    }
}

// ---------------------------------------------------------------------------
// Files
// ---------------------------------------------------------------------------

/// Is file `k` the first with the given path?
pub open spec fn is_first_at(files: Seq<SourceFileView>, path: Seq<char>, k: int) -> bool {
    &&& 0 <= k < files.len()
    &&& same_path(files[k].path, path)
    &&& forall|j: int| 0 <= j < k ==> !same_path((#[trigger] files[j]).path, path)
}

proof fn contents_are_of_the_first(files: Seq<SourceFileView>, path: Seq<char>, i: int, k: int)
    requires
        0 <= i <= k,
        is_first_at(files, path, k),
    ensures
        contents_from(files, path, i) == Some(files[k].bytes),
    decreases k - i,
{
    if i < k {
        assert(!same_path(files[i].path, path));
        contents_are_of_the_first(files, path, i + 1, k);
    }
}

proof fn no_contents(files: Seq<SourceFileView>, path: Seq<char>, i: int)
    requires
        0 <= i,
        forall|j: int| 0 <= j < files.len() ==> !same_path((#[trigger] files[j]).path, path),
    ensures
        contents_from(files, path, i) is None,
    decreases files.len() - i,
{
    if i < files.len() {
        no_contents(files, path, i + 1);
    }
}

/// What is read at a path are the bytes of the first file with that path; nothing, if
/// there is none.
pub proof fn files_are_found_by_path(files: Seq<SourceFileView>, path: Seq<char>, k: int)
    ensures
        is_first_at(files, path, k) ==> contents(files, path) == Some(files[k].bytes),
        (forall|j: int| 0 <= j < files.len() ==> !same_path((#[trigger] files[j]).path, path))
            ==> contents(files, path) is None,
{
    if is_first_at(files, path, k) {
        contents_are_of_the_first(files, path, 0, k);
    }
    if forall|j: int| 0 <= j < files.len() ==> !same_path((#[trigger] files[j]).path, path) {
        no_contents(files, path, 0);
    }
}

/// A path of letters, digits and the few other safe characters stands in a URL as it is.
pub proof fn safe_paths_stay_as_they_are(path: Seq<char>)
    requires
        forall|i: int|
            0 <= i < path.len() ==> url_char(#[trigger] path[i]) && path[i] != '%',
    ensures
        url_path(path) == rooted(path),
{
    let s = rooted(path);
    assert(slashed(path) =~= path);
    assert forall|i: int| 0 <= i < s.len() implies url_char(#[trigger] s[i]) && s[i] != '%' by {
        if path.len() > 0 && path[0] == '/' {
            assert(s[i] == path[i]);
        } else if i > 0 {
            assert(s[i] == path[i - 1]);
        }
    }
    assert(vstd::utf8::is_ascii_chars(s));
    let bytes = vstd::utf8::encode_utf8(s);
    vstd::utf8::is_ascii_chars_encode_utf8(s);
    safe_bytes_stay(s, bytes, bytes.len() as int);
    assert(s.take(s.len() as int) =~= s);
}

proof fn safe_bytes_stay(s: Seq<char>, bytes: Seq<u8>, k: int)
    requires
        0 <= k <= s.len(),
        bytes.len() == s.len(),
        forall|i: int| 0 <= i < s.len() ==> bytes[i] == #[trigger] s[i] as u8,
        forall|i: int| 0 <= i < s.len() ==> url_char(#[trigger] s[i]) && s[i] != '%',
    ensures
        percent_encoded(bytes, k) == s.take(k),
    decreases k,
{
    if k > 0 {
        safe_bytes_stay(s, bytes, k - 1);
        let c = s[k - 1];
        assert(url_char(c) && c != '%');
        assert(bytes[k - 1] == c as u8);
        assert(url_safe(bytes[k - 1]));
        assert(bytes[k - 1] as char == c);
        assert(s.take(k) =~= s.take(k - 1).push(c));
    } else {
        assert(s.take(0) =~= Seq::empty());
    }
}

} // verus!
