//! The browser as a state machine.
//!
//! A key changes the state; opening a line is asked of the caller, who hands back
//! how it went. What the screen shows is computed from the state.

use crate::interactive::editor::{open_args, open_command};
use crate::interactive::fold::{
    built_trees_are_well_formed, splicing_matches_full_build,
};
use crate::interactive::ide::{ide_error, ide_label, launch_of, Ide, IdeView, Launch, LaunchView};
use crate::interactive::tree::{
    all_folder_paths, build_tree, build_visible, closed_rows, folder_paths, lines_among,
    opened_rows, path_in_id, path_of_id, run_end, splice_collapse, splice_expand, tree_of,
    visible, Line, LineView, Node, NodeView, Row, RowView,
};
use crate::names::NameSet;
use crate::text::{
    chars_of, concat, concat3, contains, decimal, decimal_of, find_char, has_infix, is_empty,
    lowercase, next_of, opt_view, pad_left, padded, repeat_char, repeated, same_str,
    substring_of, to_lowercase, views,
};
use vstd::prelude::*;
use vstd::string::*;

verus! {

/// Is the browser being navigated, or is a filter being typed?
#[derive(Clone, Copy, Debug, PartialEq, Eq, Structural)]
pub enum Mode {
    Browse,
    Filter,
}

/// A key.
#[derive(Clone, Copy, Debug, PartialEq, Eq, Structural)]
pub enum Key {
    Up,
    Down,
    Left,
    Right,
    Home,
    End,
    Enter,
    Esc,
    Backspace,
    Char(char),
    Other,
}

/// The browser.
pub struct Browser {
    pub title: String,
    pub all_lines: Vec<Line>,
    pub query: String,
    pub mode: Mode,
    /// The paths of the open folders.
    pub expanded: NameSet,
    /// The tree of the lines that the query `tree_query` selects.
    pub tree: Node,
    pub tree_query: String,
    pub rows: Vec<Row>,
    pub line_count: usize,
    pub file_count: usize,
    pub cursor: usize,
    /// The identifier of the row under the cursor.
    pub cur_id: Option<String>,
    /// The first row on the screen.
    pub top: usize,
    pub status: String,
    pub jump_active: bool,
    pub jump_buf: String,
    pub quit: bool,
    pub ide: Option<Ide>,
    pub editor_argv: Vec<String>,
    pub line_template: String,
}

/// The mathematical value of a [`Browser`].
pub struct BrowserView {
    pub title: Seq<char>,
    pub all_lines: Seq<LineView>,
    pub query: Seq<char>,
    pub mode: Mode,
    pub expanded: Set<Seq<char>>,
    pub tree: NodeView,
    pub tree_query: Seq<char>,
    pub rows: Seq<RowView>,
    pub line_count: usize,
    pub file_count: usize,
    pub cursor: usize,
    pub cur_id: Option<Seq<char>>,
    pub top: usize,
    pub status: Seq<char>,
    pub jump_active: bool,
    pub jump_buf: Seq<char>,
    pub quit: bool,
    pub ide: Option<IdeView>,
    pub editor_argv: Seq<Seq<char>>,
    pub line_template: Seq<char>,
}

impl View for Browser {
    type V = BrowserView;

    open spec fn view(&self) -> BrowserView {
        BrowserView {
            title: self.title@,
            all_lines: views(self.all_lines@),
            query: self.query@,
            mode: self.mode,
            expanded: self.expanded@,
            tree: self.tree@,
            tree_query: self.tree_query@,
            rows: views(self.rows@),
            line_count: self.line_count,
            file_count: self.file_count,
            cursor: self.cursor,
            cur_id: opt_view(self.cur_id),
            top: self.top,
            status: self.status@,
            jump_active: self.jump_active,
            jump_buf: self.jump_buf@,
            quit: self.quit,
            ide: opt_view(self.ide),
            editor_argv: views(self.editor_argv@),
            line_template: self.line_template@,
        }
    }
}

// ---------------------------------------------------------------------------
// Filtering
// ---------------------------------------------------------------------------

/// Does a line match a filter: does its file, its text or its label hold the query,
/// whatever the case?
pub open spec fn line_matches(l: LineView, query: Seq<char>) -> bool {
    let q = lowercase(query);
    ||| has_infix(lowercase(l.file), q)
    ||| has_infix(lowercase(l.text), q)
    ||| has_infix(
        lowercase(
            match l.label {
                Some(t) => t,
                None => Seq::empty(),
            },
        ),
        q,
    )
}

/// Those of the first `k` lines that a query selects; all of them if it is empty.
pub open spec fn filtered(lines: Seq<LineView>, query: Seq<char>, k: int) -> Seq<LineView>
    decreases k,
{
    if k <= 0 {
        Seq::empty()
    } else {
        let before = filtered(lines, query, k - 1);
        if query.len() == 0 || line_matches(lines[k - 1], query) {
            before.push(lines[k - 1])
        } else {
            before
        }
    }
}

/// The tree of the lines that a query selects.
pub open spec fn query_tree(lines: Seq<LineView>, query: Seq<char>) -> NodeView {
    let ls = filtered(lines, query, lines.len() as int);
    tree_of(ls, ls.len() as int)
}

fn is_line_match(l: &Line, query: &str) -> (r: bool)
    ensures
        r == line_matches(l@, query@),
{
    let q = to_lowercase(query);
    if contains(&to_lowercase(&l.file), &q) || contains(&to_lowercase(&l.text), &q) {
        return true;
    }
    match &l.label {
        Some(t) => contains(&to_lowercase(t), &q),
        None => {
            let none = String::new();
            assert(none@ =~= Seq::empty());
            contains(&to_lowercase(&none), &q)
        },
    }
}

fn filter_lines(lines: &Vec<Line>, query: &str) -> (r: Vec<Line>)
    ensures
        views(r@) == filtered(views(lines@), query@, lines@.len() as int),
{
    let ghost all = views(lines@);
    let everything = is_empty(query);
    let mut out: Vec<Line> = Vec::new();
    let mut k: usize = 0;
    assert(views(out@) =~= Seq::empty());
    while k < lines.len()
        invariant
            k <= lines@.len(),
            all == views(lines@),
            everything == (query@.len() == 0),
            views(out@) == filtered(all, query@, k as int),
        decreases lines@.len() - k,
    {
        assert(all[k as int] == lines@[k as int]@);
        if everything || is_line_match(&lines[k], query) {
            let ghost before = views(out@);
            out.push(lines[k].clone());
            assert(views(out@) =~= before.push(all[k as int]));
        }
        k += 1;
    }
    out
}

// ---------------------------------------------------------------------------
// Rows and the cursor
// ---------------------------------------------------------------------------

/// The files of the lines among the first `k` rows.
pub open spec fn files_shown(rows: Seq<RowView>, k: int) -> Set<Seq<char>>
    decreases k,
{
    if k <= 0 {
        Set::empty()
    } else {
        match rows[k - 1].line {
            Some(l) => files_shown(rows, k - 1).insert(l.file),
            None => files_shown(rows, k - 1),
        }
    }
}

/// The browser with its tallies brought up to date.
pub open spec fn retallied(b: BrowserView) -> BrowserView {
    BrowserView {
        line_count: lines_among(b.rows, b.rows.len() as int) as usize,
        file_count: files_shown(b.rows, b.rows.len() as int).len() as usize,
        ..b
    }
}

/// The first of the rows from `i` on with the given identifier, or the number of
/// rows.
pub open spec fn row_with_id(rows: Seq<RowView>, id: Seq<char>, i: int) -> int
    decreases rows.len() - i,
{
    if i < 0 || i >= rows.len() {
        rows.len() as int
    } else if rows[i].id == id {
        i
    } else {
        row_with_id(rows, id, i + 1)
    }
}

/// The first of the rows from `i` on that is a line, or the number of rows.
pub open spec fn first_line(rows: Seq<RowView>, i: int) -> int
    decreases rows.len() - i,
{
    if i < 0 || i >= rows.len() {
        rows.len() as int
    } else if !rows[i].is_folder {
        i
    } else {
        first_line(rows, i + 1)
    }
}

/// The identifier of the row under the cursor.
pub open spec fn id_under(rows: Seq<RowView>, cursor: int) -> Option<Seq<char>> {
    if 0 <= cursor < rows.len() {
        Some(rows[cursor].id)
    } else {
        None
    }
}

/// The browser with the identifier under the cursor brought up to date.
pub open spec fn synced(b: BrowserView) -> BrowserView {
    BrowserView { cur_id: id_under(b.rows, b.cursor as int), ..b }
}

/// Where the cursor goes when rows are built anew: to the row it was on, else to the
/// first line, else to the first row.
pub open spec fn cursor_after(rows: Seq<RowView>, cur_id: Option<Seq<char>>) -> int {
    let fallback = if first_line(rows, 0) < rows.len() {
        first_line(rows, 0)
    } else {
        0
    };
    match cur_id {
        Some(id) => if row_with_id(rows, id, 0) < rows.len() {
            row_with_id(rows, id, 0)
        } else {
            fallback
        },
        None => fallback,
    }
}

/// The browser with its tree, if the query has changed, and its rows built anew.
pub open spec fn rebuilt(b: BrowserView) -> BrowserView {
    let tree = if b.tree_query == b.query {
        b.tree
    } else {
        query_tree(b.all_lines, b.query)
    };
    let rows = visible(tree, b.expanded);
    synced(
        BrowserView {
            cursor: cursor_after(rows, b.cur_id) as usize,
            ..retallied(BrowserView { tree, tree_query: b.query, rows, ..b })
        },
    )
}

/// The browser with the cursor on the given row, or on the last one.
pub open spec fn moved_to(b: BrowserView, index: int) -> BrowserView {
    if b.rows.len() == 0 {
        b
    } else {
        synced(
            BrowserView {
                cursor: (if index < b.rows.len() {
                    index
                } else {
                    b.rows.len() - 1
                }) as usize,
                ..b
            },
        )
    }
}

/// The browser with the cursor moved by `delta` rows, within the rows.
pub open spec fn moved(b: BrowserView, delta: int) -> BrowserView {
    let c = b.cursor + delta;
    moved_to(
        b,
        if c < 0 {
            0
        } else {
            c
        },
    )
}

/// The browser with the folder in row `i` open.
pub open spec fn opened_at(b: BrowserView, i: int) -> BrowserView {
    let expanded = b.expanded.insert(path_of_id(b.rows[i].id));
    synced(
        retallied(
            BrowserView { expanded, rows: opened_rows(b.rows, i, b.tree, expanded), ..b },
        ),
    )
}

/// The browser with the folder in row `i` closed.
pub open spec fn closed_at(b: BrowserView, i: int) -> BrowserView {
    let expanded = b.expanded.remove(path_of_id(b.rows[i].id));
    synced(retallied(BrowserView { expanded, rows: closed_rows(b.rows, i), ..b }))
}

/// The browser after stepping into the row under the cursor: a closed folder opens,
/// an open one is entered.
pub open spec fn stepped_in(b: BrowserView) -> BrowserView {
    if b.cursor < b.rows.len() && b.rows[b.cursor as int].is_folder {
        if b.rows[b.cursor as int].expanded {
            moved(b, 1)
        } else {
            opened_at(b, b.cursor as int)
        }
    } else {
        b
    }
}

/// The position of the last slash among the first `e` characters.
pub open spec fn last_slash(s: Seq<char>, e: int) -> Option<int>
    decreases e,
{
    if e <= 0 {
        None
    } else if s[e - 1] == '/' {
        Some(e - 1)
    } else {
        last_slash(s, e - 1)
    }
}

/// The path of a row: that of a folder, or that of the file of a line.
pub open spec fn row_path(r: RowView) -> Seq<char> {
    if r.is_folder {
        path_of_id(r.id)
    } else {
        let p = path_of_id(r.id);
        p.take(next_of(p, '\0', 0))
    }
}

/// The browser after stepping out of the row under the cursor: an open folder
/// closes; from any other row the cursor goes to the folder that its path is in.
pub open spec fn stepped_out(b: BrowserView) -> BrowserView {
    if b.cursor >= b.rows.len() {
        b
    } else {
        let row = b.rows[b.cursor as int];
        if row.is_folder && row.expanded {
            closed_at(b, b.cursor as int)
        } else {
            let path = row_path(row);
            match last_slash(path, path.len() as int) {
                Some(i) => {
                    let target = row_with_id(b.rows, "F:"@ + path.take(i), 0);
                    if target < b.rows.len() {
                        moved_to(b, target)
                    } else {
                        b
                    }
                },
                None => b,
            }
        }
    }
}

// ---------------------------------------------------------------------------
// Files
// ---------------------------------------------------------------------------

/// Is this the row of a file?
pub open spec fn file_row(r: RowView) -> bool {
    r.is_folder && r.is_file_node
}

/// The first file row from `i` on, or the number of rows.
pub open spec fn file_row_from(rows: Seq<RowView>, i: int) -> int
    decreases rows.len() - i,
{
    if i < 0 || i >= rows.len() {
        rows.len() as int
    } else if file_row(rows[i]) {
        i
    } else {
        file_row_from(rows, i + 1)
    }
}

/// The last file row before `i`.
pub open spec fn file_row_before(rows: Seq<RowView>, i: int) -> Option<int>
    decreases i,
{
    if i <= 0 {
        None
    } else if i <= rows.len() && file_row(rows[i - 1]) {
        Some(i - 1)
    } else {
        file_row_before(rows, i - 1)
    }
}

/// The last row before `i` that is higher than `depth`.
pub open spec fn row_above(rows: Seq<RowView>, depth: int, i: int) -> Option<int>
    decreases i,
{
    if i <= 0 {
        None
    } else if i <= rows.len() && rows[i - 1].depth < depth {
        Some(i - 1)
    } else {
        row_above(rows, depth, i - 1)
    }
}

/// The file row that row `i` belongs to: itself, or the folder it is in if that is
/// a file.
pub open spec fn owning_file(rows: Seq<RowView>, i: int) -> Option<int> {
    if i < 0 || i >= rows.len() {
        None
    } else if file_row(rows[i]) {
        Some(i)
    } else {
        match row_above(rows, rows[i].depth as int, i) {
            Some(p) => if file_row(rows[p]) {
                Some(p)
            } else {
                None
            },
            None => None,
        }
    }
}

/// The browser with the cursor on the first line of the file in row `i`, which is
/// opened if it is closed.
pub open spec fn at_file(b: BrowserView, i: int) -> BrowserView {
    let o = if b.rows[i].expanded {
        b
    } else {
        opened_at(b, i)
    };
    if i + 1 < o.rows.len() && o.rows[i + 1].depth > o.rows[i].depth {
        moved_to(o, i + 1)
    } else {
        moved_to(o, i)
    }
}

/// The row from which the next and the previous file are counted.
pub open spec fn file_anchor(b: BrowserView) -> int {
    match owning_file(b.rows, b.cursor as int) {
        Some(i) => i,
        None => b.cursor as int,
    }
}

/// The browser at the next file; at the last one, it says so and stays.
pub open spec fn at_next_file(b: BrowserView) -> BrowserView {
    let next = file_row_from(b.rows, file_anchor(b) + 1);
    if file_row_from(b.rows, 0) == b.rows.len() {
        b
    } else if next < b.rows.len() {
        at_file(b, next)
    } else {
        BrowserView { status: "already on the last file"@, ..b }
    }
}

/// The browser at the previous file; at the first one, it says so and stays.
pub open spec fn at_prev_file(b: BrowserView) -> BrowserView {
    if file_row_from(b.rows, 0) == b.rows.len() {
        b
    } else {
        match file_row_before(b.rows, file_anchor(b)) {
            Some(i) => at_file(b, i),
            None => BrowserView { status: "already on the first file"@, ..b },
        }
    }
}

// ---------------------------------------------------------------------------
// Jumping
// ---------------------------------------------------------------------------

/// Is this a decimal digit?
pub open spec fn is_digit(c: char) -> bool {
    '0' <= c && c <= '9'
}

/// The value of the first `k` digits.
pub open spec fn digits_value(s: Seq<char>, k: int) -> int
    decreases k,
{
    if k <= 0 {
        0
    } else {
        digits_value(s, k - 1) * 10 + (s[k - 1] as int - '0' as int)
    }
}

/// The number that a text writes in decimal; zero if it writes none, or one that is
/// too large.
pub open spec fn number_in(s: Seq<char>) -> int {
    if s.len() > 0 && (forall|i: int| 0 <= i < s.len() ==> is_digit(#[trigger] s[i])) && digits_value(
        s,
        s.len() as int,
    ) <= usize::MAX {
        digits_value(s, s.len() as int)
    } else {
        0
    }
}

/// The row with the first jump number among the rows from `i` on that is not below
/// `n`; else the last row with a number, or `last`.
pub open spec fn jump_row(rows: Seq<RowView>, n: int, i: int, last: Option<int>) -> Option<int>
    decreases rows.len() - i,
{
    if i < 0 || i >= rows.len() {
        last
    } else {
        match rows[i].number {
            Some(m) => if m >= n {
                Some(i)
            } else {
                jump_row(rows, n, i + 1, Some(i))
            },
            None => jump_row(rows, n, i + 1, last),
        }
    }
}

/// The browser with the cursor on the line whose number has been typed.
pub open spec fn jumped(b: BrowserView) -> BrowserView {
    if b.jump_buf.len() == 0 {
        b
    } else {
        match jump_row(b.rows, number_in(b.jump_buf), 0, None) {
            Some(i) => moved_to(b, i),
            None => b,
        }
    }
}

// ---------------------------------------------------------------------------
// Keys
// ---------------------------------------------------------------------------

/// What a key leads to: the browser after it, and the line to open, if any.
pub struct Outcome {
    pub browser: BrowserView,
    pub open: Option<LineView>,
}

/// The browser after Enter: a folder opens or closes; a line is to be opened.
pub open spec fn entered(b: BrowserView) -> Outcome {
    if b.cursor >= b.rows.len() {
        Outcome { browser: b, open: None }
    } else {
        let row = b.rows[b.cursor as int];
        if row.is_folder {
            Outcome {
                browser: if row.expanded {
                    closed_at(b, b.cursor as int)
                } else {
                    opened_at(b, b.cursor as int)
                },
                open: None,
            }
        } else {
            Outcome { browser: b, open: row.line }
        }
    }
}

/// The browser after a key that moves or acts.
pub open spec fn navigated(b: BrowserView, key: Key) -> Outcome {
    let stay = |x: BrowserView| Outcome { browser: x, open: None };
    match key {
        Key::Up => stay(moved(b, -1)),
        Key::Down => stay(moved(b, 1)),
        Key::Home => stay(moved_to(b, 0)),
        Key::End => stay(moved_to(b, b.rows.len() as int)),
        Key::Left => stay(stepped_out(b)),
        Key::Right => stay(stepped_in(b)),
        Key::Enter => entered(b),
        Key::Esc => stay(BrowserView { quit: true, ..b }),
        Key::Char(c) => if c == 'k' {
            stay(moved(b, -1))
        } else if c == 'j' {
            stay(moved(b, 1))
        } else if c == 'g' {
            stay(moved_to(b, 0))
        } else if c == 'G' {
            stay(moved_to(b, b.rows.len() as int))
        } else if c == 'h' {
            stay(stepped_out(b))
        } else if c == 'l' {
            stay(stepped_in(b))
        } else if c == 'n' {
            stay(at_next_file(b))
        } else if c == 'p' {
            stay(at_prev_file(b))
        } else if c == '/' {
            stay(BrowserView { mode: Mode::Filter, ..b })
        } else if c == ':' {
            stay(BrowserView { jump_active: true, jump_buf: Seq::empty(), ..b })
        } else if c == 'q' {
            stay(BrowserView { quit: true, ..b })
        } else {
            stay(b)
        },
        _ => stay(b),
    }
}

/// `s` without its last character.
pub open spec fn without_last(s: Seq<char>) -> Seq<char> {
    if s.len() > 0 {
        s.drop_last()
    } else {
        s
    }
}

/// The browser after a key while browsing. While a number is typed, digits,
/// Backspace and `:` edit it; any other key ends it, and acts unless it is Enter or
/// Esc.
pub open spec fn browsed(b: BrowserView, key: Key) -> Outcome {
    if b.jump_active {
        match key {
            Key::Char(c) if c == ':' => Outcome {
                browser: BrowserView { jump_buf: Seq::empty(), ..b },
                open: None,
            },
            Key::Char(c) if is_digit(c) => Outcome {
                browser: jumped(BrowserView { jump_buf: b.jump_buf.push(c), ..b }),
                open: None,
            },
            Key::Backspace => Outcome {
                browser: jumped(BrowserView { jump_buf: without_last(b.jump_buf), ..b }),
                open: None,
            },
            Key::Enter | Key::Esc => Outcome {
                browser: BrowserView { jump_active: false, ..b },
                open: None,
            },
            _ => navigated(BrowserView { jump_active: false, ..b }, key),
        }
    } else {
        navigated(b, key)
    }
}

/// The browser after a key while a filter is typed.
pub open spec fn typed(b: BrowserView, key: Key) -> BrowserView {
    match key {
        Key::Esc => rebuilt(
            BrowserView { query: Seq::empty(), mode: Mode::Browse, cur_id: None, ..b },
        ),
        Key::Enter => BrowserView { mode: Mode::Browse, ..b },
        Key::Backspace => rebuilt(
            BrowserView { query: without_last(b.query), cur_id: None, ..b },
        ),
        Key::Char(c) => rebuilt(BrowserView { query: b.query.push(c), cur_id: None, ..b }),
        _ => b,
    }
}

/// The browser after a key.
pub open spec fn after_key(b: BrowserView, key: Key) -> Outcome {
    let clear = BrowserView { status: Seq::empty(), ..b };
    match b.mode {
        Mode::Browse => browsed(clear, key),
        Mode::Filter => Outcome { browser: typed(clear, key), open: None },
    }
}

// ---------------------------------------------------------------------------
// The machine
// ---------------------------------------------------------------------------

fn find_row(rows: &Vec<Row>, id: &str) -> (r: usize)
    ensures
        r == row_with_id(views(rows@), id@, 0),
        r <= rows@.len(),
{
    let ghost all = views(rows@);
    let mut i: usize = 0;
    while i < rows.len() && !same_str(&rows[i].id, id)
        invariant
            i <= rows@.len(),
            all == views(rows@),
            row_with_id(all, id@, i as int) == row_with_id(all, id@, 0),
        decreases rows@.len() - i,
    {
        assert(all[i as int] == rows@[i as int]@);
        i += 1;
    }
    assert(i < rows@.len() ==> all[i as int] == rows@[i as int]@);
    i
}

fn find_first_line(rows: &Vec<Row>) -> (r: usize)
    ensures
        r == first_line(views(rows@), 0),
        r <= rows@.len(),
{
    let ghost all = views(rows@);
    let mut i: usize = 0;
    while i < rows.len() && rows[i].is_folder
        invariant
            i <= rows@.len(),
            all == views(rows@),
            first_line(all, i as int) == first_line(all, 0),
        decreases rows@.len() - i,
    {
        assert(all[i as int] == rows@[i as int]@);
        i += 1;
    }
    assert(i < rows@.len() ==> all[i as int] == rows@[i as int]@);
    i
}

fn is_file_row(r: &Row) -> (b: bool)
    ensures
        b == file_row(r@),
{
    r.is_folder && r.is_file_node
}

fn find_file_row(rows: &Vec<Row>, from: usize) -> (r: usize)
    requires
        from <= rows@.len(),
    ensures
        r == file_row_from(views(rows@), from as int),
        r <= rows@.len(),
{
    let ghost all = views(rows@);
    let mut i: usize = from;
    while i < rows.len() && !is_file_row(&rows[i])
        invariant
            from <= i <= rows@.len(),
            all == views(rows@),
            file_row_from(all, i as int) == file_row_from(all, from as int),
        decreases rows@.len() - i,
    {
        assert(all[i as int] == rows@[i as int]@);
        i += 1;
    }
    assert(i < rows@.len() ==> all[i as int] == rows@[i as int]@);
    assert(all.len() == rows@.len());
    i
}

fn find_file_row_before(rows: &Vec<Row>, before: usize) -> (r: Option<usize>)
    ensures
        match r {
            Some(i) => file_row_before(views(rows@), before as int) == Some(i as int) && i
                < rows@.len(),
            None => file_row_before(views(rows@), before as int) is None,
        },
{
    let ghost all = views(rows@);
    let mut i: usize = before;
    while i > 0
        invariant
            all == views(rows@),
            file_row_before(all, i as int) == file_row_before(all, before as int),
        decreases i,
    {
        assert(all.len() == rows@.len());
        if i <= rows.len() {
            assert(all[i - 1] == rows@[i - 1]@);
            if is_file_row(&rows[i - 1]) {
                return Some(i - 1);
            }
        }
        i -= 1;
    }
    None
}

fn find_owning_file(rows: &Vec<Row>, i: usize) -> (r: Option<usize>)
    ensures
        match r {
            Some(p) => owning_file(views(rows@), i as int) == Some(p as int),
            None => owning_file(views(rows@), i as int) is None,
        },
        r matches Some(p) ==> p < rows@.len(),
{
    let ghost all = views(rows@);
    assert(all.len() == rows@.len());
    if i >= rows.len() {
        return None;
    }
    assert(all[i as int] == rows@[i as int]@);
    if is_file_row(&rows[i]) {
        return Some(i);
    }
    let depth = rows[i].depth;
    let mut k: usize = i;
    while k > 0
        invariant
            k <= i < rows@.len(),
            all == views(rows@),
            depth == all[i as int].depth,
            !file_row(all[i as int]),
            row_above(all, depth as int, k as int) == row_above(all, depth as int, i as int),
        decreases k,
    {
        assert(all.len() == rows@.len());
        assert(all[k - 1] == rows@[k - 1]@);
        if rows[k - 1].depth < depth {
            return if is_file_row(&rows[k - 1]) {
                Some(k - 1)
            } else {
                None
            };
        }
        k -= 1;
    }
    None
}

fn is_digit_char(c: char) -> (r: bool)
    ensures
        r == is_digit(c),
{
    '0' <= c && c <= '9'
}

proof fn digits_value_grows(s: Seq<char>, j: int, k: int)
    requires
        0 <= j <= k <= s.len(),
        forall|i: int| 0 <= i < k ==> is_digit(#[trigger] s[i]),
    ensures
        0 <= digits_value(s, j) <= digits_value(s, k),
    decreases k,
{
    if k > 0 {
        assert(is_digit(s[k - 1]));
        if j < k {
            digits_value_grows(s, j, k - 1);
        } else {
            digits_value_grows(s, j - 1, k - 1);
        }
    }
}

fn parse_number(s: &str) -> (r: usize)
    ensures
        r == number_in(s@),
{
    let c = chars_of(s);
    let mut i: usize = 0;
    while i < c.len()
        invariant
            i <= c@.len(),
            c@ == s@,
            forall|k: int| 0 <= k < i ==> is_digit(#[trigger] s@[k]),
        decreases c@.len() - i,
    {
        if !is_digit_char(c[i]) {
            return 0;
        }
        i += 1;
    }
    let mut n: usize = 0;
    let mut k: usize = 0;
    while k < c.len()
        invariant
            k <= c@.len(),
            c@ == s@,
            forall|j: int| 0 <= j < c@.len() ==> is_digit(#[trigger] s@[j]),
            n == digits_value(s@, k as int),
        decreases c@.len() - k,
    {
        assert(is_digit(s@[k as int]));
        let d: usize = (c[k] as u32 - '0' as u32) as usize;
        proof {
            digits_value_grows(s@, k + 1, c@.len() as int);
        }
        if n > (usize::MAX - d) / 10 {
            assert(n * 10 + d > usize::MAX) by (nonlinear_arith)
                requires
                    n > (usize::MAX - d) / 10,
                    0 <= d <= 9,
            ;
            return 0;
        }
        assert(n * 10 + d <= usize::MAX) by (nonlinear_arith)
            requires
                n <= (usize::MAX - d) / 10,
                0 <= d <= 9,
        ;
        n = n * 10 + d;
        k += 1;
    }
    n
}

fn find_jump_row(rows: &Vec<Row>, n: usize) -> (r: Option<usize>)
    ensures
        match r {
            Some(i) => jump_row(views(rows@), n as int, 0, None) == Some(i as int),
            None => jump_row(views(rows@), n as int, 0, None) is None,
        },
{
    let ghost all = views(rows@);
    let mut last: Option<usize> = None;
    let mut i: usize = 0;
    while i < rows.len()
        invariant
            i <= rows@.len(),
            all == views(rows@),
            jump_row(all, n as int, 0, None) == jump_row(
                all,
                n as int,
                i as int,
                match last {
                    Some(x) => Some(x as int),
                    None => None,
                },
            ),
        decreases rows@.len() - i,
    {
        assert(all[i as int] == rows@[i as int]@);
        if let Some(m) = rows[i].number {
            if m >= n {
                return Some(i);
            }
            last = Some(i);
        }
        i += 1;
    }
    assert(all.len() == rows@.len());
    last
}

fn drop_last_char(s: &str) -> (r: String)
    ensures
        r@ == without_last(s@),
{
    let c = chars_of(s);
    if c.len() == 0 {
        return s.to_owned();
    }
    assert(c@.subrange(0, c@.len() - 1) =~= c@.drop_last());
    substring_of(&c, 0, c.len() - 1)
}

impl Browser {
    /// A browser over the given lines, with every folder open.
    pub fn new(
        title: String,
        lines: Vec<Line>,
        ide: Option<Ide>,
        editor_argv: Vec<String>,
        line_template: String,
    ) -> (r: Browser)
        ensures
            r@ == started(
                title@,
                views(lines@),
                opt_view(ide),
                views(editor_argv@),
                line_template@,
            ),
            on_a_row(r@),
    {
        let query = String::new();
        assert(query@ =~= Seq::empty());
        let tree = build_tree(&filter_lines(&lines, &query));
        let mut expanded = NameSet::new();
        all_folder_paths(&tree, &mut expanded);
        assert(expanded@ =~= folder_paths(tree@, tree@.children.len() as int));
        let mut b = Browser {
            title,
            all_lines: lines,
            query: String::new(),
            mode: Mode::Browse,
            expanded,
            tree,
            tree_query: query,
            rows: Vec::new(),
            line_count: 0,
            file_count: 0,
            cursor: 0,
            cur_id: None,
            top: 0,
            status: String::new(),
            jump_active: false,
            jump_buf: String::new(),
            quit: false,
            ide,
            editor_argv,
            line_template,
        };
        assert(b@.query =~= Seq::empty());
        assert(b@.status =~= Seq::empty());
        assert(b@.jump_buf =~= Seq::empty());
        assert(b@.rows =~= Seq::empty());
        b.rebuild();
        b
    }

    /// Builds the rows anew, and the tree where the query has changed.
    pub fn rebuild(&mut self)
        ensures
            final(self)@ == rebuilt(old(self)@),
            on_a_row(final(self)@),
    {
        if !same_str(&self.tree_query, &self.query) {
            let lines = filter_lines(&self.all_lines, &self.query);
            assert(views(lines@).len() == lines@.len());
            assert(views(self.all_lines@).len() == self.all_lines@.len());
            self.tree = build_tree(&lines);
            self.tree_query = self.query.clone();
        }
        self.rows = build_visible(&self.tree, &self.expanded);
        self.retally();
        let n = self.rows.len();
        assert(views(self.rows@).len() == n);
        let line = find_first_line(&self.rows);
        let fallback: usize = if line < n { line } else { 0 };
        self.cursor = match &self.cur_id {
            Some(id) => {
                let i = find_row(&self.rows, id);
                if i < n {
                    i
                } else {
                    fallback
                }
            },
            None => fallback,
        };
        self.sync_id();
    }

    fn retally(&mut self)
        ensures
            final(self)@ == retallied(old(self)@),
    {
        let ghost all = views(self.rows@);
        let mut n: usize = 0;
        let mut files = NameSet::new();
        let mut k: usize = 0;
        while k < self.rows.len()
            invariant
                k <= self.rows@.len(),
                all == views(self.rows@),
                n <= k,
                n == lines_among(all, k as int),
                files@ == files_shown(all, k as int),
            decreases self.rows@.len() - k,
        {
            assert(all[k as int] == self.rows@[k as int]@);
            if !self.rows[k].is_folder {
                n += 1;
            }
            if let Some(l) = &self.rows[k].line {
                let _ = files.insert(&l.file);
            }
            k += 1;
        }
        assert(all.len() == self.rows@.len());
        self.line_count = n;
        self.file_count = files.len();
    }

    fn sync_id(&mut self)
        ensures
            final(self)@ == synced(old(self)@),
    {
        assert(views(self.rows@).len() == self.rows@.len());
        self.cur_id =
        if self.cursor < self.rows.len() {
            assert(views(self.rows@)[self.cursor as int] == self.rows@[self.cursor as int]@);
            Some(self.rows[self.cursor].id.clone())
        } else {
            None
        };
    }

    fn move_to(&mut self, index: usize)
        ensures
            final(self)@ == moved_to(old(self)@, index as int),
            on_a_row(old(self)@) ==> on_a_row(final(self)@),
    {
        assert(views(self.rows@).len() == self.rows@.len());
        let n = self.rows.len();
        if n == 0 {
            return ;
        }
        self.cursor = if index < n { index } else { n - 1 };
        self.sync_id();
    }

    fn move_up(&mut self)
        ensures
            final(self)@ == moved(old(self)@, -1),
            on_a_row(old(self)@) ==> on_a_row(final(self)@),
    {
        let c = self.cursor;
        self.move_to(if c > 0 { c - 1 } else { 0 });
    }

    fn move_down(&mut self)
        ensures
            final(self)@ == moved(old(self)@, 1),
            on_a_row(old(self)@) ==> on_a_row(final(self)@),
    {
        let c = self.cursor;
        assert(views(self.rows@).len() == self.rows@.len());
        if c < self.rows.len() {
            self.move_to(c + 1);
        } else {
            let n = self.rows.len();
            self.move_to(n);
        }
    }

    fn expand_at(&mut self, index: usize)
        requires
            index < old(self).rows@.len(),
        ensures
            final(self)@ == opened_at(old(self)@, index as int),
            on_a_row(old(self)@) ==> on_a_row(final(self)@),
    {
        assert(views(self.rows@)[index as int] == self.rows@[index as int]@);
        let path = path_in_id(&self.rows[index].id);
        let _ = self.expanded.insert(&path);
        splice_expand(&mut self.rows, index, &self.tree, &self.expanded);
        self.retally();
        self.sync_id();
    }

    fn collapse_at(&mut self, index: usize)
        requires
            index < old(self).rows@.len(),
            index == old(self).cursor,
        ensures
            final(self)@ == closed_at(old(self)@, index as int),
            on_a_row(old(self)@) ==> on_a_row(final(self)@),
    {
        assert(views(self.rows@)[index as int] == self.rows@[index as int]@);
        let path = path_in_id(&self.rows[index].id);
        let _ = self.expanded.remove(&path);
        proof {
            run_end_bounds(self@.rows, self@.rows[index as int].depth as int, index + 1);
        }
        splice_collapse(&mut self.rows, index);
        self.retally();
        self.sync_id();
    }

    /// Steps into the row under the cursor.
    pub fn expand(&mut self)
        ensures
            final(self)@ == stepped_in(old(self)@),
            on_a_row(old(self)@) ==> on_a_row(final(self)@),
    {
        assert(views(self.rows@).len() == self.rows@.len());
        let c = self.cursor;
        if c >= self.rows.len() {
            return ;
        }
        assert(views(self.rows@)[c as int] == self.rows@[c as int]@);
        if !self.rows[c].is_folder {
            return ;
        }
        if self.rows[c].expanded {
            self.move_down();
        } else {
            self.expand_at(c);
        }
    }

    /// Steps out of the row under the cursor.
    pub fn collapse(&mut self)
        ensures
            final(self)@ == stepped_out(old(self)@),
            on_a_row(old(self)@) ==> on_a_row(final(self)@),
    {
        assert(views(self.rows@).len() == self.rows@.len());
        let c = self.cursor;
        if c >= self.rows.len() {
            return ;
        }
        assert(views(self.rows@)[c as int] == self.rows@[c as int]@);
        if self.rows[c].is_folder && self.rows[c].expanded {
            self.collapse_at(c);
            return ;
        }
        let path = path_of_row(&self.rows[c]);
        let chars = chars_of(&path);
        let mut e: usize = chars.len();
        while e > 0 && chars[e - 1] != '/'
            invariant
                e <= chars@.len(),
                last_slash(chars@, e as int) == last_slash(chars@, chars@.len() as int),
            decreases e,
        {
            e -= 1;
        }
        if e == 0 {
            return ;
        }
        assert(chars@.subrange(0, e - 1) =~= chars@.take(e - 1));
        let target = concat("F:", &substring_of(&chars, 0, e - 1));
        let i = find_row(&self.rows, &target);
        if i < self.rows.len() {
            self.move_to(i);
        }
    }

    fn goto_file(&mut self, i: usize)
        requires
            i < old(self).rows@.len(),
        ensures
            final(self)@ == at_file(old(self)@, i as int),
            on_a_row(old(self)@) ==> on_a_row(final(self)@),
    {
        let ghost before = self@;
        assert(views(self.rows@)[i as int] == self.rows@[i as int]@);
        if !self.rows[i].expanded {
            self.expand_at(i);
            proof {
                opened_keeps_row(before.rows, i as int, before.tree, self@.expanded);
            }
        }
        assert(views(self.rows@).len() == self.rows@.len());
        let n = self.rows.len();
        assert(views(self.rows@)[i as int] == self.rows@[i as int]@);
        if n - i > 1 {
            assert(views(self.rows@)[i + 1] == self.rows@[i + 1]@);
            if self.rows[i + 1].depth > self.rows[i].depth {
                self.move_to(i + 1);
                return ;
            }
        }
        self.move_to(i);
    }

    /// Goes to the first line of the next file.
    pub fn next_file(&mut self)
        ensures
            final(self)@ == at_next_file(old(self)@),
            on_a_row(old(self)@) ==> on_a_row(final(self)@),
    {
        assert(views(self.rows@).len() == self.rows@.len());
        let n = self.rows.len();
        if find_file_row(&self.rows, 0) == n {
            return ;
        }
        let anchor = match find_owning_file(&self.rows, self.cursor) {
            Some(i) => i,
            None => self.cursor,
        };
        let next = if anchor < n {
            find_file_row(&self.rows, anchor + 1)
        } else {
            n
        };
        if next < n {
            self.goto_file(next);
        } else {
            self.status = "already on the last file".to_owned();
        }
    }

    /// Goes to the first line of the previous file.
    pub fn prev_file(&mut self)
        ensures
            final(self)@ == at_prev_file(old(self)@),
            on_a_row(old(self)@) ==> on_a_row(final(self)@),
    {
        assert(views(self.rows@).len() == self.rows@.len());
        if find_file_row(&self.rows, 0) == self.rows.len() {
            return ;
        }
        let anchor = match find_owning_file(&self.rows, self.cursor) {
            Some(i) => i,
            None => self.cursor,
        };
        match find_file_row_before(&self.rows, anchor) {
            Some(i) => self.goto_file(i),
            None => {
                self.status = "already on the first file".to_owned();
            },
        }
    }

    fn jump_to_number(&mut self)
        ensures
            final(self)@ == jumped(old(self)@),
            on_a_row(old(self)@) ==> on_a_row(final(self)@),
    {
        if is_empty(&self.jump_buf) {
            return ;
        }
        let n = parse_number(&self.jump_buf);
        if let Some(i) = find_jump_row(&self.rows, n) {
            self.move_to(i);
        }
    }

    fn open_current(&mut self) -> (open: Option<Line>)
        ensures
            (Outcome { browser: final(self)@, open: opt_view(open) }) == entered(old(self)@),
            on_a_row(old(self)@) ==> on_a_row(final(self)@),
    {
        assert(views(self.rows@).len() == self.rows@.len());
        let c = self.cursor;
        if c >= self.rows.len() {
            return None;
        }
        assert(views(self.rows@)[c as int] == self.rows@[c as int]@);
        if self.rows[c].is_folder {
            if self.rows[c].expanded {
                self.collapse_at(c);
            } else {
                self.expand_at(c);
            }
            return None;
        }
        match &self.rows[c].line {
            Some(l) => Some(l.clone()),
            None => None,
        }
    }

    fn navigate(&mut self, key: Key) -> (open: Option<Line>)
        ensures
            (Outcome { browser: final(self)@, open: opt_view(open) }) == navigated(old(self)@, key),
            on_a_row(old(self)@) ==> on_a_row(final(self)@),
    {
        assert(views(self.rows@).len() == self.rows@.len());
        let n = self.rows.len();
        match key {
            Key::Up => self.move_up(),
            Key::Down => self.move_down(),
            Key::Home => self.move_to(0),
            Key::End => self.move_to(n),
            Key::Left => self.collapse(),
            Key::Right => self.expand(),
            Key::Enter => return self.open_current(),
            Key::Esc => {
                self.quit = true;
            },
            Key::Char(c) => {
                if c == 'k' {
                    self.move_up();
                } else if c == 'j' {
                    self.move_down();
                } else if c == 'g' {
                    self.move_to(0);
                } else if c == 'G' {
                    self.move_to(n);
                } else if c == 'h' {
                    self.collapse();
                } else if c == 'l' {
                    self.expand();
                } else if c == 'n' {
                    self.next_file();
                } else if c == 'p' {
                    self.prev_file();
                } else if c == '/' {
                    self.mode = Mode::Filter;
                } else if c == ':' {
                    self.jump_active = true;
                    self.jump_buf = String::new();
                    assert(self@.jump_buf =~= Seq::empty());
                } else if c == 'q' {
                    self.quit = true;
                }
            },
            _ => {},
        }
        None
    }

    fn handle_browse(&mut self, key: Key) -> (open: Option<Line>)
        ensures
            (Outcome { browser: final(self)@, open: opt_view(open) }) == browsed(old(self)@, key),
            on_a_row(old(self)@) ==> on_a_row(final(self)@),
    {
        if self.jump_active {
            match key {
                Key::Char(c) => {
                    if c == ':' {
                        self.jump_buf = String::new();
                        assert(self@.jump_buf =~= Seq::empty());
                        return None;
                    }
                    if is_digit_char(c) {
                        self.jump_buf.push(c);
                        self.jump_to_number();
                        return None;
                    }
                },
                Key::Backspace => {
                    self.jump_buf = drop_last_char(&self.jump_buf);
                    self.jump_to_number();
                    return None;
                },
                _ => {},
            }
            self.jump_active = false;
            match key {
                Key::Enter | Key::Esc => {
                    return None;
                },
                _ => {},
            }
        }
        self.navigate(key)
    }

    fn handle_filter(&mut self, key: Key)
        ensures
            final(self)@ == typed(old(self)@, key),
            on_a_row(old(self)@) ==> on_a_row(final(self)@),
    {
        match key {
            Key::Esc => {
                self.query = String::new();
                assert(self@.query =~= Seq::empty());
                self.mode = Mode::Browse;
                self.cur_id = None;
                self.rebuild();
            },
            Key::Enter => {
                self.mode = Mode::Browse;
            },
            Key::Backspace => {
                self.query = drop_last_char(&self.query);
                self.cur_id = None;
                self.rebuild();
            },
            Key::Char(c) => {
                self.query.push(c);
                self.cur_id = None;
                self.rebuild();
            },
            _ => {},
        }
    }

    /// Handles a key. Gives the line to open, if there is one.
    pub fn handle_key(&mut self, key: Key) -> (open: Option<Line>)
        ensures
            (Outcome { browser: final(self)@, open: opt_view(open) }) == after_key(old(self)@, key),
            on_a_row(old(self)@) ==> on_a_row(final(self)@),
    {
        self.status = String::new();
        assert(self@.status =~= Seq::empty());
        match self.mode {
            Mode::Browse => self.handle_browse(key),
            Mode::Filter => {
                self.handle_filter(key);
                None
            },
        }
    }
}

fn path_of_row(r: &Row) -> (p: String)
    ensures
        p@ == row_path(r@),
{
    if r.is_folder {
        path_in_id(&r.id)
    } else {
        let p = path_in_id(&r.id);
        let c = chars_of(&p);
        let e = find_char(&c, '\0', 0);
        assert(c@.subrange(0, e as int) =~= c@.take(e as int));
        substring_of(&c, 0, e)
    }
}

proof fn opened_keeps_row(
    rows: Seq<RowView>,
    i: int,
    tree: NodeView,
    expanded: Set<Seq<char>>,
)
    requires
        0 <= i < rows.len(),
    ensures
        opened_rows(rows, i, tree, expanded).len() > i,
{
}

/// The browser as it starts: every folder open, the cursor on the first line.
pub open spec fn started(
    title: Seq<char>,
    lines: Seq<LineView>,
    ide: Option<IdeView>,
    editor_argv: Seq<Seq<char>>,
    line_template: Seq<char>,
) -> BrowserView {
    let tree = query_tree(lines, Seq::empty());
    rebuilt(
        BrowserView {
            title,
            all_lines: lines,
            query: Seq::empty(),
            mode: Mode::Browse,
            expanded: folder_paths(tree, tree.children.len() as int),
            tree,
            tree_query: Seq::empty(),
            rows: Seq::empty(),
            line_count: 0,
            file_count: 0,
            cursor: 0,
            cur_id: None,
            top: 0,
            status: Seq::empty(),
            jump_active: false,
            jump_buf: Seq::empty(),
            quit: false,
            ide,
            editor_argv,
            line_template,
        },
    )
}

// ---------------------------------------------------------------------------
// Opening a line
// ---------------------------------------------------------------------------

/// How the browser opens a line of the file at an absolute path: in the editor in
/// whose terminal it runs, or by spawning one; `None` if there is none to spawn.
pub open spec fn launch_for(b: BrowserView, path: Seq<char>, line: usize) -> Option<LaunchView> {
    match b.ide {
        Some(ide) => Some(launch_of(ide, path, line as nat, 1)),
        None => {
            let argv = open_command(b.editor_argv, b.line_template, path, line as nat, 1);
            if argv.len() == 0 {
                None
            } else {
                Some(LaunchView::Program { program: argv[0], args: argv.skip(1) })
            }
        },
    }
}

/// The browser once it is known how opening a line of the file at an absolute path
/// went.
pub open spec fn told(
    b: BrowserView,
    path: Seq<char>,
    line: LineView,
    result: Result<(), Seq<char>>,
) -> BrowserView {
    let place = "opened "@ + line.file + ":"@ + decimal(line.line as nat);
    let status = match b.ide {
        Some(ide) => match result {
            Ok(_) => place + " in "@ + ide_label(ide),
            Err(_) => ide_error(ide),
        },
        None => match result {
            Ok(_) => place,
            Err(e) => {
                let argv = open_command(b.editor_argv, b.line_template, path, line.line as nat, 1);
                "could not open editor "@ + argv[0] + ": "@ + e
            },
        },
    };
    BrowserView { status, ..b }
}

impl Browser {
    /// How to open a line of the file at an absolute path.
    pub fn launch(&self, path: &str, line: usize) -> (r: Option<Launch>)
        ensures
            opt_view(r) == launch_for(self@, path@, line),
    {
        match &self.ide {
            Some(ide) => Some(ide.open(path, line, 1)),
            None => {
                let mut args = open_args(&self.editor_argv, &self.line_template, path, line, 1);
                let ghost argv = views(args@);
                assert(argv.len() == args@.len());
                if args.len() == 0 {
                    return None;
                }
                assert(argv[0] == args@[0]@);
                let program = args.remove(0);
                assert(views(args@) =~= argv.skip(1));
                Some(Launch::Program { program, args })
            },
        }
    }

    /// Takes note of how opening a line of the file at an absolute path went.
    pub fn opened(&mut self, path: &str, line: &Line, result: Result<(), String>)
        ensures
            final(self)@ == told(
                old(self)@,
                path@,
                line@,
                match result {
                    Ok(_) => Ok(()),
                    Err(e) => Err(e@),
                },
            ),
            on_a_row(old(self)@) ==> on_a_row(final(self)@),
    {
        let mut place = concat3("opened ", &line.file, ":");
        place.append(&decimal_of(line.line));
        let status = match &self.ide {
            Some(ide) => match result {
                Ok(_) => {
                    place.append(" in ");
                    place.append(ide.label());
                    place
                },
                Err(_) => ide.open_error(),
            },
            None => match result {
                Ok(_) => place,
                Err(e) => {
                    let argv = open_args(
                        &self.editor_argv,
                        &self.line_template,
                        path,
                        line.line,
                        1,
                    );
                    assert(views(argv@).len() == argv@.len());
                    assert(views(argv@)[0] == argv@[0]@);
                    let mut s = concat3("could not open editor ", &argv[0], ": ");
                    s.append(&e);
                    s
                },
            },
        };
        self.status = status;
    }
}

// ---------------------------------------------------------------------------
// The screen
// ---------------------------------------------------------------------------

/// How a line of the screen looks.
#[derive(Clone, Copy, Debug, PartialEq, Eq, Structural)]
pub enum Style {
    Plain,
    /// The header.
    Bold,
    /// The row under the cursor.
    Reverse,
    /// The row of a file.
    File,
    /// The row of a directory.
    Directory,
    /// A line of an excerpt after its first.
    Detail,
}

/// A line of the screen.
#[derive(Debug)]
pub struct ScreenLine {
    pub text: String,
    pub style: Style,
}

/// The mathematical value of a [`ScreenLine`].
pub struct ScreenLineView {
    pub text: Seq<char>,
    pub style: Style,
}

impl View for ScreenLine {
    type V = ScreenLineView;

    open spec fn view(&self) -> ScreenLineView {
        ScreenLineView { text: self.text@, style: self.style }
    }
}

/// A frame: the header and a rule, the rows, blank lines, a rule and the footer.
#[derive(Debug)]
pub struct Frame {
    pub header: ScreenLine,
    pub rule: String,
    pub rows: Vec<ScreenLine>,
    pub blank: usize,
    pub footer: String,
}

/// The mathematical value of a [`Frame`].
pub struct FrameView {
    pub header: ScreenLineView,
    pub rule: Seq<char>,
    pub rows: Seq<ScreenLineView>,
    pub blank: int,
    pub footer: Seq<char>,
}

impl View for Frame {
    type V = FrameView;

    open spec fn view(&self) -> FrameView {
        FrameView {
            header: self.header@,
            rule: self.rule@,
            rows: views(self.rows@),
            blank: self.blank as int,
            footer: self.footer@,
        }
    }
}

/// The first `cols` characters of a text.
pub open spec fn cut(s: Seq<char>, cols: int) -> Seq<char> {
    if s.len() <= cols {
        s
    } else {
        s.take(cols)
    }
}

/// The first `cols` characters of a text, filled up with spaces.
pub open spec fn fitted(s: Seq<char>, cols: int) -> Seq<char> {
    cut(s, cols) + repeated(' ', (cols - cut(s, cols).len()) as nat)
}

/// The text of a row.
pub open spec fn row_text(r: RowView) -> Seq<char> {
    let indent = repeated(' ', r.depth as nat) + repeated(' ', r.depth as nat);
    if r.is_folder {
        let arrow = if r.expanded { '\u{25be}' } else { '\u{25b8}' };
        let head = "      "@ + indent + seq![arrow, ' '] + r.seg;
        if r.is_file_node {
            head + " ("@ + decimal(r.child_count as nat) + ")"@
        } else {
            head + "/"@
        }
    } else {
        match r.line {
            Some(l) => {
                let number = match r.number {
                    Some(n) => n,
                    None => 0,
                };
                let head = padded(decimal(number as nat), ' ', 4) + "  "@ + padded(
                    decimal(l.line as nat),
                    ' ',
                    5,
                ) + "  "@ + indent;
                match l.label {
                    Some(t) => head + t + "  | "@ + l.text,
                    None => head + l.text,
                }
            },
            None => Seq::empty(),
        }
    }
}

/// The style of a row that is not under the cursor.
pub open spec fn row_style(r: RowView) -> Style {
    if r.is_folder {
        if r.is_file_node {
            Style::File
        } else {
            Style::Directory
        }
    } else {
        match r.line {
            Some(l) => if l.anchor {
                Style::Plain
            } else {
                Style::Detail
            },
            None => Style::Detail,
        }
    }
}

/// The number of rows that a screen of the given height shows.
pub open spec fn area_of(height: int) -> int {
    if height > 5 {
        height - 4
    } else {
        1
    }
}

/// The first row on the screen, so that the row under the cursor is on it and no
/// more than needed of it stays blank.
pub open spec fn scrolled(b: BrowserView, area: int) -> int {
    let near = if b.cursor < b.top {
        b.cursor as int
    } else if b.cursor - b.top >= area {
        b.cursor + 1 - area
    } else {
        b.top as int
    };
    let most = if b.rows.len() > area {
        b.rows.len() - area
    } else {
        0
    };
    if near < most {
        near
    } else {
        most
    }
}

/// A word in the plural, unless there is one.
pub open spec fn plural(n: usize) -> Seq<char> {
    if n == 1 {
        Seq::empty()
    } else {
        seq!['s']
    }
}

/// The text of the header.
pub open spec fn header_text(b: BrowserView) -> Seq<char> {
    " "@ + b.title + "    ["@ + (match b.mode {
        Mode::Browse => "BROWSE"@,
        Mode::Filter => "FILTER"@,
    }) + "]    "@ + decimal(b.line_count as nat) + " line"@ + plural(b.line_count) + " in "@ + decimal(
        b.file_count as nat,
    ) + " file"@ + plural(b.file_count)
}

/// The text of the footer.
pub open spec fn footer_text(b: BrowserView) -> Seq<char> {
    let base =
        " j/k move * n/p file * Enter open * h/l fold * / filter * :N jump * g/G top/bottom * q quit"@;
    match b.mode {
        Mode::Filter => " filter: "@ + b.query + "    Enter apply * Esc clear"@,
        Mode::Browse => if b.status.len() == 0 {
            base
        } else {
            base + "    "@ + b.status
        },
    }
}

/// Row `i` on the screen.
pub open spec fn screen_row(b: BrowserView, i: int, cols: int) -> ScreenLineView {
    ScreenLineView {
        text: fitted(row_text(b.rows[i]), cols),
        style: if i == b.cursor {
            Style::Reverse
        } else {
            row_style(b.rows[i])
        },
    }
}

/// The number of rows on the screen from `top` on.
pub open spec fn rows_shown(b: BrowserView, top: int, area: int) -> int {
    if b.rows.len() - top < area {
        b.rows.len() - top
    } else {
        area
    }
}

/// The frame that a browser scrolled to `top` shows.
pub open spec fn frame_of(b: BrowserView, top: int, cols: int, area: int) -> FrameView {
    let n = rows_shown(b, top, area);
    FrameView {
        header: ScreenLineView { text: fitted(header_text(b), cols), style: Style::Bold },
        rule: repeated('-', cols as nat),
        rows: Seq::new(n as nat, |k: int| screen_row(b, top + k, cols)),
        blank: area - n,
        footer: cut(footer_text(b), cols),
    }
}

fn fit_text(s: &str, cols: usize) -> (r: String)
    ensures
        r@ == fitted(s@, cols as int),
{
    let c = chars_of(s);
    let n: usize = if c.len() <= cols { c.len() } else { cols };
    let mut out = substring_of(&c, 0, n);
    assert(out@ =~= cut(s@, cols as int));
    out.append(&repeat_char(' ', cols - n));
    out
}

fn cut_text(s: &str, cols: usize) -> (r: String)
    ensures
        r@ == cut(s@, cols as int),
{
    let c = chars_of(s);
    let n: usize = if c.len() <= cols { c.len() } else { cols };
    let out = substring_of(&c, 0, n);
    assert(out@ =~= cut(s@, cols as int));
    out
}

fn text_of_row(r: &Row) -> (t: String)
    ensures
        t@ == row_text(r@),
{
    let mut indent = repeat_char(' ', r.depth);
    let again = repeat_char(' ', r.depth);
    indent.append(&again);
    if r.is_folder {
        let mut t = concat("      ", &indent);
        t.push(if r.expanded { '\u{25be}' } else { '\u{25b8}' });
        t.push(' ');
        t.append(&r.seg);
        assert(t@ =~= "      "@ + indent@ + seq![
            if r.expanded {
                '\u{25be}'
            } else {
                '\u{25b8}'
            },
            ' ',
        ] + r.seg@);
        if r.is_file_node {
            t.append(" (");
            t.append(&decimal_of(r.child_count));
            t.append(")");
        } else {
            t.append("/");
        }
        t
    } else {
        match &r.line {
            Some(l) => {
                let number = match r.number {
                    Some(n) => n,
                    None => 0,
                };
                let mut t = pad_left(&decimal_of(number), ' ', 4);
                t.append("  ");
                t.append(&pad_left(&decimal_of(l.line), ' ', 5));
                t.append("  ");
                t.append(&indent);
                if let Some(label) = &l.label {
                    t.append(label);
                    t.append("  | ");
                }
                t.append(&l.text);
                t
            },
            None => {
                let none = String::new();
                assert(none@ =~= Seq::empty());
                none
            },
        }
    }
}

fn style_of_row(r: &Row) -> (s: Style)
    ensures
        s == row_style(r@),
{
    if r.is_folder {
        if r.is_file_node {
            Style::File
        } else {
            Style::Directory
        }
    } else {
        match &r.line {
            Some(l) => if l.anchor {
                Style::Plain
            } else {
                Style::Detail
            },
            None => Style::Detail,
        }
    }
}

fn add_plural(t: &mut String, n: usize)
    ensures
        final(t)@ == old(t)@ + plural(n),
{
    if n != 1 {
        t.push('s');
    }
    assert(t@ =~= old(t)@ + plural(n));
}

impl Browser {
    fn header(&self) -> (t: String)
        ensures
            t@ == header_text(self@),
    {
        let mut t = concat3(" ", &self.title, "    [");
        match self.mode {
            Mode::Browse => t.append("BROWSE"),
            Mode::Filter => t.append("FILTER"),
        }
        t.append("]    ");
        t.append(&decimal_of(self.line_count));
        t.append(" line");
        add_plural(&mut t, self.line_count);
        t.append(" in ");
        t.append(&decimal_of(self.file_count));
        t.append(" file");
        add_plural(&mut t, self.file_count);
        t
    }

    fn footer(&self) -> (t: String)
        ensures
            t@ == footer_text(self@),
    {
        match self.mode {
            Mode::Filter => concat3(" filter: ", &self.query, "    Enter apply * Esc clear"),
            Mode::Browse => {
                let base =
                    " j/k move * n/p file * Enter open * h/l fold * / filter * :N jump * g/G top/bottom * q quit";
                if is_empty(&self.status) {
                    base.to_owned()
                } else {
                    concat3(base, "    ", &self.status)
                }
            },
        }
    }

    /// Scrolls to the cursor and gives what a screen of the given size shows.
    pub fn render(&mut self, cols: usize, height: usize) -> (frame: Frame)
        ensures
            ({
                let area = area_of(height as int);
                let top = scrolled(old(self)@, area);
                &&& final(self)@ == (BrowserView { top: top as usize, ..old(self)@ })
                &&& frame@ == frame_of(old(self)@, top, cols as int, area)
            }),
            on_a_row(old(self)@) ==> on_a_row(final(self)@),
    {
        let ghost b = self@;
        assert(views(self.rows@).len() == self.rows@.len());
        let n = self.rows.len();
        let area: usize = if height > 5 { height - 4 } else { 1 };
        let near: usize = if self.cursor < self.top {
            self.cursor
        } else if self.cursor - self.top >= area {
            self.cursor - (area - 1)
        } else {
            self.top
        };
        let most: usize = if n > area { n - area } else { 0 };
        let top: usize = if near < most { near } else { most };
        self.top = top;
        let shown: usize = if n - top < area { n - top } else { area };
        let ghost want = frame_of(b, top as int, cols as int, area as int).rows;
        let mut rows: Vec<ScreenLine> = Vec::new();
        let mut k: usize = 0;
        while k < shown
            invariant
                k <= shown,
                top + shown <= n,
                n == self.rows@.len(),
                self@ == (BrowserView { top, ..b }),
                b.rows == views(self.rows@),
                b.cursor == self.cursor,
                want == Seq::new(shown as nat, |k: int| screen_row(b, top + k, cols as int)),
                views(rows@) =~= want.take(k as int),
            decreases shown - k,
        {
            let i = top + k;
            assert(b.rows[i as int] == self.rows@[i as int]@);
            let r = &self.rows[i];
            let ghost before = views(rows@);
            let line = ScreenLine {
                text: fit_text(&text_of_row(r), cols),
                style: if i == self.cursor {
                    Style::Reverse
                } else {
                    style_of_row(r)
                },
            };
            assert(line@ == want[k as int]);
            rows.push(line);
            assert(views(rows@) =~= before.push(want[k as int]));
            k += 1;
        }
        assert(want.take(k as int) =~= want);
        Frame {
            header: ScreenLine { text: fit_text(&self.header(), cols), style: Style::Bold },
            rule: repeat_char('-', cols),
            rows,
            blank: area - shown,
            footer: cut_text(&self.footer(), cols),
        }
    }
}

// ---------------------------------------------------------------------------
// What every key keeps
// ---------------------------------------------------------------------------

/// Is the cursor on a row, if there is any, and is its identifier known?
pub open spec fn on_a_row(b: BrowserView) -> bool {
    &&& b.rows.len() > 0 ==> b.cursor < b.rows.len()
    &&& b.cur_id == id_under(b.rows, b.cursor as int)
}

proof fn run_end_bounds(rows: Seq<RowView>, depth: int, i: int)
    requires
        0 <= i <= rows.len(),
    ensures
        i <= run_end(rows, depth, i) <= rows.len(),
    decreases rows.len() - i,
{
    if i < rows.len() && rows[i].depth > depth {
        run_end_bounds(rows, depth, i + 1);
    }
}

/// The row under the cursor is on the screen.
pub proof fn cursor_is_on_screen(b: BrowserView, height: int)
    requires
        b.cursor < b.rows.len(),
    ensures
        ({
            let area = area_of(height);
            let top = scrolled(b, area);
            &&& 0 <= top <= b.cursor < top + rows_shown(b, top, area)
            &&& rows_shown(b, top, area) <= area
        }),
{
}

/// Are the rows those of the whole tree under the open folders, and is the tree that
/// of the lines that its query selects?
pub open spec fn shows_tree(b: BrowserView) -> bool {
    &&& b.tree == query_tree(b.all_lines, b.tree_query)
    &&& b.rows == visible(b.tree, b.expanded)
}

proof fn opening_shows_tree(b: BrowserView, i: int)
    requires
        shows_tree(b),
        0 <= i < b.rows.len(),
        b.rows[i].is_folder,
        !b.rows[i].expanded,
    ensures
        shows_tree(opened_at(b, i)),
{
    let ls = filtered(b.all_lines, b.tree_query, b.all_lines.len() as int);
    built_trees_are_well_formed(ls, ls.len() as int);
    splicing_matches_full_build(b.tree, b.expanded, i);
}

proof fn closing_shows_tree(b: BrowserView, i: int)
    requires
        shows_tree(b),
        0 <= i < b.rows.len(),
        b.rows[i].is_folder,
        b.rows[i].expanded,
    ensures
        shows_tree(closed_at(b, i)),
{
    let ls = filtered(b.all_lines, b.tree_query, b.all_lines.len() as int);
    built_trees_are_well_formed(ls, ls.len() as int);
    splicing_matches_full_build(b.tree, b.expanded, i);
}

proof fn file_shows_tree(b: BrowserView, i: int)
    requires
        shows_tree(b),
        0 <= i < b.rows.len(),
        b.rows[i].is_folder,
    ensures
        shows_tree(at_file(b, i)),
{
    if !b.rows[i].expanded {
        opening_shows_tree(b, i);
    }
}

proof fn file_row_found(rows: Seq<RowView>, i: int)
    requires
        0 <= i,
    ensures
        file_row_from(rows, i) < rows.len() ==> i <= file_row_from(rows, i) && file_row(
            rows[file_row_from(rows, i)],
        ),
    decreases rows.len() - i,
{
    if i < rows.len() && !file_row(rows[i]) {
        file_row_found(rows, i + 1);
    }
}

proof fn file_row_found_before(rows: Seq<RowView>, i: int)
    ensures
        file_row_before(rows, i) matches Some(x) ==> 0 <= x < i && x < rows.len() && file_row(rows[x]),
    decreases i,
{
    if i > 0 && !(i <= rows.len() && file_row(rows[i - 1])) {
        file_row_found_before(rows, i - 1);
    }
}

proof fn owning_file_found(rows: Seq<RowView>, i: int)
    ensures
        owning_file(rows, i) matches Some(x) ==> 0 <= x <= i,
{
    if 0 <= i < rows.len() {
        row_above_found(rows, rows[i].depth as int, i);
    }
}

proof fn row_above_found(rows: Seq<RowView>, depth: int, i: int)
    ensures
        row_above(rows, depth, i) matches Some(x) ==> 0 <= x < i,
    decreases i,
{
    if i > 0 && !(i <= rows.len() && rows[i - 1].depth < depth) {
        row_above_found(rows, depth, i - 1);
    }
}

proof fn moving_shows_tree(b: BrowserView, index: int)
    requires
        shows_tree(b),
    ensures
        shows_tree(moved_to(b, index)),
        shows_tree(moved(b, index)),
{
}

proof fn stepping_shows_tree(b: BrowserView)
    requires
        shows_tree(b),
    ensures
        shows_tree(stepped_in(b)),
        shows_tree(stepped_out(b)),
        shows_tree(entered(b).browser),
{
    let c = b.cursor as int;
    if c < b.rows.len() {
        if b.rows[c].is_folder {
            if b.rows[c].expanded {
                closing_shows_tree(b, c);
            } else {
                opening_shows_tree(b, c);
            }
        }
        moving_shows_tree(b, 1);
        let path = row_path(b.rows[c]);
        if let Some(i) = last_slash(path, path.len() as int) {
            moving_shows_tree(b, row_with_id(b.rows, "F:"@ + path.take(i), 0));
        }
    }
}

proof fn files_show_tree(b: BrowserView)
    requires
        shows_tree(b),
    ensures
        shows_tree(at_next_file(b)),
        shows_tree(at_prev_file(b)),
{
    owning_file_found(b.rows, b.cursor as int);
    let anchor = file_anchor(b);
    file_row_found(b.rows, anchor + 1);
    file_row_found_before(b.rows, anchor);
    if file_row_from(b.rows, anchor + 1) < b.rows.len() {
        file_shows_tree(b, file_row_from(b.rows, anchor + 1));
    }
    if file_row_before(b.rows, anchor) is Some {
        file_shows_tree(b, file_row_before(b.rows, anchor)->0);
    }
}

proof fn navigating_shows_tree(b: BrowserView, key: Key)
    requires
        shows_tree(b),
    ensures
        shows_tree(navigated(b, key).browser),
{
    stepping_shows_tree(b);
    files_show_tree(b);
    moving_shows_tree(b, -1);
    moving_shows_tree(b, 1);
    moving_shows_tree(b, 0);
    moving_shows_tree(b, b.rows.len() as int);
}

/// Whatever key is pressed, the rows are those that the whole tree has under the
/// open folders: opening and closing folders in place never drifts from a full
/// build.
pub proof fn keys_keep_showing_the_tree(b: BrowserView, key: Key)
    requires
        shows_tree(b),
    ensures
        shows_tree(after_key(b, key).browser),
{
    let clear = BrowserView { status: Seq::empty(), ..b };
    navigating_shows_tree(clear, key);
    navigating_shows_tree(BrowserView { jump_active: false, ..clear }, key);
}

/// A browser starts with the rows of the whole tree.
pub proof fn start_shows_the_tree(
    title: Seq<char>,
    lines: Seq<LineView>,
    ide: Option<IdeView>,
    editor_argv: Seq<Seq<char>>,
    line_template: Seq<char>,
)
    ensures
        shows_tree(started(title, lines, ide, editor_argv, line_template)),
{
}

/// Going from file to file never wraps: the cursor moves past the file it was in, or
/// before it, or stays with a word of explanation.
pub proof fn files_do_not_wrap(b: BrowserView)
    requires
        b.rows.len() < usize::MAX,
        file_row_from(b.rows, 0) < b.rows.len(),
    ensures
        ({
            let next = at_next_file(b);
            let prev = at_prev_file(b);
            &&& next == (BrowserView { status: "already on the last file"@, ..b }) || next.cursor
                > file_anchor(b)
            &&& prev == (BrowserView { status: "already on the first file"@, ..b }) || prev.cursor
                <= file_anchor(b)
        }),
{
    let anchor = file_anchor(b);
    owning_file_found(b.rows, b.cursor as int);
    file_row_found(b.rows, anchor + 1);
    file_row_found_before(b.rows, anchor);
    let i = file_row_from(b.rows, anchor + 1);
    if i < b.rows.len() {
        file_cursor(b, i);
    }
    if file_row_before(b.rows, anchor) is Some {
        file_cursor(b, file_row_before(b.rows, anchor)->0);
    }
}

proof fn file_cursor(b: BrowserView, i: int)
    requires
        0 <= i < b.rows.len() < usize::MAX,
    ensures
        at_file(b, i).cursor == i || at_file(b, i).cursor == i + 1,
{
    let o = if b.rows[i].expanded {
        b
    } else {
        opened_at(b, i)
    };
    assert(i < o.rows.len());
}

} // verus!
