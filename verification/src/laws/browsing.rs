//! What the keys of the browser do.

use crate::interactive::browser::{
    after_key, at_file, at_next_file, at_prev_file, closed_at, cursor_after, digits_value,
    file_anchor, file_row, file_row_before, file_row_from, files_shown, filtered, first_line,
    is_digit, jump_row, last_slash, line_matches, moved_to, number_in, opened_at, owning_file,
    query_tree, rebuilt, row_above, row_path, row_with_id, started, stepped_out, BrowserView, Key,
    Mode,
};
use crate::interactive::ide::IdeView;
use crate::interactive::tree::{folder_paths, lines_among, tree_of, visible, LineView, RowView};
use crate::text::{has_infix, lowercase, next_of, next_of_bounds};
use vstd::prelude::*;

verus! {

// ---------------------------------------------------------------------------
// Filtering
// ---------------------------------------------------------------------------

/// Does a line show a query, whatever the case: in its file, its text or its label?
pub open spec fn shows_query(l: LineView, query: Seq<char>) -> bool {
    let q = lowercase(query);
    ||| has_infix(lowercase(l.file), q)
    ||| has_infix(lowercase(l.text), q)
    ||| l.label matches Some(t) && has_infix(lowercase(t), q)
}

proof fn filter_is_selection(lines: Seq<LineView>, query: Seq<char>, k: int)
    requires
        0 <= k <= lines.len(),
        query.len() > 0,
        lowercase(query).len() > 0,
    ensures
        filtered(lines, query, k) == lines.take(k).filter(|l: LineView| shows_query(l, query)),
    decreases k,
{
    reveal(Seq::filter);
    if k > 0 {
        filter_is_selection(lines, query, k - 1);
        assert(lines.take(k).drop_last() =~= lines.take(k - 1));
        assert(lines.take(k).last() == lines[k - 1]);
        let l = lines[k - 1];
        assert(line_matches(l, query) == shows_query(l, query)) by {
            if l.label is None {
                let none = Seq::<char>::empty();
                assert(lowercase(none) =~= none);
                let q = lowercase(query);
                assert forall|i: int| !crate::text::occurs_at(none, q, i) by {}
            }
        }
    } else {
        assert(lines.take(0) =~= Seq::empty());
    }
}

/// A filter keeps the lines that show the query, in order, and drops all others; an
/// empty one keeps every line.
pub proof fn filters_keep_what_shows_the_query(lines: Seq<LineView>, query: Seq<char>)
    ensures
        query.len() > 0 && lowercase(query).len() > 0 ==> filtered(
            lines,
            query,
            lines.len() as int,
        ) == lines.filter(|l: LineView| shows_query(l, query)),
        query.len() == 0 ==> filtered(lines, query, lines.len() as int) == lines,
{
    if query.len() > 0 && lowercase(query).len() > 0 {
        filter_is_selection(lines, query, lines.len() as int);
        assert(lines.take(lines.len() as int) =~= lines);
    }
    if query.len() == 0 {
        no_filter_keeps_all(lines, query, lines.len() as int);
        assert(lines.take(lines.len() as int) =~= lines);
    }
}

proof fn no_filter_keeps_all(lines: Seq<LineView>, query: Seq<char>, k: int)
    requires
        0 <= k <= lines.len(),
        query.len() == 0,
    ensures
        filtered(lines, query, k) == lines.take(k),
    decreases k,
{
    if k > 0 {
        no_filter_keeps_all(lines, query, k - 1);
        assert(lines.take(k) =~= lines.take(k - 1).push(lines[k - 1]));
    } else {
        assert(lines.take(0) =~= Seq::empty());
    }
}

/// Typing while a filter is edited changes the query by that character, and what is
/// shown is the tree of the lines that the query keeps; Backspace takes the last
/// character off, Esc drops the query and ends the editing, Enter only ends it.
pub proof fn typing_edits_the_filter(b: BrowserView, c: char)
    requires
        b.mode == Mode::Filter,
        b.tree == query_tree(b.all_lines, b.tree_query),
    ensures
        ({
            let x = after_key(b, Key::Char(c)).browser;
            &&& x.query == b.query.push(c) && x.mode == Mode::Filter
            &&& x.tree == query_tree(b.all_lines, x.query)
            &&& x.rows == visible(x.tree, b.expanded)
        }),
        ({
            let x = after_key(b, Key::Backspace).browser;
            &&& b.query.len() > 0 ==> x.query == b.query.drop_last()
            &&& x.mode == Mode::Filter
            &&& x.tree == query_tree(b.all_lines, x.query)
            &&& x.rows == visible(x.tree, b.expanded)
        }),
        ({
            let x = after_key(b, Key::Esc).browser;
            &&& x.query.len() == 0 && x.mode == Mode::Browse && x.quit == b.quit
            &&& x.tree == query_tree(b.all_lines, x.query)
            &&& x.rows == visible(x.tree, b.expanded)
        }),
        ({
            let x = after_key(b, Key::Enter).browser;
            &&& x.query == b.query && x.mode == Mode::Browse && x.rows == b.rows && x.cursor
                == b.cursor
        }),
        after_key(b, Key::Char(c)).open is None && after_key(b, Key::Enter).open is None,
{
}

/// The tree of a query is that of the lines that it keeps.
pub proof fn query_trees_hold_what_is_kept(lines: Seq<LineView>, query: Seq<char>)
    ensures
        ({
            let kept = filtered(lines, query, lines.len() as int);
            query_tree(lines, query) == tree_of(kept, kept.len() as int)
        }),
{
}

// ---------------------------------------------------------------------------
// Rows
// ---------------------------------------------------------------------------

proof fn row_with_id_is_first(rows: Seq<RowView>, id: Seq<char>, i: int)
    requires
        0 <= i <= rows.len(),
    ensures
        i <= row_with_id(rows, id, i) <= rows.len(),
        row_with_id(rows, id, i) < rows.len() ==> rows[row_with_id(rows, id, i)].id == id,
        forall|j: int| i <= j < row_with_id(rows, id, i) ==> (#[trigger] rows[j]).id != id,
    decreases rows.len() - i,
{
    if i < rows.len() && rows[i].id != id {
        row_with_id_is_first(rows, id, i + 1);
    }
}

proof fn first_line_is_first(rows: Seq<RowView>, i: int)
    requires
        0 <= i <= rows.len(),
    ensures
        i <= first_line(rows, i) <= rows.len(),
        first_line(rows, i) < rows.len() ==> !rows[first_line(rows, i)].is_folder,
        forall|j: int| i <= j < first_line(rows, i) ==> (#[trigger] rows[j]).is_folder,
    decreases rows.len() - i,
{
    if i < rows.len() && rows[i].is_folder {
        first_line_is_first(rows, i + 1);
    }
}

/// When rows are built anew, the cursor stays on the row that it was on, if that is
/// still there; else it goes to the first line; and where there is none to the top.
pub proof fn the_cursor_stays_on_its_row(rows: Seq<RowView>, id: Option<Seq<char>>)
    ensures
        ({
            let c = cursor_after(rows, id);
            let there = id is Some && exists|j: int|
                0 <= j < rows.len() && (#[trigger] rows[j]).id == id->0;
            &&& there ==> 0 <= c < rows.len() && rows[c].id == id->0
            &&& !there && (exists|j: int| 0 <= j < rows.len() && !(#[trigger] rows[j]).is_folder)
                ==> 0 <= c < rows.len() && !rows[c].is_folder && forall|j: int|
                0 <= j < c ==> (#[trigger] rows[j]).is_folder
            &&& !there && (forall|j: int| 0 <= j < rows.len() ==> (#[trigger] rows[j]).is_folder)
                ==> c == 0
        }),
{
    first_line_is_first(rows, 0);
    if let Some(x) = id {
        row_with_id_is_first(rows, x, 0);
    }
}

/// The row that a move by `delta` from the cursor ends on, within the rows.
pub open spec fn clamped(b: BrowserView, delta: int) -> int {
    let c = b.cursor + delta;
    if c < 0 {
        0
    } else if c < b.rows.len() {
        c
    } else {
        b.rows.len() - 1
    }
}

/// Does only the cursor differ, with the identifier that it remembers, and is the
/// cursor on the given row?
pub open spec fn only_moved(x: BrowserView, b: BrowserView, row: int) -> bool {
    &&& x.cursor == row
    &&& x.cur_id == Some(b.rows[row].id)
    &&& x == BrowserView { cursor: x.cursor, cur_id: x.cur_id, status: x.status, ..b }
    &&& x.status.len() == 0
}

/// Up and Down move by one row and stop at the ends.
pub proof fn arrows_move_by_one(b: BrowserView)
    requires
        b.mode == Mode::Browse,
        !b.jump_active,
        0 < b.rows.len() <= usize::MAX,
        b.cursor < b.rows.len(),
    ensures
        only_moved(after_key(b, Key::Up).browser, b, clamped(b, -1)),
        only_moved(after_key(b, Key::Down).browser, b, clamped(b, 1)),
{
    let clear = BrowserView { status: Seq::empty(), ..b };
    assert(after_key(b, Key::Up).browser == moved_to(clear, clamped(b, -1)));
    assert(after_key(b, Key::Down).browser == moved_to(clear, clamped(b, 1)));
}

/// Home and End go to the first and to the last row.
pub proof fn home_and_end_go_there(b: BrowserView)
    requires
        b.mode == Mode::Browse,
        !b.jump_active,
        0 < b.rows.len() <= usize::MAX,
    ensures
        only_moved(after_key(b, Key::Home).browser, b, 0),
        only_moved(after_key(b, Key::End).browser, b, b.rows.len() - 1),
{
}

/// The letters `k` and `j` do what Up and Down do.
#[verifier::rlimit(60)]
pub proof fn letters_move_up_and_down(b: BrowserView)
    requires
        b.mode == Mode::Browse,
        !b.jump_active,
    ensures
        after_key(b, Key::Char('k')) == after_key(b, Key::Up),
        after_key(b, Key::Char('j')) == after_key(b, Key::Down),
{
}

/// The letters `g` and `G` do what Home and End do.
#[verifier::rlimit(60)]
pub proof fn letters_go_to_the_ends(b: BrowserView)
    requires
        b.mode == Mode::Browse,
        !b.jump_active,
    ensures
        after_key(b, Key::Char('g')) == after_key(b, Key::Home),
        after_key(b, Key::Char('G')) == after_key(b, Key::End),
{
}

/// The letters `h` and `l` do what Left and Right do.
#[verifier::rlimit(60)]
pub proof fn letters_step_in_and_out(b: BrowserView)
    requires
        b.mode == Mode::Browse,
        !b.jump_active,
    ensures
        after_key(b, Key::Char('h')) == after_key(b, Key::Left),
        after_key(b, Key::Char('l')) == after_key(b, Key::Right),
{
}

/// The browser is left with `q` or Esc while it browses, and with no other key.
pub proof fn only_two_keys_quit(b: BrowserView, key: Key)
    requires
        b.mode == Mode::Browse,
        !b.jump_active,
        !b.quit,
    ensures
        after_key(b, key).browser.quit <==> key == Key::Esc || key == Key::Char('q'),
{
}

/// Enter on a line asks for that line to be opened and changes nothing else; no other
/// key asks for anything.
#[verifier::rlimit(60)]
pub proof fn only_enter_opens_lines(b: BrowserView, key: Key)
    requires
        b.mode == Mode::Browse,
        !b.jump_active,
        b.cursor < b.rows.len(),
    ensures
        after_key(b, key).open == (if key == Key::Enter && !b.rows[b.cursor as int].is_folder {
            b.rows[b.cursor as int].line
        } else {
            None
        }),
        key == Key::Enter && !b.rows[b.cursor as int].is_folder ==> after_key(b, key).browser.rows
            == b.rows && after_key(b, key).browser.cursor == b.cursor && after_key(
            b,
            key,
        ).browser.expanded == b.expanded,
{
}

/// Enter on a folder opens it if it is closed and closes it if it is open: its path
/// joins or leaves the open ones, and no other does.
pub proof fn enter_toggles_folders(b: BrowserView)
    requires
        b.mode == Mode::Browse,
        !b.jump_active,
        b.cursor < b.rows.len(),
        b.rows[b.cursor as int].is_folder,
    ensures
        ({
            let row = b.rows[b.cursor as int];
            let x = after_key(b, Key::Enter).browser;
            let p = row.id.skip(2);
            row.id.len() >= 2 ==> x.cursor == b.cursor && x.expanded == (if row.expanded {
                b.expanded.remove(p)
            } else {
                b.expanded.insert(p)
            })
        }),
{
}

/// Right opens a closed folder and steps into an open one; on a line it does nothing.
pub proof fn right_opens_or_steps_in(b: BrowserView)
    requires
        b.mode == Mode::Browse,
        !b.jump_active,
        b.cursor < b.rows.len() <= usize::MAX,
    ensures
        ({
            let row = b.rows[b.cursor as int];
            let x = after_key(b, Key::Right).browser;
            &&& !row.is_folder ==> x.rows == b.rows && x.cursor == b.cursor && x.expanded
                == b.expanded
            &&& row.is_folder && row.expanded ==> only_moved(x, b, clamped(b, 1))
            &&& row.is_folder && !row.expanded && row.id.len() >= 2 ==> x.cursor == b.cursor
                && x.expanded == b.expanded.insert(row.id.skip(2))
        }),
{
}

proof fn last_slash_is_last(s: Seq<char>, e: int)
    requires
        0 <= e <= s.len(),
    ensures
        match last_slash(s, e) {
            Some(i) => 0 <= i < e && s[i] == '/' && forall|j: int|
                i < j < e ==> (#[trigger] s[j]) != '/',
            None => forall|j: int| 0 <= j < e ==> (#[trigger] s[j]) != '/',
        },
    decreases e,
{
    if e > 0 && s[e - 1] != '/' {
        last_slash_is_last(s, e - 1);
    }
}

/// Left closes an open folder. From a closed one it goes to the folder around it, the
/// row with its path up to the last slash, and does nothing where there is no such row.
pub proof fn left_closes_or_steps_out(b: BrowserView)
    requires
        b.mode == Mode::Browse,
        !b.jump_active,
        b.cursor < b.rows.len() <= usize::MAX,
        b.rows[b.cursor as int].is_folder,
        b.rows[b.cursor as int].id.len() >= 2,
    ensures
        ({
            let row = b.rows[b.cursor as int];
            let x = after_key(b, Key::Left).browser;
            let path = row.id.skip(2);
            &&& row.expanded ==> x.cursor == b.cursor && x.expanded == b.expanded.remove(path)
            &&& !row.expanded ==> x.expanded == b.expanded && x.rows == b.rows
            &&& !row.expanded && x.cursor != b.cursor ==> exists|i: int|
                0 <= i < path.len() && path[i] == '/' && (forall|j: int|
                    i < j < path.len() ==> (#[trigger] path[j]) != '/') && b.rows[x.cursor as int].id
                    == "F:"@ + #[trigger] path.take(i)
            &&& !row.expanded ==> forall|i: int, m: int|
                #![trigger path.take(i), b.rows[m]]
                0 <= i < path.len() && path[i] == '/' && (forall|j: int|
                    i < j < path.len() ==> (#[trigger] path[j]) != '/') && 0 <= m < b.rows.len()
                    && b.rows[m].id == "F:"@ + path.take(i) ==> b.rows[x.cursor as int].id == "F:"@
                    + path.take(i)
        }),
{
    let row = b.rows[b.cursor as int];
    let path = row.id.skip(2);
    last_slash_is_last(path, path.len() as int);
    if let Some(i) = last_slash(path, path.len() as int) {
        row_with_id_is_first(b.rows, "F:"@ + path.take(i), 0);
    }
}

// ---------------------------------------------------------------------------
// Files
// ---------------------------------------------------------------------------

proof fn file_rows_from(rows: Seq<RowView>, i: int)
    requires
        0 <= i,
    ensures
        file_row_from(rows, i) <= rows.len(),
        i <= rows.len() ==> i <= file_row_from(rows, i),
        file_row_from(rows, i) < rows.len() ==> i <= file_row_from(rows, i) && file_row(
            rows[file_row_from(rows, i)],
        ),
        forall|j: int| i <= j < file_row_from(rows, i) && j < rows.len() ==> !file_row(#[trigger] rows[j]),
    decreases rows.len() - i,
{
    if i < rows.len() && !file_row(rows[i]) {
        file_rows_from(rows, i + 1);
    }
}

proof fn file_rows_before(rows: Seq<RowView>, i: int)
    requires
        i <= rows.len(),
    ensures
        match file_row_before(rows, i) {
            Some(x) => 0 <= x < i && file_row(rows[x]) && forall|j: int|
                x < j < i ==> !file_row(#[trigger] rows[j]),
            None => forall|j: int| 0 <= j < i ==> !file_row(#[trigger] rows[j]),
        },
    decreases i,
{
    if i > 0 && !file_row(rows[i - 1]) {
        file_rows_before(rows, i - 1);
    }
}

proof fn rows_above(rows: Seq<RowView>, depth: int, i: int)
    requires
        i <= rows.len(),
    ensures
        match row_above(rows, depth, i) {
            Some(x) => 0 <= x < i && rows[x].depth < depth && forall|j: int|
                x < j < i ==> (#[trigger] rows[j]).depth >= depth,
            None => forall|j: int| 0 <= j < i ==> (#[trigger] rows[j]).depth >= depth,
        },
    decreases i,
{
    if i > 0 && rows[i - 1].depth >= depth {
        rows_above(rows, depth, i - 1);
    }
}

/// The file that a row belongs to is the row itself, if it is that of a file, or the
/// nearest less deep row above it, if that is.
pub proof fn rows_belong_to_the_file_around_them(rows: Seq<RowView>, i: int)
    requires
        0 <= i < rows.len(),
    ensures
        match owning_file(rows, i) {
            Some(x) => 0 <= x <= i && rows[x].is_folder && rows[x].is_file_node && (x < i
                ==> rows[x].depth < rows[i].depth && forall|j: int|
                x < j < i ==> (#[trigger] rows[j]).depth >= rows[i].depth),
            None => !(rows[i].is_folder && rows[i].is_file_node),
        },
{
    rows_above(rows, rows[i].depth as int, i);
}

/// Is row `x` the file row that comes next after row `i`?
pub open spec fn is_next_file(rows: Seq<RowView>, i: int, x: int) -> bool {
    &&& i < x < rows.len()
    &&& rows[x].is_folder && rows[x].is_file_node
    &&& forall|j: int| i < j < x ==> !((#[trigger] rows[j]).is_folder && rows[j].is_file_node)
}

/// Is row `x` the file row that comes last before row `i`?
pub open spec fn is_previous_file(rows: Seq<RowView>, i: int, x: int) -> bool {
    &&& 0 <= x < i
    &&& rows[x].is_folder && rows[x].is_file_node
    &&& forall|j: int| x < j < i ==> !((#[trigger] rows[j]).is_folder && rows[j].is_file_node)
}

/// The next file is the one that comes next after the file that the cursor is in;
/// without any the cursor stays.
pub proof fn the_next_file_comes_next(b: BrowserView, x: int)
    requires
        b.cursor < b.rows.len(),
    ensures
        is_next_file(b.rows, file_anchor(b), x) ==> at_next_file(b) == at_file(b, x),
        (forall|y: int| !#[trigger] is_next_file(b.rows, file_anchor(b), y)) ==> at_next_file(
            b,
        ).cursor == b.cursor && at_next_file(b).rows == b.rows,
{
    let anchor = file_anchor(b);
    rows_belong_to_the_file_around_them(b.rows, b.cursor as int);
    file_rows_from(b.rows, 0);
    file_rows_from(b.rows, anchor + 1);
    let next = file_row_from(b.rows, anchor + 1);
    if next < b.rows.len() {
        assert forall|j: int| anchor < j < next implies !((#[trigger] b.rows[j]).is_folder
            && b.rows[j].is_file_node) by {
            assert(!file_row(b.rows[j]));
        }
        assert(is_next_file(b.rows, anchor, next));
    }
    if is_next_file(b.rows, anchor, x) {
        assert(file_row(b.rows[x]));
        if next < x {
            assert(file_row(b.rows[next]));
        }
        assert(next == x);
    }
}

/// The previous file is the one that comes last before the file that the cursor is in;
/// without any the cursor stays.
pub proof fn the_previous_file_comes_before(b: BrowserView, x: int)
    requires
        b.cursor < b.rows.len(),
    ensures
        is_previous_file(b.rows, file_anchor(b), x) ==> at_prev_file(b) == at_file(b, x),
        (forall|y: int| !#[trigger] is_previous_file(b.rows, file_anchor(b), y)) ==> at_prev_file(
            b,
        ).cursor == b.cursor && at_prev_file(b).rows == b.rows,
{
    let anchor = file_anchor(b);
    rows_belong_to_the_file_around_them(b.rows, b.cursor as int);
    file_rows_from(b.rows, 0);
    file_rows_before(b.rows, anchor);
    if let Some(p) = file_row_before(b.rows, anchor) {
        assert forall|j: int| p < j < anchor implies !((#[trigger] b.rows[j]).is_folder
            && b.rows[j].is_file_node) by {
            assert(!file_row(b.rows[j]));
        }
        assert(is_previous_file(b.rows, anchor, p));
    }
    if is_previous_file(b.rows, anchor, x) {
        assert(file_row(b.rows[x]));
        let p = file_row_before(b.rows, anchor)->0;
        if p > x {
            assert(file_row(b.rows[p]));
        }
        assert(p == x);
    }
}

/// `n` goes to the next file and `p` to the previous one.
pub proof fn file_keys_go_to_the_neighbours(b: BrowserView)
    requires
        b.mode == Mode::Browse,
        !b.jump_active,
    ensures
        after_key(b, Key::Char('n')).browser == at_next_file(
            BrowserView { status: Seq::empty(), ..b },
        ),
        after_key(b, Key::Char('p')).browser == at_prev_file(
            BrowserView { status: Seq::empty(), ..b },
        ),
{
}

/// At a file, the cursor is on its first row if the file shows any, else on the file
/// itself; and the file is open.
pub proof fn files_are_entered_at_their_first_row(b: BrowserView, i: int)
    requires
        0 <= i < b.rows.len() <= usize::MAX,
        b.rows[i].expanded,
    ensures
        ({
            let x = at_file(b, i);
            &&& x.rows == b.rows && x.expanded == b.expanded
            &&& i + 1 < b.rows.len() && b.rows[i + 1].depth > b.rows[i].depth ==> x.cursor == i + 1
            &&& !(i + 1 < b.rows.len() && b.rows[i + 1].depth > b.rows[i].depth) ==> x.cursor == i
        }),
{
}

// ---------------------------------------------------------------------------
// Jumping
// ---------------------------------------------------------------------------

proof fn jump_rows(rows: Seq<RowView>, n: int, i: int, last: Option<int>)
    requires
        0 <= i <= rows.len(),
        last matches Some(l) ==> 0 <= l < i && rows[l].number is Some && rows[l].number->0 < n
            && forall|j: int| l < j < i ==> (#[trigger] rows[j]).number is None,
        last is None ==> forall|j: int| 0 <= j < i ==> (#[trigger] rows[j]).number is None,
        forall|j: int| 0 <= j < i && (#[trigger] rows[j]).number is Some ==> rows[j].number->0 < n,
    ensures
        match jump_row(rows, n, i, last) {
            Some(x) => 0 <= x < rows.len() && rows[x].number is Some && (if rows[x].number->0 >= n {
                forall|j: int|
                    0 <= j < x && (#[trigger] rows[j]).number is Some ==> rows[j].number->0 < n
            } else {
                (forall|j: int| x < j < rows.len() ==> (#[trigger] rows[j]).number is None)
                    && forall|j: int|
                    0 <= j < rows.len() && (#[trigger] rows[j]).number is Some ==> rows[j].number->0
                        < n
            }),
            None => forall|j: int| 0 <= j < rows.len() ==> (#[trigger] rows[j]).number is None,
        },
    decreases rows.len() - i,
{
    if i < rows.len() {
        match rows[i].number {
            Some(m) => {
                if m < n {
                    jump_rows(rows, n, i + 1, Some(i));
                }
            },
            None => {
                jump_rows(rows, n, i + 1, last);
            },
        }
    }
}

/// A jump goes to the first row whose number is at least the one that is typed; if there
/// is none, to the last row with a number.
pub proof fn jumps_go_to_the_number(rows: Seq<RowView>, n: int)
    ensures
        match jump_row(rows, n, 0, None) {
            Some(x) => 0 <= x < rows.len() && rows[x].number is Some && (if rows[x].number->0 >= n {
                forall|j: int|
                    0 <= j < x && (#[trigger] rows[j]).number is Some ==> rows[j].number->0 < n
            } else {
                (forall|j: int| x < j < rows.len() ==> (#[trigger] rows[j]).number is None)
                    && forall|j: int|
                    0 <= j < rows.len() && (#[trigger] rows[j]).number is Some ==> rows[j].number->0
                        < n
            }),
            None => forall|j: int| 0 <= j < rows.len() ==> (#[trigger] rows[j]).number is None,
        },
{
    jump_rows(rows, n, 0, None);
}

/// The number that is typed is what its digits write.
pub proof fn typed_digits_write_a_number(s: Seq<char>, c: char)
    requires
        s.len() > 0,
        forall|i: int| 0 <= i < s.len() ==> is_digit(#[trigger] s[i]),
        is_digit(c),
        number_in(s) * 10 + 9 <= usize::MAX,
        digits_value(s, s.len() as int) <= usize::MAX,
    ensures
        number_in(s.push(c)) == number_in(s) * 10 + (c as int - '0' as int),
        number_in(seq![c]) == c as int - '0' as int,
{
    let t = s.push(c);
    same_digits(s, t, s.len() as int);
    assert forall|i: int| 0 <= i < t.len() implies is_digit(#[trigger] t[i]) by {
        if i < s.len() {
            assert(t[i] == s[i]);
        }
    }
    let one = seq![c];
    assert(digits_value(one, 0) == 0);
    assert(digits_value(one, 1) == c as int - '0' as int);
    assert(digits_value(t, t.len() as int) == digits_value(t, s.len() as int) * 10 + (c as int
        - '0' as int));
}

proof fn same_digits(s: Seq<char>, t: Seq<char>, k: int)
    requires
        k <= s.len(),
        k <= t.len(),
        forall|i: int| 0 <= i < k ==> s[i] == t[i],
    ensures
        digits_value(s, k) == digits_value(t, k),
    decreases k,
{
    if k > 0 {
        same_digits(s, t, k - 1);
    }
}

/// While a number is typed, a digit is put at its end and the cursor goes where the jump
/// leads; Backspace takes the last one off; `:` starts over; Enter and Esc end the typing
/// where the cursor is.
pub proof fn digits_jump(b: BrowserView, c: char)
    requires
        b.mode == Mode::Browse,
        b.jump_active,
        b.rows.len() <= usize::MAX,
    ensures
        is_digit(c) ==> ({
            let x = after_key(b, Key::Char(c)).browser;
            &&& x.jump_active && x.jump_buf == b.jump_buf.push(c) && x.rows == b.rows
            &&& jump_row(b.rows, number_in(x.jump_buf), 0, None) matches Some(i) ==> x.cursor == i
        }),
        b.jump_buf.len() > 0 ==> after_key(b, Key::Backspace).browser.jump_buf
            == b.jump_buf.drop_last(),
        after_key(b, Key::Char(':')).browser.jump_buf.len() == 0,
        ({
            let x = after_key(b, Key::Enter);
            !x.browser.jump_active && x.browser.cursor == b.cursor && x.open is None
                && x.browser.rows == b.rows
        }),
        ({
            let x = after_key(b, Key::Esc);
            !x.browser.jump_active && x.browser.cursor == b.cursor && x.browser.quit == b.quit
        }),
{
    jumps_go_to_the_number(b.rows, number_in(b.jump_buf.push(c)));
}

// ---------------------------------------------------------------------------
// Tallies
// ---------------------------------------------------------------------------

/// The files that are counted are those of the lines that are shown.
pub proof fn files_counted_are_those_shown(rows: Seq<RowView>, k: int, f: Seq<char>)
    requires
        0 <= k <= rows.len(),
    ensures
        files_shown(rows, k).contains(f) <==> exists|j: int|
            0 <= j < k && ((#[trigger] rows[j]).line matches Some(l) && l.file == f),
    decreases k,
{
    if k > 0 {
        files_counted_are_those_shown(rows, k - 1, f);
        if let Some(l) = rows[k - 1].line {
            if l.file == f {
                assert(rows[k - 1].line matches Some(l) && l.file == f);
            }
        }
    }
}

/// The lines that are counted are the rows that are no folders.
pub proof fn lines_counted_are_rows(rows: Seq<RowView>, k: int)
    requires
        0 <= k <= rows.len(),
    ensures
        lines_among(rows, k) == rows.take(k).filter(|r: RowView| !r.is_folder).len(),
    decreases k,
{
    reveal(Seq::filter);
    if k > 0 {
        lines_counted_are_rows(rows, k - 1);
        assert(rows.take(k).drop_last() =~= rows.take(k - 1));
        assert(rows.take(k).last() == rows[k - 1]);
    } else {
        assert(rows.take(0) =~= Seq::empty());
    }
}

/// A browser starts with every folder open and no filter, with the cursor on the first
/// line.
pub proof fn browsers_start_unfolded(
    title: Seq<char>,
    lines: Seq<LineView>,
    ide: Option<IdeView>,
    editor_argv: Seq<Seq<char>>,
    line_template: Seq<char>,
)
    ensures
        ({
            let b = started(title, lines, ide, editor_argv, line_template);
            let t = tree_of(lines, lines.len() as int);
            &&& b.tree == t
            &&& folder_paths(t, t.children.len() as int).subset_of(b.expanded)
            &&& b.rows == visible(t, b.expanded)
            &&& b.query.len() == 0 && b.mode == Mode::Browse && !b.quit && !b.jump_active
            &&& b.all_lines == lines && b.title == title && b.ide == ide && b.editor_argv
                == editor_argv && b.line_template == line_template
            &&& b.cursor == cursor_after(b.rows, None) as usize
        }),
{
    filters_keep_what_shows_the_query(lines, Seq::empty());
}

/// The numbers in the header follow what is shown, whenever rows are built, opened or
/// closed.
pub proof fn tallies_follow_the_rows(b: BrowserView, i: int)
    requires
        0 <= i < b.rows.len(),
    ensures
        is_tallied(rebuilt(b)),
        is_tallied(opened_at(b, i)),
        is_tallied(closed_at(b, i)),
{
}

/// Are the tallies those of the rows?
pub open spec fn is_tallied(b: BrowserView) -> bool {
    let n = b.rows.len() as int;
    b.line_count == lines_among(b.rows, n) as usize && b.file_count == files_shown(
        b.rows,
        n,
    ).len() as usize
}

/// Is `i` the position of the last slash of a path?
pub open spec fn is_last_slash(path: Seq<char>, i: int) -> bool {
    &&& 0 <= i < path.len()
    &&& path[i] == '/'
    &&& forall|j: int| i < j < path.len() ==> (#[trigger] path[j]) != '/'
}

/// Left on a line goes to the folder that its file is in: the row with the path of the
/// file up to its last slash. The path is what stands in the identifier of the line
/// before the key of the line.
pub proof fn left_steps_out_of_lines(b: BrowserView, file: Seq<char>, key: Seq<char>, i: int)
    requires
        b.cursor < b.rows.len() <= usize::MAX,
        !b.rows[b.cursor as int].is_folder,
        b.rows[b.cursor as int].id == "L:"@ + file + seq!['\0'] + key,
        !file.contains('\0'),
    ensures
        is_last_slash(file, i) ==> ({
            let x = stepped_out(b);
            let to = "F:"@ + file.take(i);
            &&& x.rows == b.rows && x.expanded == b.expanded
            &&& (exists|m: int| 0 <= m < b.rows.len() && (#[trigger] b.rows[m]).id == to)
                ==> x.cursor < b.rows.len() && b.rows[x.cursor as int].id == to
            &&& !(exists|m: int| 0 <= m < b.rows.len() && (#[trigger] b.rows[m]).id == to)
                ==> x.cursor == b.cursor
        }),
        !file.contains('/') ==> stepped_out(b) == b,
{
    reveal_strlit("L:");
    let row = b.rows[b.cursor as int];
    let rest = row.id.skip(2);
    assert(rest =~= file + seq!['\0'] + key);
    let e = next_of(rest, '\0', 0);
    next_of_bounds(rest, '\0', 0);
    assert(rest[file.len() as int] == '\0');
    assert(e == file.len()) by {
        if e < file.len() {
            assert(rest[e] == file[e]);
            assert(file.contains(file[e]));
        }
    }
    assert(rest.take(e) =~= file);
    assert(row_path(row) == file);
    last_slash_is_last(file, file.len() as int);
    if let Some(j) = last_slash(file, file.len() as int) {
        assert(file.contains(file[j]));
        row_with_id_is_first(b.rows, "F:"@ + file.take(j), 0);
        if is_last_slash(file, i) {
            if i < j {
                assert(file[j] != '/');
            }
            assert(i == j);
        }
    } else if is_last_slash(file, i) {
        assert(file[i] != '/');
    }
}

/// Left does that.
pub proof fn left_steps_out(b: BrowserView)
    requires
        b.mode == Mode::Browse,
        !b.jump_active,
    ensures
        after_key(b, Key::Left).browser == stepped_out(
            BrowserView { status: Seq::empty(), ..b },
        ),
{
}

/// A closed file is opened before it is entered.
pub proof fn closed_files_are_opened(b: BrowserView, i: int)
    requires
        0 <= i < b.rows.len() <= usize::MAX,
        !b.rows[i].expanded,
        opened_at(b, i).rows.len() <= usize::MAX,
        i < opened_at(b, i).rows.len(),
    ensures
        ({
            let o = opened_at(b, i);
            let x = at_file(b, i);
            &&& x.rows == o.rows && x.expanded == o.expanded
            &&& x.cursor == (if i + 1 < o.rows.len() && o.rows[i + 1].depth > o.rows[i].depth {
                i + 1
            } else {
                i
            })
        }),
{
}

/// A slash starts a filter, a colon starts a jump.
pub proof fn slash_and_colon_start_typing(b: BrowserView)
    requires
        b.mode == Mode::Browse,
        !b.jump_active,
    ensures
        ({
            let x = after_key(b, Key::Char('/')).browser;
            x.mode == Mode::Filter && x.rows == b.rows && x.cursor == b.cursor && x.query == b.query
        }),
        ({
            let x = after_key(b, Key::Char(':')).browser;
            x.jump_active && x.jump_buf.len() == 0 && x.rows == b.rows && x.cursor == b.cursor
        }),
{
}

/// Taking a digit off the number jumps again, to what is left of it; with nothing left
/// the cursor stays.
pub proof fn deleting_digits_jumps(b: BrowserView)
    requires
        b.mode == Mode::Browse,
        b.jump_active,
        b.cursor < b.rows.len() <= usize::MAX,
    ensures
        ({
            let x = after_key(b, Key::Backspace).browser;
            &&& x.jump_active && x.rows == b.rows && x.expanded == b.expanded && x.query == b.query
            &&& b.jump_buf.len() > 1 ==> (jump_row(
                b.rows,
                number_in(b.jump_buf.drop_last()),
                0,
                None,
            ) matches Some(i) ==> x.cursor == i)
            &&& b.jump_buf.len() <= 1 ==> x.cursor == b.cursor && x.jump_buf.len() == 0
        }),
{
    if b.jump_buf.len() > 1 {
        jumps_go_to_the_number(b.rows, number_in(b.jump_buf.drop_last()));
    }
}

/// Any other key ends the jump and does what it does without one.
pub proof fn other_keys_end_the_jump(b: BrowserView, key: Key)
    requires
        b.mode == Mode::Browse,
        b.jump_active,
        key != Key::Backspace && key != Key::Enter && key != Key::Esc,
        key matches Key::Char(c) ==> c != ':' && !('0' <= c <= '9'),
    ensures
        after_key(b, key) == after_key(BrowserView { jump_active: false, ..b }, key),
{
}

} // verus!
