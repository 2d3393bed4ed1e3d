//! Records as text for a terminal.

use crate::interactive::hits::{collect_record, record_hits, Hit, HitView};
use crate::output::{Record, RecordView};
use crate::text::{concat3, decimal, decimal_of, lines, lines_of, views};
use vstd::prelude::*;
use vstd::string::*;

verus! {

/// The escape sequence that switches to a color or a weight.
pub open spec fn switch_to(code: Seq<char>) -> Seq<char> {
    "\u{1b}["@ + code + "m"@
}

/// A text in the given color or weight, if colors are wanted.
pub open spec fn painted(text: Seq<char>, code: Seq<char>, colors: bool) -> Seq<char> {
    if colors {
        switch_to(code) + text + switch_to("0"@)
    } else {
        text
    }
}

fn paint(text: &str, code: &str, colors: bool) -> (r: String)
    ensures
        r@ == painted(text@, code@, colors),
{
    if colors {
        let mut s = concat3("\u{1b}[", code, "m");
        s.append(text);
        s.append(&concat3("\u{1b}[", "0", "m"));
        s
    } else {
        text.to_owned()
    }
}

/// The first `k` lines of an excerpt, each on a new line and indented.
pub open spec fn excerpt_text(ls: Seq<Seq<char>>, k: int) -> Seq<char>
    decreases k,
{
    if k <= 0 {
        Seq::empty()
    } else {
        excerpt_text(ls, k - 1) + "\n    "@ + ls[k - 1]
    }
}

/// A hit: its place, its qualified name, and its excerpt line by line.
pub open spec fn hit_text(h: HitView, colors: bool) -> Seq<char> {
    let place = h.file + ":"@ + decimal(h.start_line as nat);
    let name = match h.qualified_name {
        Some(n) => "  "@ + n,
        None => Seq::empty(),
    };
    let excerpt = match h.excerpt {
        Some(t) => excerpt_text(lines(t, 0), lines(t, 0).len() as int),
        None => Seq::empty(),
    };
    "\n  "@ + painted(place, "36"@, colors) + name + excerpt
}

/// The first `k` hits.
pub open spec fn hits_text(hits: Seq<HitView>, colors: bool, k: int) -> Seq<char>
    decreases k,
{
    if k <= 0 {
        Seq::empty()
    } else {
        hits_text(hits, colors, k - 1) + hit_text(hits[k - 1], colors)
    }
}

/// The text of a record: its target, what it is and its message, then each place with
/// its excerpt.
pub open spec fn record_text(r: RecordView, colors: bool) -> Seq<char> {
    let message = match r.message {
        Some(m) => ": "@ + m,
        None => Seq::empty(),
    };
    let hits = record_hits(r);
    painted(r.target, "1"@, colors) + " ("@ + r.resolution_type + ")"@ + message + hits_text(
        hits,
        colors,
        hits.len() as int,
    )
}

fn append_excerpt(out: &mut String, text: &str)
    ensures
        final(out)@ == old(out)@ + excerpt_text(lines(text@, 0), lines(text@, 0).len() as int),
{
    let ls = lines_of(text);
    let ghost all = lines(text@, 0);
    let ghost start = out@;
    let mut k: usize = 0;
    assert(all.len() == ls@.len());
    assert(start + excerpt_text(all, 0) =~= start);
    while k < ls.len()
        invariant
            k <= ls@.len(),
            all == views(ls@),
            out@ == start + excerpt_text(all, k as int),
        decreases ls@.len() - k,
    {
        assert(all[k as int] == ls@[k as int]@);
        out.append("\n    ");
        out.append(&ls[k]);
        k += 1;
        assert(out@ =~= start + excerpt_text(all, k as int));
    }
}

fn append_hit(out: &mut String, h: &Hit, colors: bool)
    ensures
        final(out)@ == old(out)@ + hit_text(h@, colors),
{
    let ghost start = out@;
    let place = concat3(&h.file, ":", &decimal_of(h.start_line));
    out.append("\n  ");
    out.append(&paint(&place, "36", colors));
    if let Some(name) = &h.qualified_name {
        out.append("  ");
        out.append(name);
    }
    if let Some(text) = &h.excerpt {
        append_excerpt(out, text);
    }
    assert(out@ =~= start + hit_text(h@, colors));
}

/// Renders a record as text for a terminal.
pub fn render(record: &Record, colors: bool) -> (r: String)
    ensures
        r@ == record_text(record@, colors),
{
    let hits = collect_record(record);
    let ghost all = record_hits(record@);
    let mut out = paint(&record.target, "1", colors);
    out.append(" (");
    out.append(&record.resolution_type);
    out.append(")");
    if let Some(message) = &record.message {
        out.append(": ");
        out.append(message);
    }
    let ghost start = out@;
    let mut k: usize = 0;
    assert(all.len() == hits@.len());
    assert(start + hits_text(all, colors, 0) =~= start);
    while k < hits.len()
        invariant
            k <= hits@.len(),
            all == views(hits@),
            out@ == start + hits_text(all, colors, k as int),
        decreases hits@.len() - k,
    {
        assert(all[k as int] == hits@[k as int]@);
        append_hit(&mut out, &hits[k], colors);
        k += 1;
        assert(out@ =~= start + hits_text(all, colors, k as int));
    }
    assert(out@ =~= record_text(record@, colors));
    out
}

} // verus!
