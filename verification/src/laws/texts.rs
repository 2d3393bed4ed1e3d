//! Splitting, joining, trimming and comparing texts.

use crate::text::{
    after_space, ascii_lower, before_space, component_start, joined, last_component, lines,
    lowercase, next_of, next_of_bounds, padded, pieces, text_before, trimmed, whitespace,
};
use vstd::prelude::*;

verus! {

/// Joining nothing gives nothing, joining one piece gives it back, and joining two lists
/// one after the other is joining each, with the separator between.
pub proof fn joining_is_piecewise(
    a: Seq<Seq<char>>,
    b: Seq<Seq<char>>,
    x: Seq<char>,
    sep: Seq<char>,
)
    ensures
        joined(Seq::empty(), sep).len() == 0,
        joined(seq![x], sep) == x,
        a.len() > 0 && b.len() > 0 ==> joined(a + b, sep) == joined(a, sep) + sep + joined(b, sep),
    decreases b.len(),
{
    if a.len() > 0 && b.len() > 0 {
        let all = a + b;
        assert(all.drop_last() =~= a + b.drop_last());
        assert(all.last() == b.last());
        if b.len() == 1 {
            assert(a + b.drop_last() =~= a);
        } else {
            joining_is_piecewise(a, b.drop_last(), x, sep);
            assert(joined(all, sep) =~= joined(a, sep) + sep + joined(b, sep));
        }
    }
}

proof fn pieces_of_rest(s: Seq<char>, x: char, i: int)
    requires
        0 <= i <= s.len(),
    ensures
        pieces(s, x, i).len() > 0,
        joined(pieces(s, x, i), seq![x]) == s.skip(i),
        forall|k: int| 0 <= k < pieces(s, x, i).len() ==> !(#[trigger] pieces(s, x, i)[k]).contains(x),
    decreases s.len() - i,
{
    next_of_bounds(s, x, i);
    let j = next_of(s, x, i);
    let all = pieces(s, x, i);
    if j < s.len() {
        pieces_of_rest(s, x, j + 1);
        let rest = pieces(s, x, j + 1);
        let first = s.subrange(i, j);
        joining_is_piecewise(seq![first], rest, first, seq![x]);
        assert(s.skip(i) =~= first + seq![x] + s.skip(j + 1));
        assert forall|k: int| 0 <= k < all.len() implies !(#[trigger] all[k]).contains(x) by {
            if k > 0 {
                assert(all[k] == rest[k - 1]);
            }
        }
    } else {
        let first = s.subrange(i, s.len() as int);
        joining_is_piecewise(seq![first], seq![first], first, seq![x]);
        assert(first =~= s.skip(i));
    }
}

/// The pieces of a text between occurrences of a character hold no such character, and
/// joined with it they give the text back.
pub proof fn pieces_join_back(s: Seq<char>, x: char)
    ensures
        pieces(s, x, 0).len() > 0,
        joined(pieces(s, x, 0), seq![x]) == s,
        forall|k: int| 0 <= k < pieces(s, x, 0).len() ==> !(#[trigger] pieces(s, x, 0)[k]).contains(x),
{
    pieces_of_rest(s, x, 0);
    assert(s.skip(0) =~= s);
}

/// Is `l` the piece `p`, but for one carriage return at its end?
pub open spec fn is_piece_without_cr(l: Seq<char>, p: Seq<char>) -> bool {
    if p.len() > 0 && p.last() == '\r' {
        p == l.push('\r')
    } else {
        p == l
    }
}

proof fn lines_of_rest(s: Seq<char>, i: int)
    requires
        0 <= i <= s.len(),
    ensures
        ({
            let p = pieces(s, '\n', i);
            let l = lines(s, i);
            &&& p.len() > 0
            &&& l.len() == (if p.last().len() == 0 { p.len() - 1 } else { p.len() as int })
            &&& forall|k: int| 0 <= k < p.len() - 1 ==> is_piece_without_cr(#[trigger] l[k], p[k])
            &&& p.last().len() > 0 ==> l.last() == p.last()
        }),
    decreases s.len() - i,
{
    next_of_bounds(s, '\n', i);
    let j = next_of(s, '\n', i);
    let p = pieces(s, '\n', i);
    let l = lines(s, i);
    if j < s.len() {
        lines_of_rest(s, j + 1);
        let rest = pieces(s, '\n', j + 1);
        let more = lines(s, j + 1);
        assert(p.last() == rest.last());
        let first = s.subrange(i, j);
        assert(is_piece_without_cr(l[0], first)) by {
            if first.len() > 0 && first.last() == '\r' {
                assert(first =~= first.drop_last().push('\r'));
            }
        }
        assert forall|k: int| 0 <= k < p.len() - 1 implies is_piece_without_cr(#[trigger] l[k], p[k]) by {
            if k > 0 {
                assert(l[k] == more[k - 1]);
                assert(p[k] == rest[k - 1]);
            }
        }
        if p.last().len() > 0 {
            assert(l.last() == more.last());
        }
    }
}

/// The lines of a text are its pieces between newlines, without the carriage return
/// before a newline. What follows the last newline is a line unless it is empty.
pub proof fn lines_are_pieces(s: Seq<char>)
    ensures
        ({
            let p = pieces(s, '\n', 0);
            let l = lines(s, 0);
            &&& p.len() > 0
            &&& l.len() == (if p.last().len() == 0 { p.len() - 1 } else { p.len() as int })
            &&& forall|k: int| 0 <= k < p.len() - 1 ==> is_piece_without_cr(#[trigger] l[k], p[k])
            &&& p.last().len() > 0 ==> l.last() == p.last()
        }),
{
    lines_of_rest(s, 0);
}

pub(crate) proof fn after_space_skips(s: Seq<char>, i: int)
    requires
        0 <= i <= s.len(),
    ensures
        i <= after_space(s, i) <= s.len(),
        forall|j: int| i <= j < after_space(s, i) ==> whitespace(#[trigger] s[j]),
        after_space(s, i) < s.len() ==> !whitespace(s[after_space(s, i)]),
    decreases s.len() - i,
{
    if i < s.len() && whitespace(s[i]) {
        after_space_skips(s, i + 1);
    }
}

proof fn before_space_skips(s: Seq<char>, e: int)
    requires
        0 <= e <= s.len(),
    ensures
        0 <= before_space(s, e) <= e,
        forall|j: int| before_space(s, e) <= j < e ==> whitespace(#[trigger] s[j]),
        before_space(s, e) > 0 ==> !whitespace(s[before_space(s, e) - 1]),
    decreases e,
{
    if e > 0 && whitespace(s[e - 1]) {
        before_space_skips(s, e - 1);
    }
}

/// Are all characters whitespace?
pub open spec fn all_space(s: Seq<char>) -> bool {
    forall|i: int| 0 <= i < s.len() ==> whitespace(#[trigger] s[i])
}

/// Trimming takes whitespace off both ends, all of it and nothing else.
pub proof fn trimming_takes_space_off(s: Seq<char>)
    ensures
        exists|a: Seq<char>, b: Seq<char>|
            s == #[trigger] (a + trimmed(s) + b) && all_space(a) && all_space(b),
        trimmed(s).len() > 0 ==> !whitespace(trimmed(s)[0]) && !whitespace(trimmed(s).last()),
        whitespace(' ') && whitespace('\t') && whitespace('\n') && whitespace('\r'),
        !whitespace('a') && !whitespace('#') && !whitespace('_'),
{
    let a = after_space(s, 0);
    let e = before_space(s, s.len() as int);
    after_space_skips(s, 0);
    before_space_skips(s, s.len() as int);
    if a < e {
        let head = s.take(a);
        let tail = s.skip(e);
        assert(s =~= head + trimmed(s) + tail);
        assert(all_space(head) && all_space(tail));
    } else {
        assert(all_space(s)) by {
            assert forall|i: int| 0 <= i < s.len() implies whitespace(#[trigger] s[i]) by {
                if i >= a {
                    assert(i >= e);
                }
            }
        }
        assert(s =~= s + trimmed(s) + Seq::<char>::empty());
        assert(all_space(Seq::<char>::empty()));
    }
}

proof fn component_start_is_last(s: Seq<char>, e: int)
    requires
        0 <= e <= s.len(),
    ensures
        0 <= component_start(s, e) <= e,
        component_start(s, e) > 0 ==> component_start(s, e) >= 2 && s[component_start(s, e) - 2] == ':'
            && s[component_start(s, e) - 1] == ':',
        forall|j: int|
            #![trigger s[j]]
            component_start(s, e) < j + 1 <= e && j >= 1 ==> !(s[j - 1] == ':' && s[j] == ':'),
    decreases e,
{
    if e >= 2 && !(s[e - 2] == ':' && s[e - 1] == ':') {
        component_start_is_last(s, e - 1);
    }
}

/// The last component of a name is what follows its last `::`, or the whole name if it
/// has none.
pub proof fn last_components_follow_the_last_colons(s: Seq<char>)
    ensures
        ({
            let c = last_component(s);
            let at = s.len() - c.len();
            &&& 0 <= at
            &&& c == s.skip(at)
            &&& at == 0 || (at >= 2 && s[at - 2] == ':' && s[at - 1] == ':')
            &&& forall|j: int|
                #![trigger s[j]]
                at <= j < s.len() && j >= 1 ==> !(s[j - 1] == ':' && s[j] == ':')
        }),
{
    component_start_is_last(s, s.len() as int);
}

/// Do two texts agree in their first `i` characters, and does the first end there or
/// have the smaller character?
pub open spec fn differs_below(a: Seq<char>, b: Seq<char>, i: int) -> bool {
    &&& 0 <= i <= a.len()
    &&& i < b.len()
    &&& a.take(i) == b.take(i)
    &&& i == a.len() || (a[i] as u32) < (b[i] as u32)
}

proof fn before_where_they_differ(a: Seq<char>, b: Seq<char>, i: int)
    requires
        0 <= i <= a.len(),
        i <= b.len(),
        a.take(i) == b.take(i),
    ensures
        text_before(a, b, i) ==> exists|j: int| #[trigger] differs_below(a, b, j),
    decreases b.len() - i,
{
    if text_before(a, b, i) {
        if i >= a.len() {
            assert(differs_below(a, b, i));
        } else if a[i] != b[i] {
            assert(differs_below(a, b, i));
        } else {
            assert(a.take(i + 1) =~= a.take(i).push(a[i]));
            assert(b.take(i + 1) =~= b.take(i).push(b[i]));
            before_where_they_differ(a, b, i + 1);
        }
    }
}

proof fn differing_comes_before(a: Seq<char>, b: Seq<char>, i: int, j: int)
    requires
        0 <= i <= j,
        differs_below(a, b, j),
    ensures
        text_before(a, b, i),
    decreases j - i,
{
    if i < j {
        assert(a[i] == a.take(j)[i]);
        assert(b[i] == b.take(j)[i]);
        differing_comes_before(a, b, i + 1, j);
    }
}

/// One text comes before another where, after a common start, it ends or has the smaller
/// character.
pub proof fn texts_are_ordered_by_their_first_difference(a: Seq<char>, b: Seq<char>)
    ensures
        text_before(a, b, 0) <==> exists|i: int| #[trigger] differs_below(a, b, i),
{
    assert(a.take(0) =~= b.take(0));
    before_where_they_differ(a, b, 0);
    if exists|i: int| #[trigger] differs_below(a, b, i) {
        let j = choose|i: int| #[trigger] differs_below(a, b, i);
        differing_comes_before(a, b, 0, j);
    }
}

/// Padding puts the filler in front, up to the width and no further.
pub proof fn padding_fills_in_front(s: Seq<char>, c: char, width: nat)
    ensures
        ({
            let p = padded(s, c, width);
            &&& p.len() == (if s.len() < width { width } else { s.len() })
            &&& p.skip(p.len() - s.len()) == s
            &&& forall|i: int| 0 <= i < p.len() - s.len() ==> #[trigger] p[i] == c
        }),
{
    let p = padded(s, c, width);
    assert(p.skip(p.len() - s.len()) =~= s);
}

/// In an ASCII text, lower case turns `A` to `Z` into `a` to `z` and keeps the rest.
pub proof fn lower_case_changes_capitals_only(s: Seq<char>, i: int)
    requires
        0 <= i < s.len(),
        crate::text::all_ascii(s),
    ensures
        lowercase(s).len() == s.len(),
        'A' <= s[i] && s[i] <= 'Z' ==> lowercase(s)[i] as u32 == s[i] as u32 + 32,
        !('A' <= s[i] && s[i] <= 'Z') ==> lowercase(s)[i] == s[i],
{
    assert(lowercase(s)[i] == ascii_lower(s[i]));
}

} // verus!
