//! What the macro scanner reads, blanks and reports.

use crate::ascii::{
    ascii_space, ascii_text, digit_byte, ident_continue, ident_start, upper_byte, AMPERSAND,
    BACKSLASH, COLON, DOUBLE_QUOTE, GREATER, HASH, NEWLINE, OPEN_PAREN, RETURN, SINGLE_QUOTE,
    SLASH, SPACE, STAR, TAB, UNDERSCORE,
};
use crate::commands::{name_inserted, names_inserted, suspects_added};
use crate::engine::macros::{
    all_caps, blanked, comment_end, covers, define_name, define_word, defines, directive_end,
    in_slot, lexeme, neutral, quoted_end, space_end, suspects, to_blank, token_name, tokens,
    unconfirmed, word_end, Tok,
};
use crate::sources::{contents, SourceFileView};
use crate::text::{next_of, next_of_bounds};
use vstd::prelude::*;

verus! {

// ---------------------------------------------------------------------------
// Where things end
// ---------------------------------------------------------------------------

/// Is `i..e` a run of identifier bytes that ends at the text or before another byte?
pub open spec fn is_word(src: Seq<u8>, i: int, e: int) -> bool {
    &&& 0 <= i <= e <= src.len()
    &&& forall|j: int| i <= j < e ==> ident_continue(#[trigger] src[j])
    &&& e < src.len() ==> !ident_continue(src[e])
}

proof fn word_ends(src: Seq<u8>, i: int)
    requires
        0 <= i <= src.len(),
    ensures
        is_word(src, i, word_end(src, i)),
    decreases src.len() - i,
{
    if i < src.len() && ident_continue(src[i]) {
        word_ends(src, i + 1);
    }
}

/// Is `e` the first newline from `i` on that no backslash precedes, or the end of the
/// text if there is none?
pub open spec fn is_directive(src: Seq<u8>, i: int, e: int) -> bool {
    &&& i <= e <= src.len()
    &&& forall|j: int|
        #![trigger src[j]]
        i <= j < e && src[j] == NEWLINE ==> j > i && src[j - 1] == BACKSLASH
    &&& e < src.len() ==> src[e] == NEWLINE && (e > i ==> src[e - 1] != BACKSLASH)
}

proof fn directive_ends(src: Seq<u8>, i: int)
    requires
        0 <= i <= src.len(),
    ensures
        is_directive(src, i, directive_end(src, i)),
    decreases src.len() - i,
{
    if i < src.len() && src[i] != NEWLINE {
        let e = directive_end(src, i);
        if src[i] == BACKSLASH && i + 1 < src.len() && src[i + 1] == NEWLINE {
            directive_ends(src, i + 2);
            assert forall|j: int|
                #![trigger src[j]]
                i <= j < e && src[j] == NEWLINE implies j > i && src[j - 1] == BACKSLASH by {
                if j > i + 1 {
                    assert(i + 2 <= j);
                }
            }
        } else {
            directive_ends(src, i + 1);
            assert forall|j: int|
                #![trigger src[j]]
                i <= j < e && src[j] == NEWLINE implies j > i && src[j - 1] == BACKSLASH by {
                if j > i {
                    assert(j >= i + 1);
                }
            }
        }
    }
}

/// Is `e` just past the first `*/` from `i` on, or the end of the text if there is none?
pub open spec fn is_comment(src: Seq<u8>, i: int, e: int) -> bool {
    &&& e <= src.len()
    &&& forall|j: int|
        #![trigger src[j]]
        i <= j && j + 2 < e ==> !(src[j] == STAR && src[j + 1] == SLASH)
    &&& (i + 2 <= e && src[e - 2] == STAR && src[e - 1] == SLASH) || (e == src.len() && forall|j: int|
        #![trigger src[j]]
        i <= j && j + 1 < src.len() ==> !(src[j] == STAR && src[j + 1] == SLASH))
}

proof fn comment_ends(src: Seq<u8>, i: int)
    requires
        0 <= i <= src.len(),
    ensures
        is_comment(src, i, comment_end(src, i)),
    decreases src.len() - i,
{
    if i + 1 < src.len() && !(src[i] == STAR && src[i + 1] == SLASH) {
        comment_ends(src, i + 1);
    }
}

/// Does a literal that holds no backslash up to `e` end just past its closing quote,
/// before its newline, or with the text, whichever comes first?
pub open spec fn is_literal(src: Seq<u8>, i: int, e: int, quote: u8) -> bool {
    &&& i <= e <= src.len()
    &&& (forall|j: int| i <= j < e ==> (#[trigger] src[j]) != BACKSLASH) ==> {
        &&& forall|j: int|
            i <= j < e - 1 ==> (#[trigger] src[j]) != quote && src[j] != NEWLINE
        &&& (e > i && src[e - 1] == quote) || (e < src.len() && src[e] == NEWLINE) || e == src.len()
    }
}

proof fn literal_ends(src: Seq<u8>, i: int, quote: u8)
    requires
        0 <= i <= src.len(),
        quote != NEWLINE,
        quote != BACKSLASH,
    ensures
        is_literal(src, i, quoted_end(src, i, quote), quote),
        i < src.len() && src[i] == quote ==> quoted_end(src, i, quote) == i + 1,
    decreases src.len() - i,
{
    if i < src.len() {
        if src[i] == BACKSLASH {
            if i + 2 <= src.len() {
                literal_ends(src, i + 2, quote);
            }
        } else if src[i] != quote && src[i] != NEWLINE {
            literal_ends(src, i + 1, quote);
        }
    }
}

/// An escaped character never ends a literal: behind a backslash the literal goes on as
/// if both characters were not there.
pub proof fn escapes_are_passed_over(src: Seq<u8>, i: int, quote: u8)
    requires
        0 <= i,
        i + 1 < src.len(),
        src[i] == BACKSLASH,
    ensures
        quoted_end(src, i, quote) == quoted_end(src, i + 2, quote),
{
}

// ---------------------------------------------------------------------------
// Tokens
// ---------------------------------------------------------------------------

/// Is this how the scanner reads on at `i`, where `fresh` says whether only whitespace
/// was seen on the line: to `j`, with the token `t` if any?
pub open spec fn reads_on(
    src: Seq<u8>,
    i: int,
    fresh: bool,
    t: Option<Tok>,
    j: int,
    fresh_after: bool,
) -> bool {
    let b = src[i];
    let next_is = |x: u8| i + 1 < src.len() && src[i + 1] == x;
    if b == NEWLINE {
        t is None && j == i + 1 && fresh_after
    } else if b == SPACE || b == TAB || b == RETURN {
        t is None && j == i + 1 && fresh_after == fresh
    } else if b == HASH && fresh {
        t is None && is_directive(src, i, j)
    } else if b == SLASH && next_is(SLASH) {
        t is None && j == next_of(src, NEWLINE, i)
    } else if b == SLASH && next_is(STAR) {
        t is None && is_comment(src, i + 2, j) && !fresh_after
    } else if b == DOUBLE_QUOTE || b == SINGLE_QUOTE {
        t is None && is_literal(src, i + 1, j, b) && !fresh_after
    } else if ident_start(b) {
        is_word(src, i, j) && !fresh_after && (src.len() <= usize::MAX ==> (t matches Some(
            Tok::Ident { start, end, all_caps: caps },
        ) && start == i && end == j && caps == is_capital_name(src.subrange(i, j))))
    } else if b == OPEN_PAREN {
        t == Some(Tok::Open) && j == i + 1 && !fresh_after
    } else if b == STAR || b == AMPERSAND || b == GREATER {
        t == Some(Tok::TypeIsh) && j == i + 1 && !fresh_after
    } else if b == COLON && next_is(COLON) {
        t == Some(Tok::TypeIsh) && j == i + 2 && !fresh_after
    } else {
        t == Some(Tok::Other) && j == i + 1 && !fresh_after
    }
}

/// Is a name of at least two bytes made of capitals, digits and underscores, with a
/// capital among them?
pub open spec fn is_capital_name(name: Seq<u8>) -> bool {
    &&& name.len() >= 2
    &&& exists|i: int| 0 <= i < name.len() && 0x41 <= #[trigger] name[i] <= 0x5a
    &&& forall|i: int|
        0 <= i < name.len() ==> (0x41 <= #[trigger] name[i] <= 0x5a) || (0x30 <= name[i] <= 0x39)
            || name[i] == 0x5f
}

/// Names in capitals are told from others.
pub proof fn capital_names_are_recognized(name: Seq<u8>)
    ensures
        all_caps(name) <==> is_capital_name(name),
{
    if all_caps(name) {
        let i = choose|i: int| 0 <= i < name.len() && upper_byte(#[trigger] name[i]);
        assert(0x41 <= name[i] <= 0x5a);
        assert forall|i: int| 0 <= i < name.len() implies (0x41 <= #[trigger] name[i] <= 0x5a) || (
        0x30 <= name[i] <= 0x39) || name[i] == 0x5f by {
            assert(upper_byte(name[i]) || digit_byte(name[i]) || name[i] == UNDERSCORE);
        }
    }
    if is_capital_name(name) {
        let i = choose|i: int| 0 <= i < name.len() && 0x41 <= #[trigger] name[i] <= 0x5a;
        assert(upper_byte(name[i]));
        assert forall|i: int| 0 <= i < name.len() implies upper_byte(#[trigger] name[i])
            || digit_byte(name[i]) || name[i] == UNDERSCORE by {
            assert((0x41 <= name[i] <= 0x5a) || (0x30 <= name[i] <= 0x39) || name[i] == 0x5f);
        }
    }
}

proof fn lexemes_read_on(src: Seq<u8>, i: int, fresh: bool)
    requires
        0 <= i < src.len(),
    ensures
        ({
            let x = lexeme(src, i, fresh);
            reads_on(src, i, fresh, x.tok, x.next, x.line_start) && i < x.next <= src.len()
        }),
{
    let b = src[i];
    word_ends(src, i);
    if ident_start(b) {
        assert(ident_continue(src[i]));
        assert(word_end(src, i) > i);
        capital_names_are_recognized(src.subrange(i, word_end(src, i)));
    }
    directive_ends(src, i);
    if b == HASH {
        assert(directive_end(src, i) > i) by {
            directive_ends(src, i + 1);
        }
    }
    if i + 2 <= src.len() {
        comment_ends(src, i + 2);
        comment_moves_on(src, i + 2);
    }
    if b == DOUBLE_QUOTE || b == SINGLE_QUOTE {
        literal_ends(src, i + 1, b);
    }
    next_of_bounds(src, NEWLINE, i);
}

proof fn comment_moves_on(src: Seq<u8>, i: int)
    requires
        0 <= i <= src.len(),
    ensures
        i <= comment_end(src, i) <= src.len(),
    decreases src.len() - i,
{
    if i + 1 < src.len() && !(src[i] == STAR && src[i + 1] == SLASH) {
        comment_moves_on(src, i + 1);
    }
}

/// One stretch of the text as the scanner reads it.
pub struct Stretch {
    pub from: int,
    pub to: int,
    pub fresh: bool,
    pub fresh_after: bool,
    pub tok: Option<Tok>,
}

/// Do the stretches cover the text from `i` to its end without a gap, each read as it
/// must be?
pub open spec fn covers_text(src: Seq<u8>, i: int, fresh: bool, s: Seq<Stretch>) -> bool {
    &&& s.len() == 0 ==> i >= src.len()
    &&& s.len() > 0 ==> s[0].from == i && s[0].fresh == fresh && s.last().to >= src.len()
    &&& forall|k: int|
        0 <= k < s.len() ==> 0 <= (#[trigger] s[k]).from < s[k].to <= src.len() && reads_on(
            src,
            s[k].from,
            s[k].fresh,
            s[k].tok,
            s[k].to,
            s[k].fresh_after,
        )
    &&& forall|k: int|
        0 < k < s.len() ==> (#[trigger] s[k]).from == s[k - 1].to && s[k].fresh == s[k
            - 1].fresh_after
}

/// The tokens of the stretches that have one.
pub open spec fn tokens_in(s: Seq<Stretch>) -> Seq<Tok> {
    s.filter(|x: Stretch| x.tok is Some).map_values(|x: Stretch| x.tok->0)
}

proof fn tokens_in_front(x: Stretch, s: Seq<Stretch>)
    ensures
        tokens_in(seq![x] + s) == (match x.tok {
            Some(t) => seq![t] + tokens_in(s),
            None => tokens_in(s),
        }),
{
    let pick = |x: Stretch| x.tok is Some;
    Seq::filter_distributes_over_add(seq![x], s, pick);
    reveal(Seq::filter);
    let none = Seq::<Stretch>::empty();
    assert(seq![x].drop_last() =~= none);
    assert(none.filter(pick) =~= none);
    assert(seq![x].last() == x);
    assert(seq![x].filter(pick) =~= (if x.tok is Some {
        seq![x]
    } else {
        Seq::empty()
    }));
    match x.tok {
        Some(t) => {
            assert(tokens_in(seq![x] + s) =~= seq![t] + tokens_in(s));
        },
        None => {
            assert(tokens_in(seq![x] + s) =~= tokens_in(s));
        },
    }
}

proof fn text_is_covered(src: Seq<u8>, i: int, fresh: bool) -> (s: Seq<Stretch>)
    requires
        0 <= i <= src.len(),
    ensures
        covers_text(src, i, fresh, s),
        tokens(src, i, fresh) == tokens_in(s),
    decreases src.len() - i,
{
    if i >= src.len() {
        let s = Seq::<Stretch>::empty();
        reveal(Seq::filter);
        assert(tokens_in(s) =~= Seq::empty());
        s
    } else {
        lexemes_read_on(src, i, fresh);
        let x = lexeme(src, i, fresh);
        let rest = text_is_covered(src, x.next, x.line_start);
        let one = Stretch {
            from: i,
            to: x.next,
            fresh,
            fresh_after: x.line_start,
            tok: x.tok,
        };
        let s = seq![one] + rest;
        assert forall|k: int| 0 <= k < s.len() implies 0 <= (#[trigger] s[k]).from < s[k].to
            <= src.len() && reads_on(
            src,
            s[k].from,
            s[k].fresh,
            s[k].tok,
            s[k].to,
            s[k].fresh_after,
        ) by {
            if k > 0 {
                assert(s[k] == rest[k - 1]);
            }
        }
        assert forall|k: int| 0 < k < s.len() implies (#[trigger] s[k]).from == s[k - 1].to
            && s[k].fresh == s[k - 1].fresh_after by {
            assert(s[k] == rest[k - 1]);
            if k > 1 {
                assert(s[k - 1] == rest[k - 2]);
            }
        }
        if rest.len() > 0 {
            assert(s.last() == rest.last());
        }
        tokens_in_front(one, rest);
        s
    }
}

/// The scanner reads a text from its start to its end without a gap: whitespace,
/// directives, comments and literals give no token, every other stretch gives one, and
/// names are read whole.
pub proof fn texts_are_read_without_a_gap(src: Seq<u8>)
    ensures
        exists|s: Seq<Stretch>| #[trigger]
            covers_text(src, 0, true, s) && tokens(src, 0, true) == tokens_in(s),
{
    let s = text_is_covered(src, 0, true);
}

// ---------------------------------------------------------------------------
// Blanking
// ---------------------------------------------------------------------------

/// Does token `k` stand where an annotation does: behind a type, before a name and the
/// opening of its parameters?
pub open spec fn annotates(toks: Seq<Tok>, k: int) -> bool {
    &&& 0 < k
    &&& k + 2 < toks.len()
    &&& toks[k - 1] is Ident || toks[k - 1] == Tok::TypeIsh
    &&& toks[k + 1] is Ident
    &&& toks[k + 2] == Tok::Open
}

/// Is byte `p` in a macro that is known everywhere, or in one that is known as an
/// annotation and stands as one?
pub open spec fn is_in_macro(
    src: Seq<u8>,
    p: int,
    global: Set<Seq<char>>,
    annotation: Set<Seq<char>>,
) -> bool {
    let toks = tokens(src, 0, true);
    exists|k: int|
        0 <= k < toks.len() && ((#[trigger] toks[k]) matches Tok::Ident { start, end, .. } && start
            <= p < end && {
            let name = ascii_text(src.subrange(start as int, end as int));
            global.contains(name) || (annotation.contains(name) && annotates(toks, k))
        })
}

/// Exactly the bytes of confirmed macros are blanked, those known as annotations only
/// where they stand as one; every other byte stays.
pub proof fn confirmed_macros_are_blanked(
    src: Seq<u8>,
    global: Set<Seq<char>>,
    annotation: Set<Seq<char>>,
    p: int,
)
    requires
        0 <= p < src.len(),
    ensures
        neutral(src, global, annotation).len() == src.len(),
        neutral(src, global, annotation)[p] == (if is_in_macro(src, p, global, annotation) {
            SPACE
        } else {
            src[p]
        }),
{
    let toks = tokens(src, 0, true);
    if blanked(src, p, global, annotation) {
        let k = choose|k: int| #[trigger]
            to_blank(src, toks, k, global, annotation) && covers(toks[k], p);
        assert(toks[k] is Ident);
    }
    if is_in_macro(src, p, global, annotation) {
        let k = choose|k: int|
            0 <= k < toks.len() && ((#[trigger] toks[k]) matches Tok::Ident { start, end, .. }
                && start <= p < end && {
                let name = ascii_text(src.subrange(start as int, end as int));
                global.contains(name) || (annotation.contains(name) && annotates(toks, k))
            });
        assert(to_blank(src, toks, k, global, annotation));
        assert(covers(toks[k], p));
    }
}

// ---------------------------------------------------------------------------
// Reporting
// ---------------------------------------------------------------------------

/// Is `x` a name in capitals that stands as an annotation in a file?
pub open spec fn looks_like_a_macro(src: Seq<u8>, x: Seq<char>) -> bool {
    let toks = tokens(src, 0, true);
    exists|k: int|
        0 <= k < toks.len() && ((#[trigger] toks[k]) matches Tok::Ident {
            start,
            end,
            all_caps: caps,
        } && caps && x == ascii_text(src.subrange(start as int, end as int)) && annotates(toks, k))
}

proof fn unconfirmed_are_reported(
    src: Seq<u8>,
    toks: Seq<Tok>,
    known: Set<Seq<char>>,
    k: int,
    x: Seq<char>,
)
    requires
        0 <= k <= toks.len(),
    ensures
        unconfirmed(src, toks, known, k).contains(x) <==> !known.contains(x) && exists|j: int|
            0 <= j < k && ((#[trigger] toks[j]) matches Tok::Ident { start, end, all_caps: caps }
                && caps && x == ascii_text(src.subrange(start as int, end as int)) && annotates(
                toks,
                j,
            )),
    decreases k,
{
    if k > 0 {
        unconfirmed_are_reported(src, toks, known, k - 1, x);
        let before = unconfirmed(src, toks, known, k - 1);
        let all = unconfirmed(src, toks, known, k);
        let t = toks[k - 1];
        if before.contains(x) {
            let m = choose|m: int| 0 <= m < before.len() && before[m] == x;
            assert(all[m] == x);
        }
        if t is Ident && t->Ident_all_caps && in_slot(toks, k - 1) && token_name(src, t) == x
            && !known.contains(x) && !before.contains(x) {
            assert(all[all.len() - 1] == x);
        }
        if all.contains(x) && !before.contains(x) {
            let m = choose|m: int| 0 <= m < all.len() && all[m] == x;
            if m < before.len() {
                assert(before[m] == x);
            }
            assert(toks[k - 1] is Ident);
        }
    }
}

/// A name is reported if and only if it is in capitals, stands as an annotation, and is
/// neither confirmed nor defined in the file.
pub proof fn names_that_look_like_macros_are_reported(
    src: Seq<u8>,
    confirmed: Set<Seq<char>>,
    x: Seq<char>,
)
    ensures
        suspects(src, confirmed).contains(x) <==> looks_like_a_macro(src, x) && !confirmed.contains(
            x,
        ) && !defines(src).contains(x),
{
    let toks = tokens(src, 0, true);
    unconfirmed_are_reported(src, toks, confirmed.union(defines(src)), toks.len() as int, x);
}

proof fn inserting_adds_one(s: Seq<Seq<char>>, x: Seq<char>, k: int, y: Seq<char>)
    requires
        0 <= k <= s.len(),
    ensures
        name_inserted(s, x, k).contains(y) <==> s.contains(y) || y == x,
    decreases k,
{
    if k > 0 && crate::text::text_before(x, s[k - 1], 0) {
        inserting_adds_one(s, x, k - 1, y);
    } else if k > 0 && s[k - 1] == x {
        assert(s.contains(s[k - 1]));
    } else {
        let t = s.insert(k, x);
        assert(t[k] == x);
        if s.contains(y) {
            let m = choose|m: int| 0 <= m < s.len() && s[m] == y;
            assert(t[if m < k { m } else { m + 1 }] == y);
        }
        if t.contains(y) && y != x {
            let m = choose|m: int| 0 <= m < t.len() && t[m] == y;
            assert(s[if m < k { m } else { m - 1 }] == y);
        }
    }
}

proof fn inserting_adds_all(s: Seq<Seq<char>>, xs: Seq<Seq<char>>, k: int, y: Seq<char>)
    requires
        0 <= k <= xs.len(),
    ensures
        names_inserted(s, xs, k).contains(y) <==> s.contains(y) || exists|j: int|
            0 <= j < k && #[trigger] xs[j] == y,
    decreases k,
{
    if k > 0 {
        inserting_adds_all(s, xs, k - 1, y);
        let before = names_inserted(s, xs, k - 1);
        inserting_adds_one(before, xs[k - 1], before.len() as int, y);
    }
}

/// What is gathered over files are the names reported of any of them that can be read,
/// beside those already there.
pub proof fn reports_are_gathered_over_files(
    s: Seq<Seq<char>>,
    paths: Seq<Seq<char>>,
    confirmed: Set<Seq<char>>,
    files: Seq<SourceFileView>,
    k: int,
    y: Seq<char>,
)
    requires
        0 <= k <= paths.len(),
    ensures
        suspects_added(s, paths, confirmed, files, k).contains(y) <==> s.contains(y) || exists|j: int|
            0 <= j < k && (contents(files, #[trigger] paths[j]) matches Some(src) && suspects(
                src,
                confirmed,
            ).contains(y)),
    decreases k,
{
    if k > 0 {
        reports_are_gathered_over_files(s, paths, confirmed, files, k - 1, y);
        if let Some(src) = contents(files, paths[k - 1]) {
            let xs = suspects(src, confirmed);
            inserting_adds_all(
                suspects_added(s, paths, confirmed, files, k - 1),
                xs,
                xs.len() as int,
                y,
            );
            if xs.contains(y) {
                let j = choose|j: int| 0 <= j < xs.len() && xs[j] == y;
                assert(xs[j] == y);
            }
        }
    }
}

// ---------------------------------------------------------------------------
// Definitions
// ---------------------------------------------------------------------------

/// Are all bytes ASCII whitespace?
pub open spec fn all_blank(s: Seq<u8>) -> bool {
    forall|i: int| 0 <= i < s.len() ==> ascii_space(#[trigger] s[i])
}

/// Is a line made of `a`, `#`, `b`, the word `define`, `c`, a name and a rest, with
/// whitespace before the `#`, after it and before the name, and the name whole?
pub open spec fn is_define(
    line: Seq<u8>,
    a: Seq<u8>,
    b: Seq<u8>,
    c: Seq<u8>,
    name: Seq<u8>,
    rest: Seq<u8>,
) -> bool {
    &&& line == a + seq![HASH] + b + define_word() + c + name + rest
    &&& all_blank(a) && all_blank(b) && all_blank(c) && c.len() > 0
    &&& name.len() > 0 && ident_start(name[0])
    &&& forall|i: int| 0 <= i < name.len() ==> ident_continue(#[trigger] name[i])
    &&& rest.len() > 0 ==> !ident_continue(rest[0])
}

proof fn space_ends(s: Seq<u8>, i: int)
    requires
        0 <= i <= s.len(),
    ensures
        i <= space_end(s, i) <= s.len(),
        forall|j: int| i <= j < space_end(s, i) ==> ascii_space(#[trigger] s[j]),
        space_end(s, i) < s.len() ==> !ascii_space(s[space_end(s, i)]),
    decreases s.len() - i,
{
    if i < s.len() && ascii_space(s[i]) {
        space_ends(s, i + 1);
    }
}

/// A line that defines a macro is read as such: what is found are a `#`, the word
/// `define` and a whole name, with nothing but whitespace around.
pub proof fn definitions_are_read(line: Seq<u8>)
    ensures
        define_name(line) matches Some(x) ==> exists|
            a: Seq<u8>,
            b: Seq<u8>,
            c: Seq<u8>,
            name: Seq<u8>,
            rest: Seq<u8>,
        | #[trigger] is_define(line, a, b, c, name, rest) && x == ascii_text(name),
{
    if define_name(line) is Some {
        let hash = space_end(line, 0);
        let word = space_end(line, hash + 1);
        let from = space_end(line, word + 6);
        let end = word_end(line, from);
        space_ends(line, 0);
        space_ends(line, hash + 1);
        space_ends(line, word + 6);
        word_ends(line, from);
        let a = line.take(hash);
        let b = line.subrange(hash + 1, word);
        let c = line.subrange(word + 6, from);
        let name = line.subrange(from, end);
        let rest = line.skip(end);
        assert(line.subrange(word, word + 6) == define_word());
        assert(line =~= a + seq![HASH] + b + line.subrange(word, word + 6) + c + name + rest);
        assert(ident_continue(line[from]));
        assert(end > from);
        assert(c.len() > 0) by {
            assert(ascii_space(line[word + 6]));
        }
        assert(is_define(line, a, b, c, name, rest));
    }
}

proof fn space_end_is(s: Seq<u8>, i: int, e: int)
    requires
        0 <= i <= e <= s.len(),
        forall|j: int| i <= j < e ==> ascii_space(#[trigger] s[j]),
        e < s.len() ==> !ascii_space(s[e]),
    ensures
        space_end(s, i) == e,
    decreases e - i,
{
    if i < e {
        space_end_is(s, i + 1, e);
    }
}

proof fn word_end_is(s: Seq<u8>, i: int, e: int)
    requires
        is_word(s, i, e),
    ensures
        word_end(s, i) == e,
    decreases e - i,
{
    if i < e {
        word_end_is(s, i + 1, e);
    }
}

/// Every line of that form defines the name in it.
pub proof fn definitions_are_not_missed(
    line: Seq<u8>,
    a: Seq<u8>,
    b: Seq<u8>,
    c: Seq<u8>,
    name: Seq<u8>,
    rest: Seq<u8>,
)
    requires
        is_define(line, a, b, c, name, rest),
    ensures
        define_name(line) == Some(ascii_text(name)),
{
    let hash = a.len() as int;
    let word = hash + 1 + b.len();
    let from = word + 6 + c.len();
    let end = from + name.len();
    assert(define_word().len() == 6);
    assert forall|j: int| 0 <= j < hash implies ascii_space(#[trigger] line[j]) by {
        assert(line[j] == a[j]);
    }
    assert(line[hash] == HASH);
    space_end_is(line, 0, hash);
    assert forall|j: int| hash + 1 <= j < word implies ascii_space(#[trigger] line[j]) by {
        assert(line[j] == b[j - hash - 1]);
    }
    assert(line.subrange(word, word + 6) =~= define_word());
    assert(line[word] == define_word()[0]);
    space_end_is(line, hash + 1, word);
    assert forall|j: int| word + 6 <= j < from implies ascii_space(#[trigger] line[j]) by {
        assert(line[j] == c[j - word - 6]);
    }
    assert(line[from] == name[0]);
    space_end_is(line, word + 6, from);
    assert forall|j: int| from <= j < end implies ident_continue(#[trigger] line[j]) by {
        assert(line[j] == name[j - from]);
    }
    if end < line.len() {
        assert(line[end] == rest[0]);
    }
    word_end_is(line, from, end);
    assert(line.subrange(from, end) =~= name);
    assert(ascii_space(line[word + 6]));
}

/// Names are made of letters, digits and underscores and do not start with a digit;
/// whitespace is what ASCII counts as such.
pub proof fn bytes_are_classed_as_in_ascii(b: u8)
    ensures
        ident_start(b) <==> (0x41 <= b <= 0x5a) || (0x61 <= b <= 0x7a) || b == 0x5f,
        ident_continue(b) <==> ident_start(b) || (0x30 <= b <= 0x39),
        ascii_space(b) <==> b == 0x20 || b == 0x09 || b == 0x0a || b == 0x0c || b == 0x0d,
{
}

} // verus!
