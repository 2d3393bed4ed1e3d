//! Annotation-macro neutralization for the syntactic backend.
//!
//! The C++ grammar has no preprocessor. An annotation macro between a return
//! type and a function name, as in `static CWideStr LIB_API Foo(...)`, derails
//! its parse: the macro is taken for a member name and error recovery splits or
//! mangles the declaration.
//!
//! The remedy is to blank such macros, that is to replace their bytes with ASCII
//! spaces, before parsing. Blanking preserves length, so every byte offset in the
//! resulting tree still indexes the file itself, and the macro text remains visible
//! in what is sliced from it.
//!
//! Only confirmed macros are blanked:
//!  * `global` names, given by the user, at every occurrence;
//!  * `annotation` names, harvested from `#define` directives, only in the
//!    annotation slot `TYPE MACRO NAME (`. A value macro such as `#define PI 3.14`
//!    never stands in that slot, so it is never touched.
//!
//! An upper-case token in the annotation slot that is not a confirmed macro is
//! left alone; [`unconfirmed_annotations`] reports it.

use crate::ascii::{
    ascii_space, ascii_string, ascii_text, digit_byte, ident_continue, ident_start,
    is_ascii_space, is_digit_byte, is_ident_continue, is_ident_start, is_upper_byte, upper_byte,
    AMPERSAND, BACKSLASH, COLON, DOUBLE_QUOTE, GREATER, HASH, LOWER_D, LOWER_E, LOWER_F,
    LOWER_I, LOWER_N, NEWLINE, OPEN_PAREN, RETURN, SINGLE_QUOTE, SLASH, SPACE, STAR, TAB,
    UNDERSCORE,
};
use crate::names::NameSet;
use crate::text::{find_byte, next_of, next_of_bounds, occurs_at, opt_view, pieces, views};
use vstd::prelude::*;
use vstd::slice::slice_subrange;

verus! {

// ---------------------------------------------------------------------------
// Lexical grammar
// ---------------------------------------------------------------------------

/// A lexical token of interest. Whitespace, comments, literals and preprocessor
/// lines yield none.
#[derive(Clone, Copy)]
pub enum Tok {
    /// An identifier and the byte range it occupies.
    Ident { start: usize, end: usize, all_caps: bool },
    /// `(`, which opens a parameter list.
    Open,
    /// `*`, `&`, `>` or `::`, which can end a return type.
    TypeIsh,
    /// Any other punctuation or number; only a boundary.
    Other,
}

/// An annotation-like identifier: two or more of `[A-Z0-9_]`, one of them a
/// letter.
pub open spec fn all_caps(name: Seq<u8>) -> bool {
    &&& name.len() >= 2
    &&& exists|i: int| 0 <= i < name.len() && upper_byte(#[trigger] name[i])
    &&& forall|i: int|
        0 <= i < name.len() ==> upper_byte(#[trigger] name[i]) || digit_byte(name[i]) || name[i]
            == UNDERSCORE
}

/// The end of the run of identifier bytes that starts at `i`.
pub open spec fn word_end(src: Seq<u8>, i: int) -> int
    decreases src.len() - i,
{
    if 0 <= i < src.len() && ident_continue(src[i]) {
        word_end(src, i + 1)
    } else {
        i
    }
}

/// The end of the run of ASCII whitespace that starts at `i`.
pub open spec fn space_end(src: Seq<u8>, i: int) -> int
    decreases src.len() - i,
{
    if 0 <= i < src.len() && ascii_space(src[i]) {
        space_end(src, i + 1)
    } else {
        i
    }
}

/// The end of a preprocessor directive from inside it: the first newline that no
/// backslash continues, or the end of the text.
pub open spec fn directive_end(src: Seq<u8>, i: int) -> int
    decreases src.len() - i,
{
    if i < 0 || i >= src.len() {
        src.len() as int
    } else if src[i] == NEWLINE {
        i
    } else if src[i] == BACKSLASH && i + 1 < src.len() && src[i + 1] == NEWLINE {
        directive_end(src, i + 2)
    } else {
        directive_end(src, i + 1)
    }
}

/// The end of a block comment from inside it: past the first `*/`, or the end of
/// the text.
pub open spec fn comment_end(src: Seq<u8>, i: int) -> int
    decreases src.len() - i,
{
    if i < 0 || i + 1 >= src.len() {
        src.len() as int
    } else if src[i] == STAR && src[i + 1] == SLASH {
        i + 2
    } else {
        comment_end(src, i + 1)
    }
}

/// The end of a quoted literal from inside it: past the first closing quote that
/// no backslash escapes; an unterminated literal ends at its newline.
pub open spec fn quoted_end(src: Seq<u8>, i: int, quote: u8) -> int
    decreases src.len() - i,
{
    if i < 0 || i >= src.len() {
        src.len() as int
    } else if src[i] == BACKSLASH {
        if i + 1 < src.len() {
            quoted_end(src, i + 2, quote)
        } else {
            src.len() as int
        }
    } else if src[i] == quote {
        i + 1
    } else if src[i] == NEWLINE {
        i
    } else {
        quoted_end(src, i + 1, quote)
    }
}

/// What the scanner reads at one position.
pub struct Lexeme {
    /// The token, if what was read yields one.
    pub tok: Option<Tok>,
    /// Where the scanner goes on.
    pub next: int,
    /// Whether only whitespace was seen since the last newline.
    pub line_start: bool,
}

/// The lexeme at `i`; a `#` opens a directive only at a line start.
pub open spec fn lexeme(src: Seq<u8>, i: int, line_start: bool) -> Lexeme {
    let b = src[i];
    let after = if i + 1 < src.len() { Some(src[i + 1]) } else { None };
    if b == NEWLINE {
        Lexeme { tok: None, next: i + 1, line_start: true }
    } else if b == SPACE || b == TAB || b == RETURN {
        Lexeme { tok: None, next: i + 1, line_start }
    } else if b == HASH && line_start {
        Lexeme { tok: None, next: directive_end(src, i), line_start }
    } else if b == SLASH && after == Some(SLASH) {
        Lexeme { tok: None, next: next_of(src, NEWLINE, i), line_start }
    } else if b == SLASH && after == Some(STAR) {
        Lexeme { tok: None, next: comment_end(src, i + 2), line_start: false }
    } else if b == DOUBLE_QUOTE || b == SINGLE_QUOTE {
        Lexeme { tok: None, next: quoted_end(src, i + 1, b), line_start: false }
    } else if b == OPEN_PAREN {
        Lexeme { tok: Some(Tok::Open), next: i + 1, line_start: false }
    } else if b == STAR || b == AMPERSAND || b == GREATER {
        Lexeme { tok: Some(Tok::TypeIsh), next: i + 1, line_start: false }
    } else if b == COLON && after == Some(COLON) {
        Lexeme { tok: Some(Tok::TypeIsh), next: i + 2, line_start: false }
    } else if ident_start(b) {
        let end = word_end(src, i);
        let tok = Tok::Ident {
            start: i as usize,
            end: end as usize,
            all_caps: all_caps(src.subrange(i, end)),
        };
        Lexeme { tok: Some(tok), next: end, line_start: false }
    } else {
        Lexeme { tok: Some(Tok::Other), next: i + 1, line_start: false }
    }
}

/// The tokens of `src[i..]`.
pub open spec fn tokens(src: Seq<u8>, i: int, line_start: bool) -> Seq<Tok>
    decreases src.len() - i,
    when 0 <= i
    via tokens_decreases
{
    if i >= src.len() {
        Seq::empty()
    } else {
        let x = lexeme(src, i, line_start);
        let rest = tokens(src, x.next, x.line_start);
        match x.tok {
            Some(t) => seq![t] + rest,
            None => rest,
        }
    }
}

#[via_fn]
proof fn tokens_decreases(src: Seq<u8>, i: int, line_start: bool) {
    if i < src.len() {
        lexeme_advances(src, i, line_start);
    }
}

proof fn word_end_bounds(src: Seq<u8>, i: int)
    requires
        0 <= i <= src.len(),
    ensures
        i <= word_end(src, i) <= src.len(),
        forall|j: int| i <= j < word_end(src, i) ==> ident_continue(#[trigger] src[j]),
        i < src.len() && ident_continue(src[i]) ==> i < word_end(src, i),
    decreases src.len() - i,
{
    if i < src.len() && ident_continue(src[i]) {
        word_end_bounds(src, i + 1);
    }
}

proof fn space_end_bounds(src: Seq<u8>, i: int)
    requires
        0 <= i <= src.len(),
    ensures
        i <= space_end(src, i) <= src.len(),
    decreases src.len() - i,
{
    if i < src.len() && ascii_space(src[i]) {
        space_end_bounds(src, i + 1);
    }
}

proof fn directive_end_bounds(src: Seq<u8>, i: int)
    requires
        0 <= i <= src.len(),
    ensures
        i <= directive_end(src, i) <= src.len(),
        i < src.len() && src[i] != NEWLINE ==> i < directive_end(src, i),
    decreases src.len() - i,
{
    if i < src.len() && src[i] != NEWLINE {
        if src[i] == BACKSLASH && i + 1 < src.len() && src[i + 1] == NEWLINE {
            directive_end_bounds(src, i + 2);
        } else {
            directive_end_bounds(src, i + 1);
        }
    }
}

proof fn comment_end_bounds(src: Seq<u8>, i: int)
    requires
        0 <= i <= src.len(),
    ensures
        i <= comment_end(src, i) <= src.len(),
    decreases src.len() - i,
{
    if i + 1 < src.len() && !(src[i] == STAR && src[i + 1] == SLASH) {
        comment_end_bounds(src, i + 1);
    }
}

proof fn quoted_end_bounds(src: Seq<u8>, i: int, quote: u8)
    requires
        0 <= i <= src.len(),
    ensures
        i <= quoted_end(src, i, quote) <= src.len(),
    decreases src.len() - i,
{
    if i < src.len() {
        if src[i] == BACKSLASH {
            if i + 2 <= src.len() {
                quoted_end_bounds(src, i + 2, quote);
            }
        } else if src[i] != quote && src[i] != NEWLINE {
            quoted_end_bounds(src, i + 1, quote);
        }
    }
}

/// The scanner always moves forward and stays in the text, and an identifier
/// token covers identifier bytes that lie between the two positions.
proof fn lexeme_advances(src: Seq<u8>, i: int, line_start: bool)
    requires
        0 <= i < src.len(),
    ensures
        ({
            let x = lexeme(src, i, line_start);
            &&& i < x.next <= src.len()
            &&& src.len() <= usize::MAX ==> match x.tok {
                Some(Tok::Ident { start, end, .. }) => {
                    &&& start == i && end == x.next
                    &&& ident_start(src[i])
                    &&& forall|j: int| i <= j < end ==> ident_continue(#[trigger] src[j])
                },
                _ => true,
            }
        }),
{
    word_end_bounds(src, i);
    directive_end_bounds(src, i);
    next_of_bounds(src, NEWLINE, i);
    if i + 2 <= src.len() {
        comment_end_bounds(src, i + 2);
    }
    quoted_end_bounds(src, i + 1, src[i]);
}

/// Every identifier token lies in the text and covers identifier bytes only.
pub proof fn identifiers_lie_in_text(src: Seq<u8>, i: int, line_start: bool)
    requires
        0 <= i,
        src.len() <= usize::MAX,
    ensures
        forall|k: int|
            0 <= k < tokens(src, i, line_start).len() ==> token_in_text(
                src,
                #[trigger] tokens(src, i, line_start)[k],
            ),
    decreases src.len() - i,
{
    if i < src.len() {
        lexeme_advances(src, i, line_start);
        let x = lexeme(src, i, line_start);
        identifiers_lie_in_text(src, x.next, x.line_start);
        let all = tokens(src, i, line_start);
        let rest = tokens(src, x.next, x.line_start);
        assert forall|k: int| 0 <= k < all.len() implies token_in_text(src, #[trigger] all[k]) by {
            if x.tok is Some {
                if k > 0 {
                    assert(all[k] == rest[k - 1]);
                }
            } else {
                assert(all[k] == rest[k]);
            }
        }
    }
}

/// Does an identifier token lie in the text, on identifier bytes only?
pub open spec fn token_in_text(src: Seq<u8>, t: Tok) -> bool {
    match t {
        Tok::Ident { start, end, .. } => {
            &&& start < end <= src.len()
            &&& forall|j: int| start <= j < end ==> ident_continue(#[trigger] src[j])
        },
        _ => true,
    }
}

// ---------------------------------------------------------------------------
// Scanner
// ---------------------------------------------------------------------------

fn word_end_at(src: &[u8], from: usize) -> (r: usize)
    requires
        from <= src@.len(),
    ensures
        r == word_end(src@, from as int),
        from <= r <= src@.len(),
{
    let mut i: usize = from;
    while i < src.len() && is_ident_continue(src[i])
        invariant
            from <= i <= src@.len(),
            word_end(src@, i as int) == word_end(src@, from as int),
        decreases src@.len() - i,
    {
        i += 1;
    }
    i
}

fn space_end_at(src: &[u8], from: usize) -> (r: usize)
    requires
        from <= src@.len(),
    ensures
        r == space_end(src@, from as int),
        from <= r <= src@.len(),
{
    let mut i: usize = from;
    while i < src.len() && is_ascii_space(src[i])
        invariant
            from <= i <= src@.len(),
            space_end(src@, i as int) == space_end(src@, from as int),
        decreases src@.len() - i,
    {
        i += 1;
    }
    i
}

/// Skips a preprocessor line from the `#` at `from`, following its
/// backslash-newline continuations. The newline that ends it is left.
fn skip_pp_line(src: &[u8], from: usize) -> (r: usize)
    requires
        from <= src@.len(),
    ensures
        r == directive_end(src@, from as int),
        r <= src@.len(),
{
    let n = src.len();
    let mut i: usize = from;
    while i < n
        invariant
            i <= n,
            n == src@.len(),
            directive_end(src@, i as int) == directive_end(src@, from as int),
        decreases n - i,
    {
        if src[i] == NEWLINE {
            return i;
        }
        if src[i] == BACKSLASH && i + 1 < n && src[i + 1] == NEWLINE {
            i += 2;
        } else {
            i += 1;
        }
    }
    i
}

/// Skips a block comment from its inside at `from`.
fn skip_comment(src: &[u8], from: usize) -> (r: usize)
    requires
        from <= src@.len(),
    ensures
        r == comment_end(src@, from as int),
        r <= src@.len(),
{
    let n = src.len();
    let mut i: usize = from;
    while i < n && i + 1 < n
        invariant
            i <= n,
            n == src@.len(),
            comment_end(src@, i as int) == comment_end(src@, from as int),
        decreases n - i,
    {
        if src[i] == STAR && src[i + 1] == SLASH {
            return i + 2;
        }
        i += 1;
    }
    n
}

/// Skips a literal delimited by `quote` from its inside at `from`, honoring
/// backslash escapes.
fn skip_quoted(src: &[u8], from: usize, quote: u8) -> (r: usize)
    requires
        from <= src@.len(),
    ensures
        r == quoted_end(src@, from as int, quote),
        r <= src@.len(),
{
    let n = src.len();
    let mut i: usize = from;
    while i < n
        invariant
            i <= n,
            n == src@.len(),
            quoted_end(src@, i as int, quote) == quoted_end(src@, from as int, quote),
        decreases n - i,
    {
        if src[i] == BACKSLASH {
            if i + 1 >= n {
                return n;
            }
            i += 2;
        } else if src[i] == quote {
            return i + 1;
        } else if src[i] == NEWLINE {
            return i;
        } else {
            i += 1;
        }
    }
    n
}

fn is_all_caps(src: &[u8], from: usize, to: usize) -> (r: bool)
    requires
        from <= to <= src@.len(),
    ensures
        r == all_caps(src@.subrange(from as int, to as int)),
{
    let ghost name = src@.subrange(from as int, to as int);
    let mut any_upper = false;
    let mut i: usize = from;
    while i < to
        invariant
            from <= i <= to <= src@.len(),
            name == src@.subrange(from as int, to as int),
            any_upper == exists|k: int| 0 <= k < i - from && upper_byte(#[trigger] name[k]),
            forall|k: int|
                0 <= k < i - from ==> upper_byte(#[trigger] name[k]) || digit_byte(name[k])
                    || name[k] == UNDERSCORE,
        decreases to - i,
    {
        let b = src[i];
        assert(b == name[i - from]);
        if is_upper_byte(b) {
            any_upper = true;
        } else if !is_digit_byte(b) && b != UNDERSCORE {
            return false;
        }
        i += 1;
    }
    to - from >= 2 && any_upper
}

/// Scans `src` into tokens.
fn scan(src: &[u8]) -> (toks: Vec<Tok>)
    ensures
        toks@ == tokens(src@, 0, true),
        src@.len() <= usize::MAX,
{
    let mut toks: Vec<Tok> = Vec::new();
    let n = src.len();
    let mut i: usize = 0;
    let mut line_start = true;
    assert(toks@ + tokens(src@, 0, true) =~= tokens(src@, 0, true));
    while i < n
        invariant
            i <= n,
            n == src@.len(),
            toks@ + tokens(src@, i as int, line_start) == tokens(src@, 0, true),
        decreases n - i,
    {
        let ghost x = lexeme(src@, i as int, line_start);
        let ghost done = toks@;
        let ghost rest = tokens(src@, i as int, line_start);
        proof {
            lexeme_advances(src@, i as int, line_start);
        }
        let b = src[i];
        let after: Option<u8> = if i + 1 < n { Some(src[i + 1]) } else { None };
        if b == NEWLINE {
            line_start = true;
            i += 1;
        } else if b == SPACE || b == TAB || b == RETURN {
            i += 1;
        } else if b == HASH && line_start {
            i = skip_pp_line(src, i);
        } else if b == SLASH && after == Some(SLASH) {
            i = find_byte(src, NEWLINE, i);
        } else if b == SLASH && after == Some(STAR) {
            i = skip_comment(src, i + 2);
            line_start = false;
        } else if b == DOUBLE_QUOTE || b == SINGLE_QUOTE {
            i = skip_quoted(src, i + 1, b);
            line_start = false;
        } else if b == OPEN_PAREN {
            toks.push(Tok::Open);
            i += 1;
            line_start = false;
        } else if b == STAR || b == AMPERSAND || b == GREATER {
            toks.push(Tok::TypeIsh);
            i += 1;
            line_start = false;
        } else if b == COLON && after == Some(COLON) {
            toks.push(Tok::TypeIsh);
            i += 2;
            line_start = false;
        } else if is_ident_start(b) {
            let end = word_end_at(src, i);
            toks.push(Tok::Ident { start: i, end, all_caps: is_all_caps(src, i, end) });
            i = end;
            line_start = false;
        } else {
            toks.push(Tok::Other);
            i += 1;
            line_start = false;
        }
        assert(i == x.next && line_start == x.line_start);
        assert(toks@ + tokens(src@, i as int, line_start) =~= done + rest);
    }
    assert(toks@ + tokens(src@, n as int, line_start) =~= toks@);
    toks
}

// ---------------------------------------------------------------------------
// Macro names
// ---------------------------------------------------------------------------

/// The text of an identifier token.
pub open spec fn token_name(src: Seq<u8>, t: Tok) -> Seq<char> {
    ascii_text(src.subrange(t->Ident_start as int, t->Ident_end as int))
}

/// Can the token before `k` end a return type, so that token `k` is not the
/// return type itself but an annotation after it?
pub open spec fn after_type(toks: Seq<Tok>, k: int) -> bool {
    k > 0 && (toks[k - 1] is Ident || toks[k - 1] is TypeIsh)
}

/// Are the two tokens after `k` a name and the opening of its parameter list?
pub open spec fn before_name(toks: Seq<Tok>, k: int) -> bool {
    k + 2 < toks.len() && toks[k + 1] is Ident && toks[k + 2] is Open
}

/// Does token `k` stand in the annotation slot `TYPE MACRO NAME (`?
pub open spec fn in_slot(toks: Seq<Tok>, k: int) -> bool {
    after_type(toks, k) && before_name(toks, k)
}

/// Is token `k` a confirmed macro where it is to be blanked?
pub open spec fn to_blank(
    src: Seq<u8>,
    toks: Seq<Tok>,
    k: int,
    global: Set<Seq<char>>,
    annotation: Set<Seq<char>>,
) -> bool {
    &&& 0 <= k < toks.len()
    &&& toks[k] is Ident
    &&& global.contains(token_name(src, toks[k])) || (annotation.contains(
        token_name(src, toks[k]),
    ) && in_slot(toks, k))
}

/// Does token `k` cover byte `p`?
pub open spec fn covers(t: Tok, p: int) -> bool {
    t is Ident && t->Ident_start <= p < t->Ident_end
}

/// Is byte `p` of `src` part of a macro that is to be blanked?
pub open spec fn blanked(
    src: Seq<u8>,
    p: int,
    global: Set<Seq<char>>,
    annotation: Set<Seq<char>>,
) -> bool {
    let toks = tokens(src, 0, true);
    exists|k: int| #[trigger] to_blank(src, toks, k, global, annotation) && covers(toks[k], p)
}

/// `src` with every confirmed macro blanked.
pub open spec fn neutral(
    src: Seq<u8>,
    global: Set<Seq<char>>,
    annotation: Set<Seq<char>>,
) -> Seq<u8> {
    Seq::new(
        src.len(),
        |p: int|
            if blanked(src, p, global, annotation) {
                SPACE
            } else {
                src[p]
            },
    )
}

/// Does `src` hold any macro to be blanked?
pub open spec fn has_macros(
    src: Seq<u8>,
    global: Set<Seq<char>>,
    annotation: Set<Seq<char>>,
) -> bool {
    exists|k: int| #[trigger] to_blank(src, tokens(src, 0, true), k, global, annotation)
}

/// Produces a copy of `src`, of the same length, with confirmed macros blanked,
/// or `None` if there is none to blank.
pub fn neutralize(src: &[u8], global: &NameSet, annotation: &NameSet) -> (r: Option<Vec<u8>>)
    ensures
        r is Some <==> has_macros(src@, global@, annotation@),
        r matches Some(out) ==> out@ == neutral(src@, global@, annotation@),
{
    if global.is_empty() && annotation.is_empty() {
        return None;
    }
    let toks = scan(src);
    proof {
        identifiers_lie_in_text(src@, 0, true);
    }
    let mut out: Vec<u8> = vstd::slice::slice_to_vec(src);
    let mut any = false;
    let mut k: usize = 0;
    while k < toks.len()
        invariant
            k <= toks@.len(),
            toks@ == tokens(src@, 0, true),
            forall|j: int| 0 <= j < toks@.len() ==> token_in_text(src@, #[trigger] toks@[j]),
            out@.len() == src@.len(),
            forall|j: int| #[trigger]
                to_blank(src@, toks@, j, global@, annotation@) && j < k ==> any,
            any ==> has_macros(src@, global@, annotation@),
            forall|p: int|
                0 <= p < src@.len() ==> #[trigger] out@[p] == (if exists|j: int|
                    j < k && #[trigger] to_blank(src@, toks@, j, global@, annotation@) && covers(
                        toks@[j],
                        p,
                    ) {
                    SPACE
                } else {
                    src@[p]
                }),
        decreases toks@.len() - k,
    {
        let ghost before = out@;
        let blank = is_to_blank(src, &toks, k, global, annotation);
        if blank {
            assert(to_blank(src@, toks@, k as int, global@, annotation@));
            any = true;
            if let Tok::Ident { start, end, .. } = toks[k] {
                blank_range(&mut out, start, end);
            }
        }
        k += 1;
        assert forall|p: int| 0 <= p < src@.len() implies #[trigger] out@[p] == (if exists|j: int|
            j < k && #[trigger] to_blank(src@, toks@, j, global@, annotation@) && covers(
                toks@[j],
                p,
            ) {
            SPACE
        } else {
            src@[p]
        }) by {
            if blank && covers(toks@[k - 1], p) {
                assert(to_blank(src@, toks@, k - 1, global@, annotation@));
            }
        }
    }
    if any {
        assert(out@ =~= neutral(src@, global@, annotation@));
        Some(out)
    } else {
        None
    }
}

fn is_to_blank(
    src: &[u8],
    toks: &[Tok],
    k: usize,
    global: &NameSet,
    annotation: &NameSet,
) -> (r: bool)
    requires
        k < toks@.len(),
        token_in_text(src@, toks@[k as int]),
    ensures
        r == to_blank(src@, toks@, k as int, global@, annotation@),
{
    match toks[k] {
        Tok::Ident { start, end, .. } => {
            let name = ascii_string(src, start, end);
            global.contains(&name) || (annotation.contains(&name) && prev_is_typeish(toks, k)
                && next_is_ident_open(toks, k))
        },
        _ => false,
    }
}

fn blank_range(out: &mut Vec<u8>, start: usize, end: usize)
    requires
        start <= end <= old(out)@.len(),
    ensures
        final(out)@.len() == old(out)@.len(),
        forall|p: int|
            0 <= p < old(out)@.len() ==> #[trigger] final(out)@[p] == (if start <= p < end {
                SPACE
            } else {
                old(out)@[p]
            }),
{
    let mut i: usize = start;
    while i < end
        invariant
            start <= i <= end <= old(out)@.len(),
            out@.len() == old(out)@.len(),
            forall|p: int|
                0 <= p < old(out)@.len() ==> #[trigger] out@[p] == (if start <= p < i {
                    SPACE
                } else {
                    old(out)@[p]
                }),
        decreases end - i,
    {
        out.set(i, SPACE);
        i += 1;
    }
}

fn prev_is_typeish(toks: &[Tok], k: usize) -> (r: bool)
    requires
        k < toks@.len(),
    ensures
        r == after_type(toks@, k as int),
{
    k > 0 && matches!(toks[k - 1], Tok::Ident { .. } | Tok::TypeIsh)
}

fn next_is_ident_open(toks: &[Tok], k: usize) -> (r: bool)
    requires
        k < toks@.len(),
    ensures
        r == before_name(toks@, k as int),
{
    let n = toks.len();
    n - k > 2 && matches!(toks[k + 1], Tok::Ident { .. }) && matches!(toks[k + 2], Tok::Open)
}

/// Blanking touches identifier bytes only, so newlines, and with them every line
/// and column, stay where they are.
pub proof fn blanking_touches_only_identifiers(
    src: Seq<u8>,
    global: Set<Seq<char>>,
    annotation: Set<Seq<char>>,
)
    requires
        src.len() <= usize::MAX,
    ensures
        neutral(src, global, annotation).len() == src.len(),
        forall|p: int|
            0 <= p < src.len() && !ident_continue(src[p]) ==> #[trigger] neutral(
                src,
                global,
                annotation,
            )[p] == src[p],
        forall|p: int|
            0 <= p < src.len() ==> (#[trigger] neutral(src, global, annotation)[p] == NEWLINE
                <==> src[p] == NEWLINE),
{
    identifiers_lie_in_text(src, 0, true);
    let toks = tokens(src, 0, true);
    assert forall|p: int| 0 <= p < src.len() && blanked(src, p, global, annotation) implies
        ident_continue(#[trigger] src[p]) by {
        let k = choose|k: int| #[trigger]
            to_blank(src, toks, k, global, annotation) && covers(toks[k], p);
        assert(token_in_text(src, toks[k]));
    }
}

/// The upper-case names in the annotation slot among the first `k` tokens that
/// are not in `known`, each once, in the order of their first occurrence.
pub open spec fn unconfirmed(
    src: Seq<u8>,
    toks: Seq<Tok>,
    known: Set<Seq<char>>,
    k: int,
) -> Seq<Seq<char>>
    decreases k,
{
    if k <= 0 {
        Seq::empty()
    } else {
        let before = unconfirmed(src, toks, known, k - 1);
        let t = toks[k - 1];
        if t is Ident && t->Ident_all_caps && in_slot(toks, k - 1) && !known.contains(
            token_name(src, t),
        ) && !before.contains(token_name(src, t)) {
            before.push(token_name(src, t))
        } else {
            before
        }
    }
}

/// What [`unconfirmed_annotations`] reports of a file.
pub open spec fn suspects(src: Seq<u8>, confirmed: Set<Seq<char>>) -> Seq<Seq<char>> {
    let toks = tokens(src, 0, true);
    unconfirmed(src, toks, confirmed.union(defines(src)), toks.len() as int)
}

/// Upper-case tokens in the annotation slot that are not confirmed macros: not in
/// `confirmed` and not `#define`d in this file. Each name once, in first-seen
/// order.
pub fn unconfirmed_annotations(src: &[u8], confirmed: &NameSet) -> (r: Vec<String>)
    ensures
        views(r@) == suspects(src@, confirmed@),
{
    let mut known = confirmed.clone();
    collect_defines(src, &mut known);
    let toks = scan(src);
    proof {
        identifiers_lie_in_text(src@, 0, true);
    }
    let mut out: Vec<String> = Vec::new();
    let mut seen = NameSet::new();
    let mut k: usize = 0;
    assert(views(out@) =~= Seq::empty());
    assert(Seq::<Seq<char>>::empty().to_set() =~= Set::empty());
    while k < toks.len()
        invariant
            k <= toks@.len(),
            toks@ == tokens(src@, 0, true),
            forall|j: int| 0 <= j < toks@.len() ==> token_in_text(src@, #[trigger] toks@[j]),
            views(out@) == unconfirmed(src@, toks@, known@, k as int),
            seen@ == views(out@).to_set(),
        decreases toks@.len() - k,
    {
        if let Tok::Ident { start, end, all_caps: true } = toks[k] {
            if prev_is_typeish(&toks, k) && next_is_ident_open(&toks, k) {
                let name = ascii_string(src, start, end);
                let ghost before = views(out@);
                if !known.contains(&name) && seen.insert(&name) {
                    proof {
                        before.lemma_push_to_set_commute(name@);
                    }
                    out.push(name);
                    assert(views(out@) =~= before.push(token_name(src@, toks@[k as int])));
                } else {
                    assert(known@.contains(name@) || before.contains(name@));
                    assert(seen@ =~= before.to_set());
                }
            }
        }
        k += 1;
    }
    out
}

/// No name is reported twice, and none that is known.
pub proof fn suspects_are_distinct(
    src: Seq<u8>,
    toks: Seq<Tok>,
    known: Set<Seq<char>>,
    k: int,
)
    ensures
        unconfirmed(src, toks, known, k).no_duplicates(),
        forall|i: int|
            0 <= i < unconfirmed(src, toks, known, k).len() ==> !known.contains(
                #[trigger] unconfirmed(src, toks, known, k)[i],
            ),
    decreases k,
{
    if k > 0 {
        suspects_are_distinct(src, toks, known, k - 1);
    }
}

proof fn suspects_stand_in_slots(
    src: Seq<u8>,
    toks: Seq<Tok>,
    known: Set<Seq<char>>,
    k: int,
    x: Seq<char>,
)
    requires
        0 <= k <= toks.len(),
        unconfirmed(src, toks, known, k).contains(x),
    ensures
        exists|j: int|
            0 <= j < k && (#[trigger] toks[j]) is Ident && in_slot(toks, j) && token_name(src, toks[j])
                == x,
    decreases k,
{
    let before = unconfirmed(src, toks, known, k - 1);
    if k > 0 {
        if before.contains(x) {
            suspects_stand_in_slots(src, toks, known, k - 1, x);
        } else {
            assert(toks[k - 1] is Ident && in_slot(toks, k - 1) && token_name(src, toks[k - 1]) == x);
        }
    }
}

/// A name that is reported of a file is worth adopting: once it counts as a macro, at
/// least one occurrence of it in that file is blanked, all its bytes.
pub proof fn adopted_suspects_are_blanked(
    src: Seq<u8>,
    confirmed: Set<Seq<char>>,
    x: Seq<char>,
    global: Set<Seq<char>>,
    annotation: Set<Seq<char>>,
)
    requires
        src.len() <= usize::MAX,
        suspects(src, confirmed).contains(x),
        annotation.contains(x),
    ensures
        has_macros(src, global, annotation),
        exists|start: int, end: int|
            0 <= start < end <= src.len() && x == ascii_text(#[trigger] src.subrange(start, end))
                && forall|p: int|
                start <= p < end ==> (#[trigger] neutral(src, global, annotation)[p]) == SPACE,
{
    let toks = tokens(src, 0, true);
    suspects_stand_in_slots(
        src,
        toks,
        confirmed.union(defines(src)),
        toks.len() as int,
        x,
    );
    let j = choose|j: int|
        0 <= j < toks.len() && (#[trigger] toks[j]) is Ident && in_slot(toks, j) && token_name(
            src,
            toks[j],
        ) == x;
    let start = toks[j]->Ident_start as int;
    let end = toks[j]->Ident_end as int;
    identifiers_lie_in_text(src, 0, true);
    assert(token_in_text(src, toks[j]));
    assert(to_blank(src, toks, j, global, annotation));
    assert forall|p: int| start <= p < end implies (#[trigger] neutral(src, global, annotation)[p])
        == SPACE by {
        assert(covers(toks[j], p));
        assert(blanked(src, p, global, annotation));
    }
    assert(x == ascii_text(src.subrange(start, end)));
}

/// The bytes of the word `define`.
pub open spec fn define_word() -> Seq<u8> {
    seq![LOWER_D, LOWER_E, LOWER_F, LOWER_I, LOWER_N, LOWER_E]
}

/// The macro name that a line defines: `#`, `define`, whitespace, a name, with
/// optional whitespace before the `#` and after it.
pub open spec fn define_name(line: Seq<u8>) -> Option<Seq<char>> {
    let hash = space_end(line, 0);
    let word = space_end(line, hash + 1);
    let name = space_end(line, word + 6);
    let end = word_end(line, name);
    if hash < line.len() && line[hash] == HASH && occurs_at(line, define_word(), word) && word + 6
        < line.len() && ascii_space(line[word + 6]) && name < line.len() && ident_start(
        line[name],
    ) {
        Some(ascii_text(line.subrange(name, end)))
    } else {
        None
    }
}

/// The macro names that the lines of `src` define.
pub open spec fn defines(src: Seq<u8>) -> Set<Seq<char>> {
    defined_by(pieces(src, NEWLINE, 0))
}

pub open spec fn defined_by(lines: Seq<Seq<u8>>) -> Set<Seq<char>> {
    Set::new(
        |x: Seq<char>|
            exists|k: int| 0 <= k < lines.len() && #[trigger] define_name(lines[k]) == Some(x),
    )
}

/// Harvests macro names from the `#define` directives in `src` into `out`.
pub fn collect_defines(src: &[u8], out: &mut NameSet)
    ensures
        final(out)@ == old(out)@.union(defines(src@)),
{
    let n = src.len();
    let mut i: usize = 0;
    loop
        invariant
            i <= n,
            n == src@.len(),
            old(out)@.union(defines(src@)) =~= out@.union(defined_by(pieces(src@, NEWLINE, i as int))),
        decreases n - i,
    {
        let j = find_byte(src, NEWLINE, i);
        let ghost line = src@.subrange(i as int, j as int);
        let ghost before = out@;
        let found = define_name_of(slice_subrange(src, i, j));
        if let Some(name) = &found {
            let _ = out.insert(name);
        }
        if j >= n {
            assert(pieces(src@, NEWLINE, i as int) =~= seq![line]);
            assert(seq![line][0] == line);
            assert(out@ =~= before.union(defined_by(seq![line])));
            assert(out@ =~= old(out)@.union(defines(src@)));
            return ;
        }
        proof {
            let rest = pieces(src@, NEWLINE, j + 1);
            let all = seq![line] + rest;
            assert(pieces(src@, NEWLINE, i as int) == all);
            assert(all[0] == line);
            assert forall|x: Seq<char>| defined_by(all).contains(x) <==> (define_name(line) == Some(
                x,
            ) || defined_by(rest).contains(x)) by {
                if defined_by(rest).contains(x) {
                    let k = choose|k: int| 0 <= k < rest.len() && define_name(rest[k]) == Some(x);
                    assert(all[k + 1] == rest[k]);
                }
                if defined_by(all).contains(x) {
                    let k = choose|k: int| 0 <= k < all.len() && define_name(all[k]) == Some(x);
                    if k > 0 {
                        assert(all[k] == rest[k - 1]);
                    }
                }
            }
        }
        i = j + 1;
    }
}

fn define_name_of(line: &[u8]) -> (r: Option<String>)
    ensures
        opt_view(r) == define_name(line@),
{
    let n = line.len();
    let hash = space_end_at(line, 0);
    if hash >= n || line[hash] != HASH {
        return None;
    }
    let word = space_end_at(line, hash + 1);
    if n - word < 7 || line[word] != LOWER_D || line[word + 1] != LOWER_E || line[word + 2]
        != LOWER_F || line[word + 3] != LOWER_I || line[word + 4] != LOWER_N || line[word + 5]
        != LOWER_E {
        assert(occurs_at(line@, define_word(), word as int) ==> {
            let w = line@.subrange(word as int, word + 6);
            w[0] == LOWER_D && w[1] == LOWER_E && w[2] == LOWER_F && w[3] == LOWER_I && w[4]
                == LOWER_N && w[5] == LOWER_E
        });
        return None;
    }
    assert(line@.subrange(word as int, word + 6) =~= define_word());
    if !is_ascii_space(line[word + 6]) {
        return None;
    }
    let name = space_end_at(line, word + 6);
    if name >= n || !is_ident_start(line[name]) {
        return None;
    }
    let end = word_end_at(line, name);
    Some(ascii_string(line, name, end))
}

} // verus!
