//! Text primitives: the specification vocabulary for strings that the rest of
//! the crate is stated over, and the executable functions that meet it.
//!
//! A string is specified by its sequence of characters. Functions that need
//! random access work on a vector of those characters.

use crate::ascii::NEWLINE;
use vstd::prelude::*;
use vstd::string::*;

verus! {

// ---------------------------------------------------------------------------
// Specification vocabulary
// ---------------------------------------------------------------------------

/// The views of the elements of a sequence.
pub open spec fn views<T: View>(s: Seq<T>) -> Seq<T::V> {
    s.map_values(|t: T| t@)
}

/// The view of an optional value.
pub open spec fn opt_view<T: View>(o: Option<T>) -> Option<T::V> {
    match o {
        Some(t) => Some(t@),
        None => None,
    }
}

/// Does `p` stand in `s` at position `i`?
pub open spec fn occurs_at<T>(s: Seq<T>, p: Seq<T>, i: int) -> bool {
    0 <= i && i + p.len() <= s.len() && s.subrange(i, i + p.len()) == p
}

/// Is `p` a prefix of `s`?
pub open spec fn has_prefix<T>(s: Seq<T>, p: Seq<T>) -> bool {
    occurs_at(s, p, 0)
}

/// Is `p` a suffix of `s`?
pub open spec fn has_suffix<T>(s: Seq<T>, p: Seq<T>) -> bool {
    occurs_at(s, p, s.len() - p.len())
}

/// Does `p` stand anywhere in `s`?
pub open spec fn has_infix<T>(s: Seq<T>, p: Seq<T>) -> bool {
    exists|i: int| occurs_at(s, p, i)
}

/// The digit character of a value below ten.
pub open spec fn digit(d: nat) -> char {
    if d == 0 { '0' } else if d == 1 { '1' } else if d == 2 { '2' } else if d == 3 { '3' }
    else if d == 4 { '4' } else if d == 5 { '5' } else if d == 6 { '6' } else if d == 7 { '7' }
    else if d == 8 { '8' } else { '9' }
}

/// The decimal notation of a number.
pub open spec fn decimal(n: nat) -> Seq<char>
    decreases n,
{
    if n < 10 {
        seq![digit(n)]
    } else {
        decimal(n / 10).push(digit(n % 10))
    }
}

/// `n` copies of `c`.
pub open spec fn repeated(c: char, n: nat) -> Seq<char> {
    Seq::new(n, |i: int| c)
}

/// `s` padded on the left with `c` to at least `width` characters.
pub open spec fn padded(s: Seq<char>, c: char, width: nat) -> Seq<char> {
    if s.len() >= width {
        s
    } else {
        repeated(c, (width - s.len()) as nat) + s
    }
}

/// The first position of `x` in `s` at or after `i`, or the length of `s`.
pub open spec fn next_of<T>(s: Seq<T>, x: T, i: int) -> int
    decreases s.len() - i,
{
    if i < 0 || i >= s.len() {
        s.len() as int
    } else if s[i] == x {
        i
    } else {
        next_of(s, x, i + 1)
    }
}

/// The pieces of `s[i..]` between occurrences of `x`.
pub open spec fn pieces<T>(s: Seq<T>, x: T, i: int) -> Seq<Seq<T>>
    decreases s.len() - i,
{
    let j = next_of(s, x, i);
    if i <= j < s.len() {
        seq![s.subrange(i, j)] + pieces(s, x, j + 1)
    } else {
        seq![s.subrange(i, s.len() as int)]
    }
}

/// `s` without one trailing carriage return.
pub open spec fn without_cr(s: Seq<char>) -> Seq<char> {
    if s.len() > 0 && s.last() == '\r' {
        s.drop_last()
    } else {
        s
    }
}

/// The lines of `s[i..]`: each piece that a newline ends, without the carriage
/// return before that newline, and a last piece when it is not empty.
pub open spec fn lines(s: Seq<char>, i: int) -> Seq<Seq<char>>
    decreases s.len() - i,
{
    let j = next_of(s, '\n', i);
    if i <= j < s.len() {
        seq![without_cr(s.subrange(i, j))] + lines(s, j + 1)
    } else if i < s.len() {
        seq![s.subrange(i, s.len() as int)]
    } else {
        Seq::empty()
    }
}

/// Where `s` goes on past the arrows `->` that stand one after another from `i`.
pub open spec fn after_arrows(s: Seq<char>, i: int) -> int
    decreases s.len() - i,
{
    if 0 <= i && i + 1 < s.len() && s[i] == '-' && s[i + 1] == '>' {
        after_arrows(s, i + 2)
    } else {
        i
    }
}

/// The pieces joined with `sep` between neighbours.
pub open spec fn joined(parts: Seq<Seq<char>>, sep: Seq<char>) -> Seq<char>
    decreases parts.len(),
{
    if parts.len() == 0 {
        Seq::empty()
    } else if parts.len() == 1 {
        parts[0]
    } else {
        joined(parts.drop_last(), sep) + sep + parts.last()
    }
}

/// Does `a[i..]` come before `b[i..]` in the order of character codes, a proper
/// prefix first?
pub open spec fn text_before(a: Seq<char>, b: Seq<char>, i: int) -> bool
    decreases b.len() - i,
{
    if i >= b.len() {
        false
    } else if i >= a.len() {
        true
    } else if a[i] != b[i] {
        (a[i] as u32) < (b[i] as u32)
    } else {
        text_before(a, b, i + 1)
    }
}

/// Has a character the Unicode property `White_Space`?
pub open spec fn whitespace(c: char) -> bool {
    let u = c as u32;
    (0x09 <= u && u <= 0x0d) || u == 0x20 || u == 0x85 || u == 0xa0 || u == 0x1680 || (0x2000 <= u && u
        <= 0x200a) || u == 0x2028 || u == 0x2029 || u == 0x202f || u == 0x205f || u == 0x3000
}

/// The first position at or after `i` that holds no whitespace, or the length.
pub open spec fn after_space(s: Seq<char>, i: int) -> int
    decreases s.len() - i,
{
    if 0 <= i < s.len() && whitespace(s[i]) {
        after_space(s, i + 1)
    } else {
        i
    }
}

/// The last position at or before `e` with no whitespace before it, or zero.
pub open spec fn before_space(s: Seq<char>, e: int) -> int
    decreases e,
{
    if 0 < e <= s.len() && whitespace(s[e - 1]) {
        before_space(s, e - 1)
    } else {
        e
    }
}

/// `s` without leading and trailing whitespace.
pub open spec fn trimmed(s: Seq<char>) -> Seq<char> {
    let a = after_space(s, 0);
    let e = before_space(s, s.len() as int);
    if a < e {
        s.subrange(a, e)
    } else {
        Seq::empty()
    }
}

/// Where the last component of `s[..e]` starts: past its last `::`, or at zero.
pub open spec fn component_start(s: Seq<char>, e: int) -> int
    decreases e,
{
    if e < 2 {
        0
    } else if s[e - 2] == ':' && s[e - 1] == ':' {
        e
    } else {
        component_start(s, e - 1)
    }
}

/// The last `::`-separated component of a name.
pub open spec fn last_component(s: Seq<char>) -> Seq<char> {
    s.skip(component_start(s, s.len() as int))
}

/// Is every character an ASCII one?
pub open spec fn all_ascii(s: Seq<char>) -> bool {
    forall|i: int| 0 <= i < s.len() ==> (#[trigger] s[i]) as u32 <= 0x7f
}

/// The lower-case form of an ASCII character.
pub open spec fn ascii_lower(c: char) -> char {
    if 'A' <= c && c <= 'Z' {
        ((c as u32 + 32) as u8) as char
    } else {
        c
    }
}

/// The lower-case form of a string.
pub open spec fn lowercase(s: Seq<char>) -> Seq<char> {
    if all_ascii(s) {
        s.map_values(|c: char| ascii_lower(c))
    } else {
        unicode_lowercase(s)
    }
}

/// The text of bytes: decoded where they are valid UTF-8, else repaired.
pub open spec fn lossy(bytes: Seq<u8>) -> Seq<char> {
    if vstd::utf8::valid_utf8(bytes) {
        vstd::utf8::decode_utf8(bytes)
    } else {
        repaired(bytes)
    }
}

// ---------------------------------------------------------------------------
// Outside facts
// ---------------------------------------------------------------------------

/// `String::push` appends one character.
pub assume_specification[ String::push ](s: &mut String, c: char)
    ensures
        final(s)@ == old(s)@.push(c),
;

/// The lower-case form of a string with characters beyond ASCII, under the Unicode
/// case mappings.
pub uninterp spec fn unicode_lowercase(s: Seq<char>) -> Seq<char>;

/// Wraps `str::to_lowercase`: in a string of ASCII characters the letters `A` to `Z`
/// become `a` to `z`, one for one; for any other string the result depends on the
/// string alone.
#[verifier::external_body]
pub(crate) fn to_lowercase(s: &str) -> (r: String)
    ensures
        all_ascii(s@) ==> r@ == s@.map_values(|c: char| ascii_lower(c)),
        !all_ascii(s@) ==> r@ == unicode_lowercase(s@),
{
    s.to_lowercase()
}

/// What `String::from_utf8_lossy` makes of bytes that are not valid UTF-8.
pub uninterp spec fn repaired(bytes: Seq<u8>) -> Seq<char>;

/// Wraps `String::from_utf8_lossy`: valid UTF-8 is decoded as it stands; for any
/// other bytes the result depends on the bytes alone.
#[verifier::external_body]
pub(crate) fn from_utf8_lossy(bytes: &[u8]) -> (r: String)
    ensures
        vstd::utf8::valid_utf8(bytes@) ==> r@ == vstd::utf8::decode_utf8(bytes@),
        !vstd::utf8::valid_utf8(bytes@) ==> r@ == repaired(bytes@),
{
    String::from_utf8_lossy(bytes).into_owned()
}

/// Wraps `std::str::from_utf8`, which decodes valid UTF-8 and rejects anything
/// else.
#[verifier::external_body]
pub(crate) fn from_utf8(bytes: &[u8]) -> (r: Option<String>)
    ensures
        r is Some <==> vstd::utf8::valid_utf8(bytes@),
        r matches Some(s) ==> s@ == vstd::utf8::decode_utf8(bytes@),
{
    std::str::from_utf8(bytes).ok().map(|s| s.to_string())
}

// ---------------------------------------------------------------------------
// Executable functions
// ---------------------------------------------------------------------------

/// Has a character the Unicode property `White_Space`?
pub fn is_whitespace(c: char) -> (r: bool)
    ensures
        r == whitespace(c),
{
    let u: u32 = c as u32;
    (0x09 <= u && u <= 0x0d) || u == 0x20 || u == 0x85 || u == 0xa0 || u == 0x1680 || (0x2000 <= u && u
        <= 0x200a) || u == 0x2028 || u == 0x2029 || u == 0x202f || u == 0x205f || u == 0x3000
}

/// The characters of a string.
pub fn chars_of(s: &str) -> (r: Vec<char>)
    ensures
        r@ == s@,
{
    let mut out: Vec<char> = Vec::new();
    for c in it: s.chars()
        invariant
            out@ == it.seq().take(it.index()),
            it.seq() == s@,
    {
        out.push(c);
    }
    out
}

/// Have two strings the same characters?
pub fn same_str(a: &str, b: &str) -> (r: bool)
    ensures
        r == (a@ == b@),
{
    let x = a.as_bytes();
    let y = b.as_bytes();
    if x.len() != y.len() {
        return false;
    }
    let mut i: usize = 0;
    while i < x.len()
        invariant
            i <= x@.len(),
            x@.len() == y@.len(),
            x@ == vstd::utf8::encode_utf8(a@),
            y@ == vstd::utf8::encode_utf8(b@),
            forall|j: int| 0 <= j < i ==> x@[j] == y@[j],
        decreases x@.len() - i,
    {
        if x[i] != y[i] {
            return false;
        }
        i += 1;
    }
    proof {
        assert(x@ =~= y@);
        vstd::utf8::encode_utf8_decode_utf8(a@);
        vstd::utf8::encode_utf8_decode_utf8(b@);
    }
    true
}

/// The number of bytes of a text in UTF-8.
pub open spec fn utf8_len(s: Seq<char>) -> int {
    vstd::utf8::encode_utf8(s).len() as int
}

/// The number of bytes of a string.
pub fn byte_len(s: &str) -> (r: usize)
    ensures
        r == utf8_len(s@),
{
    s.as_bytes().len()
}

/// Is `s` the empty string?
pub fn is_empty(s: &str) -> (r: bool)
    ensures
        r == (s@.len() == 0),
{
    s.is_empty()
}

/// The string of the characters `v[from..to]`.
pub fn substring_of(v: &[char], from: usize, to: usize) -> (r: String)
    requires
        from <= to <= v@.len(),
    ensures
        r@ == v@.subrange(from as int, to as int),
{
    let mut out = String::new();
    let mut i: usize = from;
    while i < to
        invariant
            from <= i <= to <= v@.len(),
            out@ == v@.subrange(from as int, i as int),
        decreases to - i,
    {
        out.push(v[i]);
        i += 1;
        assert(v@.subrange(from as int, i as int) == v@.subrange(from as int, i - 1).push(
            v@[i - 1],
        ));
    }
    out
}

/// Does `p` stand in `s` at position `i`?
pub fn chars_occur_at(s: &[char], p: &[char], i: usize) -> (r: bool)
    ensures
        r == occurs_at(s@, p@, i as int),
{
    if p.len() > s.len() || i > s.len() - p.len() {
        return false;
    }
    let mut k: usize = 0;
    while k < p.len()
        invariant
            k <= p@.len(),
            i + p@.len() <= s@.len() <= usize::MAX,
            forall|j: int| 0 <= j < k ==> s@[i + j] == p@[j],
        decreases p@.len() - k,
    {
        if s[i + k] != p[k] {
            assert(s@.subrange(i as int, i + p@.len())[k as int] != p@[k as int]);
            return false;
        }
        k += 1;
    }
    assert(s@.subrange(i as int, i + p@.len()) == p@);
    true
}

/// Does `s` start with `p`?
pub fn starts_with(s: &str, p: &str) -> (r: bool)
    ensures
        r == has_prefix(s@, p@),
{
    chars_occur_at(&chars_of(s), &chars_of(p), 0)
}

/// Does `s` end with `p`?
pub fn ends_with(s: &str, p: &str) -> (r: bool)
    ensures
        r == has_suffix(s@, p@),
{
    let sc = chars_of(s);
    let pc = chars_of(p);
    if pc.len() > sc.len() {
        return false;
    }
    chars_occur_at(&sc, &pc, sc.len() - pc.len())
}

/// Does `p` stand anywhere in `s`?
pub fn contains(s: &str, p: &str) -> (r: bool)
    ensures
        r == has_infix(s@, p@),
{
    let sc = chars_of(s);
    let pc = chars_of(p);
    if pc.len() > sc.len() {
        return false;
    }
    let last = sc.len() - pc.len();
    let mut i: usize = 0;
    loop
        invariant
            sc@ == s@,
            pc@ == p@,
            last == sc@.len() - pc@.len(),
            i <= last,
            forall|j: int| 0 <= j < i ==> !occurs_at(s@, p@, j),
        decreases last - i,
    {
        if chars_occur_at(&sc, &pc, i) {
            assert(occurs_at(s@, p@, i as int));
            return true;
        }
        if i == last {
            return false;
        }
        i += 1;
    }
}

/// The position that [`next_of`] gives lies at or after `i`, holds `x` unless it
/// is the end, and no earlier one holds it.
pub proof fn next_of_bounds<T>(s: Seq<T>, x: T, i: int)
    requires
        0 <= i <= s.len(),
    ensures
        i <= next_of(s, x, i) <= s.len(),
        next_of(s, x, i) < s.len() ==> s[next_of(s, x, i)] == x,
        forall|j: int| i <= j < next_of(s, x, i) ==> s[j] != x,
    decreases s.len() - i,
{
    if i < s.len() && s[i] != x {
        next_of_bounds(s, x, i + 1);
    }
}

/// The first position of `x` in `s` at or after `from`, or the length of `s`.
pub fn find_char(s: &[char], x: char, from: usize) -> (r: usize)
    requires
        from <= s@.len(),
    ensures
        r == next_of(s@, x, from as int),
        from <= r <= s@.len(),
        r < s@.len() ==> s@[r as int] == x,
        forall|j: int| from <= j < r ==> s@[j] != x,
{
    let mut i: usize = from;
    while i < s.len() && s[i] != x
        invariant
            from <= i <= s@.len(),
            next_of(s@, x, i as int) == next_of(s@, x, from as int),
        decreases s@.len() - i,
    {
        i += 1;
    }
    proof {
        next_of_bounds(s@, x, from as int);
    }
    i
}

/// The first position of `x` in `s` at or after `from`, or the length of `s`.
pub fn find_byte(s: &[u8], x: u8, from: usize) -> (r: usize)
    requires
        from <= s@.len(),
    ensures
        r == next_of(s@, x, from as int),
        from <= r <= s@.len(),
        r < s@.len() ==> s@[r as int] == x,
        forall|j: int| from <= j < r ==> s@[j] != x,
{
    let mut i: usize = from;
    while i < s.len() && s[i] != x
        invariant
            from <= i <= s@.len(),
            next_of(s@, x, i as int) == next_of(s@, x, from as int),
        decreases s@.len() - i,
    {
        i += 1;
    }
    proof {
        next_of_bounds(s@, x, from as int);
    }
    i
}

/// The pieces of `s` between occurrences of `x`.
pub fn split(s: &str, x: char) -> (r: Vec<String>)
    ensures
        views(r@) == pieces(s@, x, 0),
{
    let c = chars_of(s);
    let mut out: Vec<String> = Vec::new();
    let mut i: usize = 0;
    assert(views(out@) + pieces(s@, x, 0) =~= pieces(s@, x, 0));
    loop
        invariant
            c@ == s@,
            i <= c@.len(),
            views(out@) + pieces(c@, x, i as int) == pieces(s@, x, 0),
        decreases c@.len() - i,
    {
        let j = find_char(&c, x, i);
        let ghost before = views(out@);
        out.push(substring_of(&c, i, j));
        assert(views(out@) =~= before.push(c@.subrange(i as int, j as int)));
        if j >= c.len() {
            assert(views(out@) =~= before + pieces(c@, x, i as int));
            return out;
        }
        assert(views(out@) + pieces(c@, x, j + 1) =~= before + pieces(c@, x, i as int));
        i = j + 1;
    }
}

/// The lines of `s`.
pub fn lines_of(s: &str) -> (r: Vec<String>)
    ensures
        views(r@) == lines(s@, 0),
{
    let c = chars_of(s);
    let mut out: Vec<String> = Vec::new();
    let mut i: usize = 0;
    assert(views(out@) + lines(s@, 0) =~= lines(s@, 0));
    while i < c.len()
        invariant
            c@ == s@,
            i <= c@.len(),
            views(out@) + lines(c@, i as int) == lines(s@, 0),
        decreases c@.len() - i,
    {
        let j = find_char(&c, '\n', i);
        let ghost before = views(out@);
        let ghost piece = c@.subrange(i as int, j as int);
        if j >= c.len() {
            out.push(substring_of(&c, i, j));
            assert(views(out@) =~= before.push(piece));
            assert(views(out@) =~= before + lines(c@, i as int));
            return out;
        }
        let end = if j > i && c[j - 1] == '\r' {
            assert(piece.last() == '\r');
            assert(piece.drop_last() =~= c@.subrange(i as int, j - 1));
            j - 1
        } else {
            j
        };
        out.push(substring_of(&c, i, end));
        assert(views(out@) =~= before.push(without_cr(piece)));
        assert(views(out@) + lines(c@, j + 1) =~= before + lines(c@, i as int));
        i = j + 1;
    }
    assert(views(out@) + lines(c@, i as int) =~= views(out@));
    out
}

/// The decimal notation of `n`.
pub fn decimal_of(n: usize) -> (r: String)
    ensures
        r@ == decimal(n as nat),
{
    decimal_of_wide(n as u128)
}

/// The decimal notation of `n`.
pub fn decimal_of_wide(n: u128) -> (r: String)
    ensures
        r@ == decimal(n as nat),
    decreases n,
{
    if n < 10 {
        let mut s = String::new();
        s.push(digit_of(n));
        assert(s@ =~= decimal(n as nat));
        s
    } else {
        let mut s = decimal_of_wide(n / 10);
        s.push(digit_of(n % 10));
        s
    }
}

fn digit_of(d: u128) -> (c: char)
    requires
        d < 10,
    ensures
        c == digit(d as nat),
{
    if d == 0 { '0' } else if d == 1 { '1' } else if d == 2 { '2' } else if d == 3 { '3' }
    else if d == 4 { '4' } else if d == 5 { '5' } else if d == 6 { '6' } else if d == 7 { '7' }
    else if d == 8 { '8' } else { '9' }
}

/// `n` copies of `c`.
pub fn repeat_char(c: char, n: usize) -> (r: String)
    ensures
        r@ == repeated(c, n as nat),
{
    let mut out = String::new();
    for i in 0..n
        invariant
            out@ == repeated(c, i as nat),
    {
        out.push(c);
        assert(out@ =~= repeated(c, (i + 1) as nat));
    }
    out
}

/// `s` padded on the left with `c` to at least `width` characters.
pub fn pad_left(s: &str, c: char, width: usize) -> (r: String)
    ensures
        r@ == padded(s@, c, width as nat),
{
    let n = chars_of(s).len();
    if n >= width {
        s.to_owned()
    } else {
        let mut out = repeat_char(c, width - n);
        out.append(s);
        out
    }
}

/// `s` without its leading arrows `->`.
pub fn trim_arrows(s: &str) -> (r: String)
    ensures
        r@ == s@.skip(after_arrows(s@, 0)),
{
    let c = chars_of(s);
    let mut i: usize = 0;
    while c.len() - i > 1 && c[i] == '-' && c[i + 1] == '>'
        invariant
            i <= c@.len(),
            after_arrows(c@, i as int) == after_arrows(c@, 0),
        decreases c@.len() - i,
    {
        i += 2;
    }
    assert(c@.subrange(i as int, c@.len() as int) =~= c@.skip(i as int));
    substring_of(&c, i, c.len())
}

/// `s` without leading and trailing whitespace.
pub fn trim(s: &str) -> (r: String)
    ensures
        r@ == trimmed(s@),
{
    let c = chars_of(s);
    let a = after_space_at(&c, 0);
    let e = before_space_at(&c);
    if a < e {
        substring_of(&c, a, e)
    } else {
        let r = String::new();
        assert(r@ =~= Seq::empty());
        r
    }
}

pub(crate) fn after_space_at(c: &[char], from: usize) -> (r: usize)
    requires
        from <= c@.len(),
    ensures
        r == after_space(c@, from as int),
        from <= r <= c@.len(),
{
    let mut i: usize = from;
    while i < c.len() && is_whitespace(c[i])
        invariant
            from <= i <= c@.len(),
            after_space(c@, i as int) == after_space(c@, from as int),
        decreases c@.len() - i,
    {
        i += 1;
    }
    i
}

pub(crate) fn before_space_at(c: &[char]) -> (r: usize)
    ensures
        r == before_space(c@, c@.len() as int),
        r <= c@.len(),
{
    let mut e: usize = c.len();
    while e > 0 && is_whitespace(c[e - 1])
        invariant
            e <= c@.len(),
            before_space(c@, e as int) == before_space(c@, c@.len() as int),
        decreases e,
    {
        e -= 1;
    }
    e
}

/// The last `::`-separated component of a name.
pub fn last_component_of(s: &str) -> (r: String)
    ensures
        r@ == last_component(s@),
{
    let c = chars_of(s);
    let mut e: usize = c.len();
    while e >= 2 && !(c[e - 2] == ':' && c[e - 1] == ':')
        invariant
            e <= c@.len(),
            component_start(c@, e as int) == component_start(c@, c@.len() as int),
        decreases e,
    {
        e -= 1;
    }
    let start = if e < 2 { 0 } else { e };
    assert(c@.subrange(start as int, c@.len() as int) =~= c@.skip(start as int));
    substring_of(&c, start, c.len())
}

/// The parts joined with `sep` between neighbours.
pub fn join(parts: &[String], sep: &str) -> (r: String)
    ensures
        r@ == joined(views(parts@), sep@),
{
    let mut out = String::new();
    let mut i: usize = 0;
    assert(out@ =~= Seq::empty());
    while i < parts.len()
        invariant
            i <= parts@.len(),
            out@ == joined(views(parts@).take(i as int), sep@),
        decreases parts@.len() - i,
    {
        if i > 0 {
            out.append(sep);
        }
        out.append(&parts[i]);
        i += 1;
        proof {
            let head = views(parts@).take(i as int);
            assert(head.drop_last() =~= views(parts@).take(i - 1));
            if i == 1 {
                assert(out@ =~= parts@[0]@);
            }
        }
    }
    assert(views(parts@).take(i as int) =~= views(parts@));
    out
}

/// The concatenation of `a` and `b`.
pub fn concat(a: &str, b: &str) -> (r: String)
    ensures
        r@ == a@ + b@,
{
    let mut out = a.to_owned();
    out.append(b);
    out
}

/// The concatenation of `a`, `b` and `c`.
pub fn concat3(a: &str, b: &str, c: &str) -> (r: String)
    ensures
        r@ == a@ + b@ + c@,
{
    let mut out = a.to_owned();
    out.append(b);
    out.append(c);
    out
}

/// A copy of an optional string.
pub fn clone_opt(s: &Option<String>) -> (r: Option<String>)
    ensures
        opt_view(r) == opt_view(*s),
{
    match s {
        Some(t) => Some(t.clone()),
        None => None,
    }
}

/// Does `a` come before `b` in the order of character codes?
pub fn comes_before(a: &str, b: &str) -> (r: bool)
    ensures
        r == text_before(a@, b@, 0),
{
    let x = chars_of(a);
    let y = chars_of(b);
    let mut i: usize = 0;
    while i < y.len() && i < x.len() && x[i] == y[i]
        invariant
            x@ == a@,
            y@ == b@,
            i <= x@.len(),
            i <= y@.len(),
            text_before(x@, y@, i as int) == text_before(x@, y@, 0),
        decreases y@.len() - i,
    {
        i += 1;
    }
    if i >= y.len() {
        false
    } else if i >= x.len() {
        true
    } else {
        (x[i] as u32) < (y[i] as u32)
    }
}

proof fn char_codes_differ(a: char, b: char)
    requires
        a != b,
    ensures
        a as u32 != b as u32,
{
}

/// The order of texts is asymmetric.
pub proof fn text_before_asymmetric(a: Seq<char>, b: Seq<char>, i: int)
    requires
        0 <= i,
        text_before(a, b, i),
    ensures
        !text_before(b, a, i),
    decreases b.len() - i,
{
    if i < b.len() && i < a.len() && a[i] == b[i] {
        text_before_asymmetric(a, b, i + 1);
    }
}

/// The order of texts is transitive.
pub proof fn text_before_transitive(a: Seq<char>, b: Seq<char>, c: Seq<char>, i: int)
    requires
        0 <= i,
        text_before(a, b, i),
        text_before(b, c, i),
    ensures
        text_before(a, c, i),
    decreases b.len() - i,
{
    if i < a.len() && i < b.len() && i < c.len() && a[i] == b[i] && b[i] == c[i] {
        text_before_transitive(a, b, c, i + 1);
    }
}

/// Of two texts that agree up to `i`, one comes before the other unless they are
/// equal.
pub proof fn text_before_total(a: Seq<char>, b: Seq<char>, i: int)
    requires
        0 <= i,
        i <= a.len(),
        i <= b.len(),
        a.take(i) == b.take(i),
        !text_before(a, b, i),
        !text_before(b, a, i),
    ensures
        a == b,
    decreases b.len() - i,
{
    if i < a.len() && i < b.len() {
        if a[i] != b[i] {
            char_codes_differ(a[i], b[i]);
        } else {
            assert(a.take(i + 1) =~= a.take(i).push(a[i]));
            assert(b.take(i + 1) =~= b.take(i).push(b[i]));
            text_before_total(a, b, i + 1);
        }
    } else {
        assert(a =~= a.take(i));
        assert(b =~= b.take(i));
    }
}

/// Is `s` one of the given strings?
pub fn is_one_of(s: &str, all: &[String]) -> (r: bool)
    ensures
        r == views(all@).contains(s@),
{
    let mut k: usize = 0;
    while k < all.len()
        invariant
            k <= all@.len(),
            forall|m: int| 0 <= m < k ==> #[trigger] views(all@)[m] != s@,
        decreases all@.len() - k,
    {
        assert(views(all@)[k as int] == all@[k as int]@);
        if same_str(&all[k], s) {
            return true;
        }
        k += 1;
    }
    assert(views(all@).len() == all@.len());
    false
}

/// Copies of the given strings.
pub fn clone_strings(all: &[String]) -> (r: Vec<String>)
    ensures
        views(r@) == views(all@),
{
    let mut out: Vec<String> = Vec::new();
    let mut k: usize = 0;
    while k < all.len()
        invariant
            k <= all@.len(),
            views(out@) =~= views(all@).take(k as int),
        decreases all@.len() - k,
    {
        let ghost before = views(out@);
        out.push(all[k].clone());
        assert(views(out@) =~= before.push(views(all@)[k as int]));
        k += 1;
    }
    assert(views(all@).take(k as int) =~= views(all@));
    out
}

/// Where line `line` of `text` starts, if line `at` starts at `from`; `None` if
/// there are not so many lines.
pub open spec fn line_at(text: Seq<u8>, at: int, from: int, line: int) -> Option<int>
    decreases line - at,
{
    if at >= line {
        Some(from)
    } else {
        let end = next_of(text, NEWLINE, from);
        if end < text.len() {
            line_at(text, at + 1, end + 1, line)
        } else {
            None
        }
    }
}

/// Where the 1-based line `line` of `text` starts; the end of the text if there
/// are not so many lines.
pub open spec fn line_start(text: Seq<u8>, line: int) -> int {
    match line_at(text, 1, 0, line) {
        Some(i) => i,
        None => text.len() as int,
    }
}

/// Finds where the 1-based line `line` of `text` starts.
pub fn find_line(text: &[u8], line: u64) -> (r: Option<usize>)
    ensures
        match r {
            Some(i) => line_at(text@, 1, 0, line as int) == Some(i as int) && i <= text@.len(),
            None => line_at(text@, 1, 0, line as int) is None,
        },
{
    let mut at: u64 = 1;
    let mut from: usize = 0;
    while at < line
        invariant
            from <= text@.len(),
            line_at(text@, at as int, from as int, line as int) == line_at(
                text@,
                1,
                0,
                line as int,
            ),
        decreases line - at,
    {
        let end = find_byte(text, NEWLINE, from);
        if end >= text.len() {
            return None;
        }
        at += 1;
        from = end + 1;
    }
    Some(from)
}

proof fn line_at_bounds(text: Seq<u8>, at: int, from: int, line: int)
    requires
        0 <= from <= text.len(),
    ensures
        line_at(text, at, from, line) matches Some(i) ==> from <= i <= text.len(),
        line_at(text, at, from, line) is None ==> line_at(text, at, from, line + 1) is None,
        line_at(text, at, from, line) matches Some(i) ==> (line_at(text, at, from, line + 1)
            matches Some(j) ==> i <= j),
    decreases line - at,
{
    if at < line {
        let end = next_of(text, NEWLINE, from);
        next_of_bounds(text, NEWLINE, from);
        if end < text.len() {
            line_at_bounds(text, at + 1, end + 1, line);
        }
    } else {
        next_of_bounds(text, NEWLINE, from);
        if at == line {
            let end = next_of(text, NEWLINE, from);
            if end < text.len() {
                assert(line_at(text, at, from, line + 1) == line_at(text, at + 1, end + 1, line + 1));
            }
        }
    }
}

/// Lines start in order, inside the text.
pub proof fn lines_ascend(text: Seq<u8>, a: int, b: int)
    requires
        a <= b,
    ensures
        0 <= line_start(text, a) <= line_start(text, b) <= text.len(),
    decreases b - a,
{
    line_at_bounds(text, 1, 0, a);
    line_at_bounds(text, 1, 0, b);
    if a < b {
        lines_ascend(text, a, b - 1);
        line_at_bounds(text, 1, 0, b - 1);
    }
}

/// The number of newlines in the text.
pub open spec fn newlines(text: Seq<u8>) -> nat
    decreases text.len(),
{
    if text.len() == 0 {
        0
    } else {
        newlines(text.drop_last()) + (if text.last() == NEWLINE {
            1nat
        } else {
            0nat
        })
    }
}

proof fn newlines_within(text: Seq<u8>, from: int, to: int)
    requires
        0 <= from <= to <= text.len(),
        forall|j: int| from <= j < to ==> text[j] != NEWLINE,
    ensures
        newlines(text.take(to)) == newlines(text.take(from)),
    decreases to - from,
{
    if from < to {
        newlines_within(text, from, to - 1);
        assert(text.take(to).drop_last() =~= text.take(to - 1));
        assert(text.take(to).last() == text[to - 1]);
    }
}

proof fn line_at_counts(text: Seq<u8>, at: int, from: int, line: int)
    requires
        0 <= from <= text.len(),
        at <= line,
    ensures
        line_at(text, at, from, line) matches Some(i) ==> from <= i <= text.len() && newlines(
            text.take(i),
        ) == newlines(text.take(from)) + (line - at),
    decreases line - at,
{
    if at < line {
        let end = next_of(text, NEWLINE, from);
        next_of_bounds(text, NEWLINE, from);
        if end < text.len() {
            newlines_within(text, from, end);
            assert(text.take(end + 1).drop_last() =~= text.take(end));
            assert(text.take(end + 1).last() == text[end]);
            line_at_counts(text, at + 1, end + 1, line);
        }
    }
}

/// The number of a line is one more than the newlines before any place on it.
pub proof fn line_numbers_count_newlines(text: Seq<u8>, line: int, i: int)
    requires
        1 <= line,
        line_at(text, 1, 0, line) is Some,
        line_start(text, line) <= i <= next_of(text, NEWLINE, line_start(text, line)),
    ensures
        line == 1 + newlines(text.take(i)),
{
    let start = line_start(text, line);
    line_at_counts(text, 1, 0, line);
    next_of_bounds(text, NEWLINE, start);
    newlines_within(text, start, i);
    assert(text.take(0) =~= Seq::<u8>::empty());
}

} // verus!
