//! Fitting records into a token budget.
//!
//! Trimming is by selection only: inner arrays are shortened before whole records
//! are dropped, and no payload text is edited. A record is dropped only where even
//! one item in every array is too much. The size of a record is estimated from the
//! texts it carries, at four bytes per token.

use crate::output::{
    Candidate, ChoiceView, FallbackWindow, FallbackWindowView, Record, RecordView, RefContext,
    RefContextView, RefLocation, RefLocationView, ResolvedResult, ResolvedResultView,
};
use crate::text::{byte_len, concat3, opt_view, utf8_len, views};
use vstd::prelude::*;

verus! {

// ---------------------------------------------------------------------------
// Estimates
// ---------------------------------------------------------------------------

/// The bytes that an optional text takes with its key.
pub open spec fn text_cost(t: Option<Seq<char>>) -> int {
    match t {
        Some(s) => 16 + utf8_len(s),
        None => 0,
    }
}

/// The bytes that an optional number takes with its key.
pub open spec fn number_cost(n: Option<usize>) -> int {
    match n {
        Some(_) => 24,
        None => 0,
    }
}

fn text_cost_of(t: &Option<String>) -> (r: u128)
    ensures
        r == text_cost(opt_view(*t)),
        r <= 0x2_0000_0000_0000_0000,
{
    match t {
        Some(s) => 16 + byte_len(s) as u128,
        None => 0,
    }
}

fn number_cost_of(n: Option<usize>) -> (r: u128)
    ensures
        r == number_cost(n),
        r <= 24,
{
    match n {
        Some(_) => 24,
        None => 0,
    }
}

/// An item of an inner array, with an estimate of its size.
pub trait Priced: View + Sized {
    /// The estimated size of an item in bytes.
    spec fn cost(v: Self::V) -> int;

    proof fn cost_is_positive(v: Self::V)
        ensures
            0 < Self::cost(v),
    ;

    fn cost_of(&self) -> (r: u128)
        ensures
            r == Self::cost(self@),
    ;
}

impl Priced for Candidate {
    open spec fn cost(v: ChoiceView) -> int {
        48 + utf8_len(v.file_path) + text_cost(v.snippet)
    }

    proof fn cost_is_positive(v: ChoiceView) {
    }

    fn cost_of(&self) -> (r: u128) {
        48 + byte_len(&self.file_path) as u128 + text_cost_of(&self.snippet)
    }
}

impl Priced for RefLocation {
    open spec fn cost(v: RefLocationView) -> int {
        32 + utf8_len(v.file)
    }

    proof fn cost_is_positive(v: RefLocationView) {
    }

    fn cost_of(&self) -> (r: u128) {
        32 + byte_len(&self.file) as u128
    }
}

impl Priced for ResolvedResult {
    open spec fn cost(v: ResolvedResultView) -> int {
        64 + utf8_len(v.file_path) + number_cost(v.start_byte) + number_cost(v.end_byte) + text_cost(
            v.content,
        ) + text_cost(v.signature) + text_cost(v.type_spelling) + text_cost(v.doc) + text_cost(
            v.qualified_name,
        )
    }

    proof fn cost_is_positive(v: ResolvedResultView) {
    }

    fn cost_of(&self) -> (r: u128) {
        64 + byte_len(&self.file_path) as u128 + number_cost_of(self.start_byte) + number_cost_of(
            self.end_byte,
        ) + text_cost_of(&self.content) + text_cost_of(&self.signature) + text_cost_of(
            &self.type_spelling,
        ) + text_cost_of(&self.doc) + text_cost_of(&self.qualified_name)
    }
}

impl Priced for RefContext {
    open spec fn cost(v: RefContextView) -> int {
        96 + utf8_len(v.file) + utf8_len(v.content)
    }

    proof fn cost_is_positive(v: RefContextView) {
    }

    fn cost_of(&self) -> (r: u128) {
        96 + byte_len(&self.file) as u128 + byte_len(&self.content) as u128
    }
}

impl Priced for FallbackWindow {
    open spec fn cost(v: FallbackWindowView) -> int {
        96 + utf8_len(v.file_path) + utf8_len(v.content_buffer)
    }

    proof fn cost_is_positive(v: FallbackWindowView) {
    }

    fn cost_of(&self) -> (r: u128) {
        96 + byte_len(&self.file_path) as u128 + byte_len(&self.content_buffer) as u128
    }
}

/// The estimated size of a record without its inner arrays.
pub open spec fn base_cost(r: RecordView) -> int {
    128 + utf8_len(r.command) + utf8_len(r.target) + utf8_len(r.resolution_type) + text_cost(
        r.engine,
    ) + text_cost(r.file_path) + number_cost(r.start_line) + number_cost(r.end_line) + number_cost(
        r.start_byte,
    ) + number_cost(r.end_byte) + text_cost(r.content) + text_cost(r.signature) + text_cost(
        r.type_spelling,
    ) + text_cost(r.doc) + text_cost(r.qualified_name) + number_cost(r.approximate_line)
        + number_cost(r.window_before) + number_cost(r.window_after) + text_cost(r.content_buffer)
        + text_cost(r.message)
}

fn base_cost_of(r: &Record) -> (c: u128)
    ensures
        c == base_cost(r@),
{
    128 + byte_len(&r.command) as u128 + byte_len(&r.target) as u128 + byte_len(&r.resolution_type) as u128
        + text_cost_of(&r.engine) + text_cost_of(&r.file_path) + number_cost_of(r.start_line)
        + number_cost_of(r.end_line) + number_cost_of(r.start_byte) + number_cost_of(r.end_byte)
        + text_cost_of(&r.content) + text_cost_of(&r.signature) + text_cost_of(&r.type_spelling)
        + text_cost_of(&r.doc) + text_cost_of(&r.qualified_name) + number_cost_of(r.approximate_line)
        + number_cost_of(r.window_before) + number_cost_of(r.window_after) + text_cost_of(
        &r.content_buffer,
    ) + text_cost_of(&r.message)
}

/// The estimated size of the items of an array.
pub open spec fn total_cost<T: Priced>(s: Seq<T::V>) -> int
    decreases s.len(),
{
    if s.len() == 0 {
        0
    } else {
        T::cost(s[0]) + total_cost::<T>(s.skip(1))
    }
}

/// The estimated size of a record.
pub open spec fn record_cost(r: RecordView) -> int {
    base_cost(r) + total_cost::<Candidate>(r.candidates) + total_cost::<ResolvedResult>(r.results)
        + total_cost::<RefLocation>(r.locations) + total_cost::<RefContext>(r.contexts)
        + total_cost::<FallbackWindow>(r.windows)
}

// ---------------------------------------------------------------------------
// Shortening one record
// ---------------------------------------------------------------------------

/// How many of the leading items of an array fit into `left` bytes.
pub open spec fn fitting<T: Priced>(s: Seq<T::V>, left: int) -> nat
    decreases s.len(),
{
    if s.len() == 0 || T::cost(s[0]) > left {
        0
    } else {
        1 + fitting::<T>(s.skip(1), left - T::cost(s[0]))
    }
}

/// Only items that are there can fit, and those that fit do not cost more than
/// there is. The whole array fits if and only if it costs no more than there is.
proof fn fitting_bounds<T: Priced>(s: Seq<T::V>, left: int)
    requires
        0 <= left,
    ensures
        fitting::<T>(s, left) <= s.len(),
        0 <= total_cost::<T>(s.take(fitting::<T>(s, left) as int)) <= left,
        fitting::<T>(s, left) == s.len() <==> total_cost::<T>(s) <= left,
        0 <= total_cost::<T>(s),
    decreases s.len(),
{
    let m = fitting::<T>(s, left);
    if s.len() == 0 {
        assert(s.take(m as int) =~= s);
    } else {
        T::cost_is_positive(s[0]);
        if T::cost(s[0]) > left {
            fitting_bounds::<T>(s.skip(1), 0);
            assert(s.take(0).len() == 0);
        } else {
            fitting_bounds::<T>(s.skip(1), left - T::cost(s[0]));
            assert(s.take(m as int).skip(1) =~= s.skip(1).take(m - 1));
            assert(s.take(m as int)[0] == s[0]);
        }
    }
}

/// Counts the leading items, from `from` on, that fit into `left` bytes; with that,
/// the bytes that are left.
fn fit_from<T: Priced>(items: &Vec<T>, from: usize, left: u128) -> (r: (usize, u128))
    requires
        from <= items@.len(),
    ensures
        r.0 == fitting::<T>(views(items@).skip(from as int), left as int),
        from + r.0 <= items@.len(),
        r.1 == left - total_cost::<T>(views(items@).skip(from as int).take(r.0 as int)),
{
    let ghost all = views(items@).skip(from as int);
    let end = items.len();
    let n = end - from;
    let mut m: usize = 0;
    let mut rest: u128 = left;
    assert(all.skip(0) =~= all);
    assert(all.take(0).len() == 0);
    while m < n
        invariant
            m <= n,
            from + n == end,
            end == items@.len(),
            all == views(items@).skip(from as int),
            rest == left - total_cost::<T>(all.take(m as int)),
            fitting::<T>(all, left as int) == m + fitting::<T>(all.skip(m as int), rest as int),
        decreases n - m,
    {
        assert(all[m as int] == items@[from + m]@);
        let c = items[from + m].cost_of();
        if c > rest {
            assert(all.skip(m as int)[0] == all[m as int]);
            return (m, rest);
        }
        proof {
            assert(all.skip(m as int)[0] == all[m as int]);
            assert(all.skip(m as int).skip(1) =~= all.skip(m + 1));
            total_cost_push::<T>(all.take(m as int), all[m as int]);
            assert(all.take(m + 1) =~= all.take(m as int).push(all[m as int]));
        }
        rest = rest - c;
        m += 1;
    }
    assert(all.len() == n);
    (m, rest)
}

proof fn total_cost_push<T: Priced>(s: Seq<T::V>, x: T::V)
    ensures
        total_cost::<T>(s.push(x)) == total_cost::<T>(s) + T::cost(x),
    decreases s.len(),
{
    if s.len() == 0 {
        assert(total_cost::<T>(s.push(x).skip(1)) == 0);
    } else {
        assert(s.push(x).skip(1) =~= s.skip(1).push(x));
        assert(s.push(x)[0] == s[0]);
        total_cost_push::<T>(s.skip(1), x);
    }
}

/// How much of each inner array of a record is kept.
pub struct Cut {
    pub candidates: usize,
    pub results: usize,
    pub locations: usize,
    pub contexts: usize,
    pub windows: usize,
}

/// The mathematical value of a [`Cut`].
pub struct CutView {
    pub candidates: nat,
    pub results: nat,
    pub locations: nat,
    pub contexts: nat,
    pub windows: nat,
}

impl View for Cut {
    type V = CutView;

    open spec fn view(&self) -> CutView {
        CutView {
            candidates: self.candidates as nat,
            results: self.results as nat,
            locations: self.locations as nat,
            contexts: self.contexts as nat,
            windows: self.windows as nat,
        }
    }
}

/// The estimated size of the first item of an array, if it has any.
pub open spec fn first_cost<T: Priced>(s: Seq<T::V>) -> int {
    if s.len() == 0 {
        0
    } else {
        T::cost(s[0])
    }
}

/// The estimated size of a record with one item in each inner array that has any.
pub open spec fn least_cost(r: RecordView) -> int {
    base_cost(r) + first_cost::<Candidate>(r.candidates) + first_cost::<ResolvedResult>(r.results)
        + first_cost::<RefLocation>(r.locations) + first_cost::<RefContext>(r.contexts)
        + first_cost::<FallbackWindow>(r.windows)
}

/// How many items of an array are kept: the first and, of those after it, the leading
/// ones that fit into `spare` bytes.
pub open spec fn grown<T: Priced>(s: Seq<T::V>, spare: int) -> nat {
    if s.len() == 0 {
        0
    } else {
        1 + fitting::<T>(s.skip(1), spare)
    }
}

/// What is left of the spare bytes once the items after the first are taken that fit.
pub open spec fn spare_after<T: Priced>(s: Seq<T::V>, spare: int) -> int {
    if s.len() == 0 {
        spare
    } else {
        spare - total_cost::<T>(s.skip(1).take(fitting::<T>(s.skip(1), spare) as int))
    }
}

/// What is left of the spare bytes once the arrays of a record have grown, one after
/// the other.
pub open spec fn spare_left(r: RecordView, spare: int) -> int {
    let s1 = spare_after::<Candidate>(r.candidates, spare);
    let s2 = spare_after::<ResolvedResult>(r.results, s1);
    let s3 = spare_after::<RefLocation>(r.locations, s2);
    let s4 = spare_after::<RefContext>(r.contexts, s3);
    spare_after::<FallbackWindow>(r.windows, s4)
}

/// How much of each inner array is kept with so many spare bytes: one item of each that
/// has any, and then as many more as fit, array after array.
pub open spec fn cut_for(r: RecordView, spare: int) -> CutView {
    let s1 = spare_after::<Candidate>(r.candidates, spare);
    let s2 = spare_after::<ResolvedResult>(r.results, s1);
    let s3 = spare_after::<RefLocation>(r.locations, s2);
    let s4 = spare_after::<RefContext>(r.contexts, s3);
    CutView {
        candidates: grown::<Candidate>(r.candidates, spare),
        results: grown::<ResolvedResult>(r.results, s1),
        locations: grown::<RefLocation>(r.locations, s2),
        contexts: grown::<RefContext>(r.contexts, s3),
        windows: grown::<FallbackWindow>(r.windows, s4),
    }
}

/// A record with its inner arrays shortened.
pub open spec fn shortened(r: RecordView, c: CutView) -> RecordView {
    RecordView {
        candidates: r.candidates.take(c.candidates as int),
        results: r.results.take(c.results as int),
        locations: r.locations.take(c.locations as int),
        contexts: r.contexts.take(c.contexts as int),
        windows: r.windows.take(c.windows as int),
        ..r
    }
}

/// A record that is marked as trimmed.
pub open spec fn marked(r: RecordView) -> RecordView {
    RecordView {
        budget_trimmed: true,
        message: Some(
            match r.message {
                Some(m) => m + " "@ + "Output trimmed to fit --budget."@,
                None => "Output trimmed to fit --budget."@,
            },
        ),
        ..r
    }
}

/// Does the cut leave the inner arrays whole?
pub open spec fn whole(r: RecordView, c: CutView) -> bool {
    c.candidates == r.candidates.len() && c.results == r.results.len() && c.locations
        == r.locations.len() && c.contexts == r.contexts.len() && c.windows == r.windows.len()
}

/// Does the cut keep no more than there is?
pub open spec fn within(r: RecordView, c: CutView) -> bool {
    c.candidates <= r.candidates.len() && c.results <= r.results.len() && c.locations
        <= r.locations.len() && c.contexts <= r.contexts.len() && c.windows <= r.windows.len()
}

proof fn grown_bounds<T: Priced>(s: Seq<T::V>, spare: int)
    requires
        0 <= spare,
    ensures
        grown::<T>(s, spare) <= s.len(),
        0 <= spare_after::<T>(s, spare) <= spare,
        total_cost::<T>(s.take(grown::<T>(s, spare) as int)) == first_cost::<T>(s) + spare
            - spare_after::<T>(s, spare),
{
    let m = grown::<T>(s, spare) as int;
    if s.len() == 0 {
        assert(s.take(m) =~= s);
    } else {
        fitting_bounds::<T>(s.skip(1), spare);
        assert(s.take(m).skip(1) =~= s.skip(1).take(m - 1));
        assert(s.take(m)[0] == s[0]);
    }
}

/// A cut keeps no more than there is, and what it keeps costs what the first items and
/// the spare bytes that are used up cost.
proof fn cut_bounds(r: RecordView, spare: int)
    requires
        0 <= spare,
    ensures
        within(r, cut_for(r, spare)),
        0 <= spare_left(r, spare) <= spare,
        record_cost(shortened(r, cut_for(r, spare))) == least_cost(r) + spare - spare_left(r, spare),
{
    let s1 = spare_after::<Candidate>(r.candidates, spare);
    let s2 = spare_after::<ResolvedResult>(r.results, s1);
    let s3 = spare_after::<RefLocation>(r.locations, s2);
    let s4 = spare_after::<RefContext>(r.contexts, s3);
    grown_bounds::<Candidate>(r.candidates, spare);
    grown_bounds::<ResolvedResult>(r.results, s1);
    grown_bounds::<RefLocation>(r.locations, s2);
    grown_bounds::<RefContext>(r.contexts, s3);
    grown_bounds::<FallbackWindow>(r.windows, s4);
}

fn grow<T: Priced>(items: &Vec<T>, spare: u128) -> (r: (usize, u128))
    ensures
        r.0 == grown::<T>(views(items@), spare as int),
        r.0 <= items@.len(),
        r.1 == spare_after::<T>(views(items@), spare as int),
{
    assert(views(items@).len() == items@.len());
    if items.len() == 0 {
        return (0, spare);
    }
    let (m, rest) = fit_from(items, 1, spare);
    (m + 1, rest)
}

fn cut_of(r: &Record, spare: u128) -> (c: (Cut, u128))
    ensures
        c.0@ == cut_for(r@, spare as int),
        within(r@, c.0@),
        c.1 == spare_left(r@, spare as int),
{
    let (candidates, spare) = grow(&r.candidates, spare);
    let (results, spare) = grow(&r.results, spare);
    let (locations, spare) = grow(&r.locations, spare);
    let (contexts, spare) = grow(&r.contexts, spare);
    let (windows, spare) = grow(&r.windows, spare);
    (Cut { candidates, results, locations, contexts, windows }, spare)
}

/// Takes the cost of all items off, if that much is left.
fn pay_all<T: Priced>(items: &Vec<T>, left: u128) -> (r: Option<u128>)
    ensures
        match r {
            Some(rest) => rest == left - total_cost::<T>(views(items@)),
            None => total_cost::<T>(views(items@)) > left,
        },
{
    let (m, rest) = fit_from(items, 0, left);
    proof {
        let all = views(items@);
        assert(all.skip(0) =~= all);
        fitting_bounds::<T>(all, left as int);
        if m == all.len() {
            assert(all.take(m as int) =~= all);
        }
    }
    if m == items.len() {
        Some(rest)
    } else {
        None
    }
}

/// Takes the cost of the first item off, if there is one and if that much is left.
fn pay_first<T: Priced>(items: &Vec<T>, left: u128) -> (r: Option<u128>)
    ensures
        match r {
            Some(rest) => rest == left - first_cost::<T>(views(items@)),
            None => first_cost::<T>(views(items@)) > left,
        },
{
    assert(views(items@).len() == items@.len());
    if items.len() == 0 {
        return Some(left);
    }
    assert(views(items@)[0] == items@[0]@);
    let c = items[0].cost_of();
    if c > left {
        None
    } else {
        Some(left - c)
    }
}

/// Takes the cost of a record off, if that much is left.
fn pay_record(r: &Record, left: u128) -> (rest: Option<u128>)
    ensures
        match rest {
            Some(x) => x == left - record_cost(r@),
            None => record_cost(r@) > left,
        },
{
    proof {
        costs_are_not_negative(r@);
    }
    let base = base_cost_of(r);
    if base > left {
        return None;
    }
    let left = pay_all(&r.candidates, left - base)?;
    let left = pay_all(&r.results, left)?;
    let left = pay_all(&r.locations, left)?;
    let left = pay_all(&r.contexts, left)?;
    pay_all(&r.windows, left)
}

/// Takes the least cost of a record off, if that much is left.
fn pay_least(r: &Record, left: u128) -> (rest: Option<u128>)
    ensures
        match rest {
            Some(x) => x == left - least_cost(r@),
            None => least_cost(r@) > left,
        },
{
    proof {
        costs_are_not_negative(r@);
    }
    let base = base_cost_of(r);
    if base > left {
        return None;
    }
    let left = pay_first(&r.candidates, left - base)?;
    let left = pay_first(&r.results, left)?;
    let left = pay_first(&r.locations, left)?;
    let left = pay_first(&r.contexts, left)?;
    pay_first(&r.windows, left)
}

proof fn array_costs<T: Priced>(s: Seq<T::V>)
    ensures
        0 <= first_cost::<T>(s) <= total_cost::<T>(s),
{
    if s.len() > 0 {
        T::cost_is_positive(s[0]);
        fitting_bounds::<T>(s.skip(1), 0);
    }
}

proof fn costs_are_not_negative(r: RecordView)
    ensures
        0 <= base_cost(r) <= least_cost(r) <= record_cost(r),
        0 <= first_cost::<Candidate>(r.candidates) <= total_cost::<Candidate>(r.candidates),
        0 <= first_cost::<ResolvedResult>(r.results) <= total_cost::<ResolvedResult>(r.results),
        0 <= first_cost::<RefLocation>(r.locations) <= total_cost::<RefLocation>(r.locations),
        0 <= first_cost::<RefContext>(r.contexts) <= total_cost::<RefContext>(r.contexts),
        0 <= first_cost::<FallbackWindow>(r.windows) <= total_cost::<FallbackWindow>(r.windows),
{
    array_costs::<Candidate>(r.candidates);
    array_costs::<ResolvedResult>(r.results);
    array_costs::<RefLocation>(r.locations);
    array_costs::<RefContext>(r.contexts);
    array_costs::<FallbackWindow>(r.windows);
}

// ---------------------------------------------------------------------------
// Trimming a batch
// ---------------------------------------------------------------------------

/// The bytes that a budget of tokens allows.
pub open spec fn allowance(budget: int) -> int {
    4 * budget + 3
}

/// The estimated size of a batch.
pub open spec fn batch_cost(rs: Seq<RecordView>) -> int
    decreases rs.len(),
{
    if rs.len() == 0 {
        0
    } else {
        batch_cost(rs.drop_last()) + record_cost(rs.last())
    }
}

/// The estimated size of the first `k` records with one item in each inner array that
/// has any.
pub open spec fn least_batch_cost(rs: Seq<RecordView>, k: int) -> int
    decreases k,
{
    if k <= 0 {
        0
    } else {
        least_batch_cost(rs, k - 1) + least_cost(rs[k - 1])
    }
}

/// How many of the leading records, counted from `i`, fit into `left` bytes with one
/// item in each inner array that has any.
pub open spec fn fitting_records(rs: Seq<RecordView>, i: int, left: int) -> int
    decreases rs.len() - i,
{
    if i < 0 || i >= rs.len() || least_cost(rs[i]) > left {
        i
    } else {
        fitting_records(rs, i + 1, left - least_cost(rs[i]))
    }
}

/// What is left of the spare bytes once the first `k` records have grown.
pub open spec fn spare_before(rs: Seq<RecordView>, spare: int, k: int) -> int
    decreases k,
{
    if k <= 0 {
        spare
    } else {
        spare_left(rs[k - 1], spare_before(rs, spare, k - 1))
    }
}

/// What is kept of a record with so many spare bytes. It is marked if items are left
/// out, or if it is the last one.
#[verifier::opaque]
pub open spec fn trimmed(r: RecordView, spare: int, last: bool) -> RecordView {
    let c = cut_for(r, spare);
    if last || !whole(r, c) {
        marked(shortened(r, c))
    } else {
        shortened(r, c)
    }
}

/// The number of records that remain of a batch that does not fit: those that fit with
/// one item in each inner array, and the first in any case.
pub open spec fn kept_count(rs: Seq<RecordView>, budget: int) -> int {
    let n = fitting_records(rs, 0, allowance(budget));
    if n == 0 {
        1
    } else {
        n
    }
}

/// The bytes that a batch has to spare beyond one item in each inner array.
pub open spec fn spare_bytes(rs: Seq<RecordView>, budget: int) -> int {
    let n = fitting_records(rs, 0, allowance(budget));
    if n == 0 {
        0
    } else {
        allowance(budget) - least_batch_cost(rs, n)
    }
}

/// What is kept of records that all remain, with so many spare bytes.
pub open spec fn all_trimmed(rs: Seq<RecordView>, spare: int) -> Seq<RecordView> {
    Seq::new(
        rs.len(),
        |i: int| trimmed(rs[i], spare_before(rs, spare, i), i == rs.len() - 1),
    )
}

/// What remains of a batch under a budget. A batch that fits remains as it is. Else
/// inner arrays are shortened, the first ones least; records are dropped, from the
/// end, only where one item in each array is still too much; and the first record
/// always remains. Records that lost items say so, and so does the last.
pub open spec fn budgeted(rs: Seq<RecordView>, budget: int) -> Seq<RecordView> {
    if batch_cost(rs) <= allowance(budget) {
        rs
    } else {
        all_trimmed(rs.take(kept_count(rs, budget)), spare_bytes(rs, budget))
    }
}

fn shorten<T: View>(v: &mut Vec<T>, n: usize)
    ensures
        n <= old(v)@.len() ==> views(final(v)@) == views(old(v)@).take(n as int),
{
    let ghost before = v@;
    v.truncate(n);
    assert(n <= before.len() ==> views(v@) =~= views(before).take(n as int));
}

fn cut_record(record: Record, c: &Cut) -> (r: Record)
    requires
        within(record@, c@),
    ensures
        r@ == shortened(record@, c@),
{
    let mut r = record;
    shorten(&mut r.candidates, c.candidates);
    shorten(&mut r.results, c.results);
    shorten(&mut r.locations, c.locations);
    shorten(&mut r.contexts, c.contexts);
    shorten(&mut r.windows, c.windows);
    r
}

fn mark(record: Record) -> (r: Record)
    ensures
        r@ == marked(record@),
{
    let mut r = record;
    r.budget_trimmed = true;
    let message = match &r.message {
        Some(m) => concat3(m, " ", "Output trimmed to fit --budget."),
        None => "Output trimmed to fit --budget.".to_owned(),
    };
    r.message = Some(message);
    r
}

fn trim_record(record: Record, spare: u128, last: bool) -> (r: (Record, u128))
    ensures
        r.0@ == trimmed(record@, spare as int, last),
        r.1 == spare_left(record@, spare as int),
{
    proof {
        reveal(trimmed);
    }
    let (c, rest) = cut_of(&record, spare);
    let all = c.candidates == record.candidates.len() && c.results == record.results.len()
        && c.locations == record.locations.len() && c.contexts == record.contexts.len() && c.windows
        == record.windows.len();
    assert(all == whole(record@, c@));
    let r = cut_record(record, &c);
    if last || !all {
        (mark(r), rest)
    } else {
        (r, rest)
    }
}

fn fits_whole(records: &Vec<Record>, budget: usize) -> (r: bool)
    ensures
        r == (batch_cost(views(records@)) <= allowance(budget as int)),
{
    let ghost rs = views(records@);
    let mut left: u128 = 4 * (budget as u128) + 3;
    let mut k: usize = 0;
    assert(rs.take(0).len() == 0);
    while k < records.len()
        invariant
            k <= records@.len(),
            rs == views(records@),
            left == allowance(budget as int) - batch_cost(rs.take(k as int)),
        decreases records@.len() - k,
    {
        assert(rs[k as int] == records@[k as int]@);
        proof {
            assert(rs.take(k + 1).drop_last() =~= rs.take(k as int));
            assert(rs.take(k + 1).last() == rs[k as int]);
            batch_cost_grows(rs, k + 1);
        }
        match pay_record(&records[k], left) {
            Some(rest) => {
                left = rest;
            },
            None => {
                return false;
            },
        }
        k += 1;
    }
    assert(rs.take(k as int) =~= rs);
    true
}

/// Fits records into a budget of estimated tokens.
pub fn apply_budget(records: Vec<Record>, budget: usize) -> (r: Vec<Record>)
    ensures
        views(r@) == budgeted(views(records@), budget as int),
{
    if fits_whole(&records, budget) {
        return records;
    }
    let ghost rs = views(records@);
    let ghost limit = allowance(budget as int);
    let mut records = records;
    let mut spare: u128 = 4 * (budget as u128) + 3;
    let mut n: usize = 0;
    while n < records.len()
        invariant_except_break
            fitting_records(rs, n as int, spare as int) == fitting_records(rs, 0, limit),
        invariant
            n <= records@.len(),
            rs == views(records@),
            spare == limit - least_batch_cost(rs, n as int),
        ensures
            n == fitting_records(rs, 0, limit),
        decreases records@.len() - n,
    {
        assert(rs[n as int] == records@[n as int]@);
        match pay_least(&records[n], spare) {
            Some(rest) => {
                spare = rest;
            },
            None => {
                break ;
            },
        }
        n += 1;
    }
    assert(rs.len() == records@.len());
    assert(rs.len() > 0);
    if n == 0 {
        n = 1;
        spare = 0;
    }
    records.truncate(n);
    assert(views(records@) =~= rs.take(n as int));
    trim_all(records, spare)
}

fn trim_all(records: Vec<Record>, spare: u128) -> (r: Vec<Record>)
    ensures
        views(r@) == all_trimmed(views(records@), spare as int),
{
    let ghost rs = views(records@);
    let ghost want = all_trimmed(rs, spare as int);
    let ghost first = spare as int;
    let mut rest = records;
    let n = rest.len();
    let mut left = spare;
    let mut out: Vec<Record> = Vec::new();
    let mut k: usize = 0;
    while k < n
        invariant
            k <= n,
            n == rs.len(),
            rest@.len() == n - k,
            want == all_trimmed(rs, first),
            left == spare_before(rs, first, k as int),
            views(rest@) =~= rs.skip(k as int),
            views(out@) =~= want.take(k as int),
        decreases n - k,
    {
        let ghost before = views(out@);
        let ghost remaining = views(rest@);
        assert(remaining[0] == rs[k as int]);
        let record = rest.remove(0);
        assert(record@ == rs[k as int]);
        assert(views(rest@) =~= remaining.remove(0));
        let (one, spared) = trim_record(record, left, k == n - 1);
        left = spared;
        assert(one@ == want[k as int]);
        out.push(one);
        assert(views(out@) =~= before.push(want[k as int]));
        k += 1;
    }
    assert(want.take(k as int) =~= want);
    out
}

proof fn batch_cost_grows(rs: Seq<RecordView>, i: int)
    requires
        0 <= i <= rs.len(),
    ensures
        batch_cost(rs.take(i)) <= batch_cost(rs),
    decreases rs.len(),
{
    if i == rs.len() {
        assert(rs.take(i) =~= rs);
    } else {
        costs_are_not_negative(rs.last());
        batch_cost_grows(rs.drop_last(), i);
        assert(rs.drop_last().take(i) =~= rs.take(i));
    }
}

// ---------------------------------------------------------------------------
// What trimming keeps
// ---------------------------------------------------------------------------

/// Is `a` the record `b`, but for shortened inner arrays and the marks of
/// trimming?
pub open spec fn selected_from(a: RecordView, b: RecordView) -> bool {
    &&& a == RecordView {
        candidates: a.candidates,
        results: a.results,
        locations: a.locations,
        contexts: a.contexts,
        windows: a.windows,
        budget_trimmed: a.budget_trimmed,
        message: a.message,
        ..b
    }
    &&& a.candidates.is_prefix_of(b.candidates)
    &&& a.results.is_prefix_of(b.results)
    &&& a.locations.is_prefix_of(b.locations)
    &&& a.contexts.is_prefix_of(b.contexts)
    &&& a.windows.is_prefix_of(b.windows)
}

proof fn fitting_records_bounds(rs: Seq<RecordView>, i: int, left: int)
    requires
        0 <= i <= rs.len(),
        0 <= left,
    ensures
        ({
            let n = fitting_records(rs, i, left);
            &&& i <= n <= rs.len()
            &&& least_batch_cost(rs, n) <= least_batch_cost(rs, i) + left
            &&& n < rs.len() ==> least_batch_cost(rs, n + 1) > least_batch_cost(rs, i) + left
        }),
    decreases rs.len() - i,
{
    if i < rs.len() && least_cost(rs[i]) <= left {
        fitting_records_bounds(rs, i + 1, left - least_cost(rs[i]));
    }
}

proof fn spare_bounds(rs: Seq<RecordView>, spare: int, k: int)
    requires
        0 <= spare,
        0 <= k <= rs.len(),
    ensures
        0 <= spare_before(rs, spare, k) <= spare,
    decreases k,
{
    if k > 0 {
        spare_bounds(rs, spare, k - 1);
        cut_bounds(rs[k - 1], spare_before(rs, spare, k - 1));
    }
}

proof fn spare_is_there(rs: Seq<RecordView>, budget: int)
    requires
        0 <= budget,
        batch_cost(rs) > allowance(budget),
    ensures
        1 <= kept_count(rs, budget) <= rs.len(),
        0 <= spare_bytes(rs, budget),
{
    fitting_records_bounds(rs, 0, allowance(budget));
}

proof fn trimmed_is_selected(r: RecordView, spare: int, last: bool)
    requires
        0 <= spare,
    ensures
        selected_from(trimmed(r, spare, last), r),
        trimmed(r, spare, last) == r || trimmed(r, spare, last).budget_trimmed,
        last ==> trimmed(r, spare, last).budget_trimmed,
{
    reveal(trimmed);
    let c = cut_for(r, spare);
    let a = shortened(r, c);
    cut_bounds(r, spare);
    if whole(r, c) {
        assert(a.candidates =~= r.candidates);
        assert(a.results =~= r.results);
        assert(a.locations =~= r.locations);
        assert(a.contexts =~= r.contexts);
        assert(a.windows =~= r.windows);
    }
}

/// Has every inner array that has items in `b` some in `a`?
pub open spec fn keeps_first_items(a: RecordView, b: RecordView) -> bool {
    &&& b.candidates.len() > 0 ==> a.candidates.len() > 0
    &&& b.results.len() > 0 ==> a.results.len() > 0
    &&& b.locations.len() > 0 ==> a.locations.len() > 0
    &&& b.contexts.len() > 0 ==> a.contexts.len() > 0
    &&& b.windows.len() > 0 ==> a.windows.len() > 0
}

proof fn trimmed_keeps_first_items(r: RecordView, spare: int, last: bool)
    requires
        0 <= spare,
    ensures
        keeps_first_items(trimmed(r, spare, last), r),
{
    reveal(trimmed);
    cut_bounds(r, spare);
}

/// Is `a` what trimming may make of `b`: a selection from it that loses no array, and
/// marked unless it is `b` itself?
pub open spec fn fairly_trimmed(a: RecordView, b: RecordView) -> bool {
    selected_from(a, b) && keeps_first_items(a, b) && (a == b || a.budget_trimmed)
}

proof fn all_are_fairly_trimmed(rs: Seq<RecordView>, spare: int, k: int)
    requires
        0 <= spare,
        0 <= k < rs.len(),
    ensures
        fairly_trimmed(all_trimmed(rs, spare)[k], rs[k]),
        k == rs.len() - 1 ==> all_trimmed(rs, spare)[k].budget_trimmed,
{
    let left = spare_before(rs, spare, k);
    spare_bounds(rs, spare, k);
    trimmed_is_selected(rs[k], left, k == rs.len() - 1);
    trimmed_keeps_first_items(rs[k], left, k == rs.len() - 1);
    assert(all_trimmed(rs, spare)[k] == trimmed(rs[k], left, k == rs.len() - 1));
}

proof fn nothing_is_fair(r: RecordView)
    ensures
        fairly_trimmed(r, r),
{
}

/// Trimming is by selection only: the records that remain are the leading ones, of
/// which leading items of their arrays remain, no array without its first, and nothing
/// else changes; at least one record remains; and each that is not as it was says that
/// it was trimmed.
pub proof fn trimming_only_selects(rs: Seq<RecordView>, budget: int, k: int)
    requires
        0 <= budget,
        0 <= k < budgeted(rs, budget).len(),
    ensures
        k < rs.len(),
        fairly_trimmed(budgeted(rs, budget)[k], rs[k]),
{
    if batch_cost(rs) > allowance(budget) {
        let kept = rs.take(kept_count(rs, budget));
        spare_is_there(rs, budget);
        all_are_fairly_trimmed(kept, spare_bytes(rs, budget), k);
        assert(kept[k] == rs[k]);
    } else {
        nothing_is_fair(rs[k]);
    }
}

/// A batch that fits is left as it is. Of any other at least one record remains, and
/// the last that does says that something was left out.
pub proof fn trimming_is_announced(rs: Seq<RecordView>, budget: int)
    requires
        0 <= budget,
    ensures
        batch_cost(rs) <= allowance(budget) ==> budgeted(rs, budget) == rs,
        batch_cost(rs) > allowance(budget) ==> 0 < budgeted(rs, budget).len() <= rs.len()
            && budgeted(rs, budget).last().budget_trimmed,
{
    if batch_cost(rs) > allowance(budget) {
        let kept = rs.take(kept_count(rs, budget));
        spare_is_there(rs, budget);
        all_are_fairly_trimmed(kept, spare_bytes(rs, budget), kept.len() - 1);
    }
}

/// Records as they are kept, before any is marked.
pub open spec fn unmarked(rs: Seq<RecordView>, spare: int) -> Seq<RecordView> {
    Seq::new(
        rs.len(),
        |i: int| shortened(rs[i], cut_for(rs[i], spare_before(rs, spare, i))),
    )
}

proof fn unmarked_cost(rs: Seq<RecordView>, spare: int, k: int)
    requires
        0 <= spare,
        0 <= k <= rs.len(),
    ensures
        batch_cost(unmarked(rs, spare).take(k)) == least_batch_cost(rs, k) + spare - spare_before(
            rs,
            spare,
            k,
        ),
    decreases k,
{
    let all = unmarked(rs, spare);
    if k > 0 {
        unmarked_cost(rs, spare, k - 1);
        spare_bounds(rs, spare, k - 1);
        cut_bounds(rs[k - 1], spare_before(rs, spare, k - 1));
        assert(all.take(k).drop_last() =~= all.take(k - 1));
        assert(all.take(k).last() == all[k - 1]);
    }
}

proof fn least_batch_cost_of_leading(rs: Seq<RecordView>, n: int, k: int)
    requires
        0 <= k <= n <= rs.len(),
    ensures
        least_batch_cost(rs.take(n), k) == least_batch_cost(rs, k),
    decreases k,
{
    if k > 0 {
        least_batch_cost_of_leading(rs, n, k - 1);
        assert(rs.take(n)[k - 1] == rs[k - 1]);
    }
}

proof fn marks_are_all_that_is_added(rs: Seq<RecordView>, spare: int, k: int)
    requires
        0 <= k < rs.len(),
    ensures
        all_trimmed(rs, spare)[k] == unmarked(rs, spare)[k] || all_trimmed(rs, spare)[k] == marked(
            unmarked(rs, spare)[k],
        ),
{
    reveal(trimmed);
}

/// What remains of a batch that does not fit keeps to the budget, but for the notes on
/// the records that were trimmed, unless it is a single record.
pub proof fn trimming_keeps_to_budget(rs: Seq<RecordView>, budget: int, k: int)
    requires
        0 <= budget,
        batch_cost(rs) > allowance(budget),
        0 <= k < budgeted(rs, budget).len(),
    ensures
        ({
            let out = budgeted(rs, budget);
            let kept = unmarked(rs.take(kept_count(rs, budget)), spare_bytes(rs, budget));
            &&& out.len() == kept.len()
            &&& out[k] == kept[k] || out[k] == marked(kept[k])
            &&& batch_cost(kept) <= allowance(budget) || kept.len() == 1
        }),
{
    let n = kept_count(rs, budget);
    let spare = spare_bytes(rs, budget);
    let kept = unmarked(rs.take(n), spare);
    spare_is_there(rs, budget);
    marks_are_all_that_is_added(rs.take(n), spare, k);
    unmarked_cost(rs.take(n), spare, n);
    spare_bounds(rs.take(n), spare, n);
    least_batch_cost_of_leading(rs, n, n);
    assert(kept.take(n) =~= kept);
}

proof fn grown_is_most<T: Priced>(s: Seq<T::V>, spare: int)
    requires
        0 <= spare,
        grown::<T>(s, spare) < s.len(),
    ensures
        T::cost(s[grown::<T>(s, spare) as int]) > spare_after::<T>(s, spare),
{
    fitting_is_most::<T>(s.skip(1), spare);
    let m = fitting::<T>(s.skip(1), spare) as int;
    assert(s.skip(1)[m] == s[m + 1]);
}

proof fn fitting_is_most<T: Priced>(s: Seq<T::V>, left: int)
    requires
        0 <= left,
        fitting::<T>(s, left) < s.len(),
    ensures
        T::cost(s[fitting::<T>(s, left) as int]) > left - total_cost::<T>(
            s.take(fitting::<T>(s, left) as int),
        ),
    decreases s.len(),
{
    let m = fitting::<T>(s, left) as int;
    if T::cost(s[0]) > left {
        assert(s.take(0).len() == 0);
    } else {
        fitting_is_most::<T>(s.skip(1), left - T::cost(s[0]));
        assert(s.take(m).skip(1) =~= s.skip(1).take(m - 1));
        assert(s.take(m)[0] == s[0]);
        assert(s.skip(1)[m - 1] == s[m]);
    }
}

/// Would the next item of every inner array that the cut shortens cost more than `left`
/// bytes?
pub open spec fn next_items_cost_more(r: RecordView, c: CutView, left: int) -> bool {
    &&& c.candidates < r.candidates.len() ==> Candidate::cost(r.candidates[c.candidates as int])
        > left
    &&& c.results < r.results.len() ==> ResolvedResult::cost(r.results[c.results as int]) > left
    &&& c.locations < r.locations.len() ==> RefLocation::cost(r.locations[c.locations as int])
        > left
    &&& c.contexts < r.contexts.len() ==> RefContext::cost(r.contexts[c.contexts as int]) > left
    &&& c.windows < r.windows.len() ==> FallbackWindow::cost(r.windows[c.windows as int]) > left
}

proof fn cut_is_most(r: RecordView, spare: int)
    requires
        0 <= spare,
    ensures
        next_items_cost_more(r, cut_for(r, spare), spare_left(r, spare)),
{
    let s1 = spare_after::<Candidate>(r.candidates, spare);
    let s2 = spare_after::<ResolvedResult>(r.results, s1);
    let s3 = spare_after::<RefLocation>(r.locations, s2);
    let s4 = spare_after::<RefContext>(r.contexts, s3);
    grown_bounds::<Candidate>(r.candidates, spare);
    grown_bounds::<ResolvedResult>(r.results, s1);
    grown_bounds::<RefLocation>(r.locations, s2);
    grown_bounds::<RefContext>(r.contexts, s3);
    grown_bounds::<FallbackWindow>(r.windows, s4);
    if grown::<Candidate>(r.candidates, spare) < r.candidates.len() {
        grown_is_most::<Candidate>(r.candidates, spare);
    }
    if grown::<ResolvedResult>(r.results, s1) < r.results.len() {
        grown_is_most::<ResolvedResult>(r.results, s1);
    }
    if grown::<RefLocation>(r.locations, s2) < r.locations.len() {
        grown_is_most::<RefLocation>(r.locations, s2);
    }
    if grown::<RefContext>(r.contexts, s3) < r.contexts.len() {
        grown_is_most::<RefContext>(r.contexts, s3);
    }
    if grown::<FallbackWindow>(r.windows, s4) < r.windows.len() {
        grown_is_most::<FallbackWindow>(r.windows, s4);
    }
}

proof fn spare_shrinks(rs: Seq<RecordView>, spare: int, j: int, k: int)
    requires
        0 <= spare,
        0 <= j <= k <= rs.len(),
    ensures
        0 <= spare_before(rs, spare, k) <= spare_before(rs, spare, j),
    decreases k - j,
{
    spare_bounds(rs, spare, j);
    if j < k {
        spare_shrinks(rs, spare, j, k - 1);
        cut_bounds(rs[k - 1], spare_before(rs, spare, k - 1));
    }
}

/// How much of each inner array a record has.
pub open spec fn kept_of(a: RecordView) -> CutView {
    CutView {
        candidates: a.candidates.len(),
        results: a.results.len(),
        locations: a.locations.len(),
        contexts: a.contexts.len(),
        windows: a.windows.len(),
    }
}

/// The budget is used: where an array of a record that remains lost items, the next of
/// them would not fit beside all that is kept.
pub proof fn trimming_uses_the_budget(rs: Seq<RecordView>, budget: int, k: int)
    requires
        0 <= budget,
        batch_cost(rs) > allowance(budget),
        0 <= k < budgeted(rs, budget).len(),
    ensures
        ({
            let kept = unmarked(rs.take(kept_count(rs, budget)), spare_bytes(rs, budget));
            next_items_cost_more(
                rs[k],
                kept_of(budgeted(rs, budget)[k]),
                allowance(budget) - batch_cost(kept),
            )
        }),
{
    let n = kept_count(rs, budget);
    let spare = spare_bytes(rs, budget);
    let lead = rs.take(n);
    let kept = unmarked(lead, spare);
    spare_is_there(rs, budget);
    fitting_records_bounds(rs, 0, allowance(budget));
    marks_are_all_that_is_added(lead, spare, k);
    unmarked_cost(lead, spare, n);
    spare_bounds(lead, spare, k);
    spare_shrinks(lead, spare, k + 1, n);
    least_batch_cost_of_leading(rs, n, n);
    assert(kept.take(n) =~= kept);
    assert(lead[k] == rs[k]);
    let left = spare_before(lead, spare, k);
    cut_is_most(rs[k], left);
    cut_bounds(rs[k], left);
    assert(spare_before(lead, spare, k + 1) == spare_left(rs[k], left));
    assert(kept_of(budgeted(rs, budget)[k]) == cut_for(rs[k], left)) by {
        assert(kept[k] == shortened(rs[k], cut_for(rs[k], left)));
    }
}

/// Inner arrays are shortened before whole records are dropped: records are dropped
/// only where, with the next one, they do not fit even with a single item in each
/// array.
#[verifier::rlimit(60)]
pub proof fn arrays_give_way_before_records(rs: Seq<RecordView>, budget: int)
    requires
        0 <= budget,
        budgeted(rs, budget).len() < rs.len(),
    ensures
        least_batch_cost(rs, budgeted(rs, budget).len() as int + 1) > allowance(budget),
{
    fitting_records_bounds(rs, 0, allowance(budget));
    if fitting_records(rs, 0, allowance(budget)) == 0 && rs.len() > 1 {
        costs_are_not_negative(rs[1]);
        assert(least_batch_cost(rs, 2) == least_batch_cost(rs, 1) + least_cost(rs[1]));
    }
}

} // verus!
