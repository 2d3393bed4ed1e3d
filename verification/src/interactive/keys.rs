//! The keys of lines: different for different lines, and in source order.

use crate::interactive::tree::leaf_key;
use crate::text::{ascii_lower, decimal, digit, lowercase, padded, repeated, text_before};
use vstd::prelude::*;

verus! {

/// Does a line with number `a` and index `i` come before one with number `b` and index
/// `j`: by number, then by index?
pub open spec fn line_before(a: nat, i: nat, b: nat, j: nat) -> bool {
    a < b || (a == b && i < j)
}

/// Is `c` a decimal digit?
pub open spec fn decimal_digit(c: char) -> bool {
    '0' <= c && c <= '9'
}

/// Are all characters decimal digits?
pub open spec fn all_digits(s: Seq<char>) -> bool {
    forall|i: int| 0 <= i < s.len() ==> decimal_digit(#[trigger] s[i])
}

/// The number that digits write.
pub open spec fn value(s: Seq<char>) -> int
    decreases s.len(),
{
    if s.len() == 0 {
        0
    } else {
        value(s.drop_last()) * 10 + (s.last() as int - '0' as int)
    }
}

/// The decimal notation of a number is made of digits that write it, without a zero in
/// front.
pub proof fn decimal_writes(n: nat)
    ensures
        value(decimal(n)) == n,
        all_digits(decimal(n)),
        decimal(n).len() > 0,
        decimal(n)[0] == '0' ==> n == 0,
    decreases n,
{
    let s = decimal(n);
    if n < 10 {
        assert(s.drop_last() =~= Seq::empty());
        assert(value(s.drop_last()) == 0);
        assert(s.last() == digit(n));
    } else {
        decimal_writes(n / 10);
        assert(s.drop_last() =~= decimal(n / 10));
        assert(s.last() == digit(n % 10));
        assert forall|i: int| 0 <= i < s.len() implies decimal_digit(#[trigger] s[i]) by {
            if i < s.len() - 1 {
                assert(s[i] == decimal(n / 10)[i]);
            }
        }
    }
}

proof fn zeros_add_nothing(k: nat, s: Seq<char>)
    ensures
        value(repeated('0', k) + s) == value(s),
    decreases k + s.len(),
{
    let all = repeated('0', k) + s;
    if s.len() > 0 {
        zeros_add_nothing(k, s.drop_last());
        assert(all.drop_last() =~= repeated('0', k) + s.drop_last());
    } else if k > 0 {
        zeros_add_nothing((k - 1) as nat, s);
        assert(all.drop_last() =~= repeated('0', (k - 1) as nat) + s);
        assert(all.last() == '0');
    } else {
        assert(all =~= s);
    }
}

proof fn padding_keeps_value(n: nat, width: nat)
    ensures
        value(padded(decimal(n), '0', width)) == n,
        all_digits(padded(decimal(n), '0', width)),
{
    let s = decimal(n);
    decimal_writes(n);
    if s.len() < width {
        zeros_add_nothing((width - s.len()) as nat, s);
        let all = padded(s, '0', width);
        assert forall|i: int| 0 <= i < all.len() implies decimal_digit(#[trigger] all[i]) by {
            if i >= width - s.len() {
                assert(all[i] == s[i - (width - s.len())]);
            }
        }
    }
}

/// Equal keys are of one number and one index: no two lines share a key.
pub proof fn keys_tell_lines_apart(a: nat, i: nat, b: nat, j: nat)
    requires
        leaf_key(a, i) == leaf_key(b, j),
    ensures
        a == b,
        i == j,
{
    let x = padded(decimal(a), '0', 20);
    let y = padded(decimal(b), '0', 20);
    let u = padded(decimal(i), '0', 8);
    let v = padded(decimal(j), '0', 8);
    let s = leaf_key(a, i);
    let t = leaf_key(b, j);
    padding_keeps_value(a, 20);
    padding_keeps_value(b, 20);
    padding_keeps_value(i, 8);
    padding_keeps_value(j, 8);
    assert(s[x.len() as int] == '_');
    assert(t[y.len() as int] == '_');
    if x.len() < y.len() {
        assert(t[x.len() as int] == y[x.len() as int]);
        assert(decimal_digit(y[x.len() as int]));
    } else if y.len() < x.len() {
        assert(s[y.len() as int] == x[y.len() as int]);
        assert(decimal_digit(x[y.len() as int]));
    }
    let n = x.len() as int;
    assert(x =~= s.take(n));
    assert(y =~= t.take(n));
    assert(u =~= s.skip(n + 1));
    assert(v =~= t.skip(n + 1));
}

// ---------------------------------------------------------------------------
// Order
// ---------------------------------------------------------------------------

spec fn power_of_ten(w: nat) -> nat
    decreases w,
{
    if w == 0 {
        1
    } else {
        10 * power_of_ten((w - 1) as nat)
    }
}

/// The last `w` digits of a number.
spec fn last_digits(n: nat, w: nat) -> Seq<char>
    decreases w,
{
    if w == 0 {
        Seq::empty()
    } else {
        last_digits(n / 10, (w - 1) as nat).push(digit(n % 10))
    }
}

proof fn zero_is_zeros(w: nat)
    ensures
        last_digits(0, w) == repeated('0', w),
    decreases w,
{
    if w > 0 {
        zero_is_zeros((w - 1) as nat);
    }
    assert(last_digits(0, w) =~= repeated('0', w));
}

proof fn padded_is_last_digits(n: nat, w: nat)
    requires
        w > 0,
        n < power_of_ten(w),
    ensures
        padded(decimal(n), '0', w) == last_digits(n, w),
    decreases w,
{
    let s = decimal(n);
    if n < 10 {
        zero_is_zeros((w - 1) as nat);
        assert(n / 10 == 0 && n % 10 == n);
        assert(padded(s, '0', w) =~= repeated('0', (w - 1) as nat).push(digit(n)));
    } else {
        assert(power_of_ten(w) == 10 * power_of_ten((w - 1) as nat));
        assert(w > 1) by {
            if w == 1 {
                assert(power_of_ten(0) == 1);
            }
        }
        padded_is_last_digits(n / 10, (w - 1) as nat);
        assert(padded(s, '0', w) =~= padded(decimal(n / 10), '0', (w - 1) as nat).push(
            digit(n % 10),
        ));
    }
}

proof fn last_digits_length(n: nat, w: nat)
    ensures
        last_digits(n, w).len() == w,
    decreases w,
{
    if w > 0 {
        last_digits_length(n / 10, (w - 1) as nat);
    }
}

proof fn before_goes_on(a: Seq<char>, b: Seq<char>, x: Seq<char>, y: Seq<char>, i: int)
    requires
        a.len() == b.len(),
        0 <= i <= a.len(),
        text_before(a, b, i),
    ensures
        text_before(a + x, b + y, i),
    decreases a.len() - i,
{
    if i < a.len() && a[i] == b[i] {
        before_goes_on(a, b, x, y, i + 1);
    }
}

proof fn before_after_same(a: Seq<char>, x: Seq<char>, y: Seq<char>, i: int)
    requires
        0 <= i <= a.len(),
        text_before(x, y, 0),
    ensures
        text_before(a + x, a + y, i),
    decreases a.len() - i,
{
    if i < a.len() {
        before_after_same(a, x, y, i + 1);
    } else {
        before_shifts(a, x, y, 0);
    }
}

proof fn before_shifts(a: Seq<char>, x: Seq<char>, y: Seq<char>, i: int)
    requires
        0 <= i,
        text_before(x, y, i),
    ensures
        text_before(a + x, a + y, a.len() + i),
    decreases y.len() - i,
{
    if i < x.len() && i < y.len() && x[i] == y[i] {
        before_shifts(a, x, y, i + 1);
    }
}

proof fn smaller_is_before(a: nat, b: nat, w: nat)
    requires
        a < b < power_of_ten(w),
    ensures
        text_before(last_digits(a, w), last_digits(b, w), 0),
    decreases w,
{
    if w > 0 {
        let m = (w - 1) as nat;
        let x = last_digits(a / 10, m);
        let y = last_digits(b / 10, m);
        let u = seq![digit(a % 10)];
        let v = seq![digit(b % 10)];
        last_digits_length(a / 10, m);
        last_digits_length(b / 10, m);
        assert(last_digits(a, w) =~= x + u);
        assert(last_digits(b, w) =~= y + v);
        if a / 10 < b / 10 {
            smaller_is_before(a / 10, b / 10, m);
            before_goes_on(x, y, u, v, 0);
        } else {
            assert(a / 10 == b / 10 && a % 10 < b % 10);
            assert(text_before(u, v, 0));
            before_after_same(x, u, v, 0);
        }
    }
}

/// Keys sort in source order: by the number of the line, then by its index. Indices
/// that take more digits than keys have for them are left out.
pub proof fn keys_sort_in_source_order(a: nat, i: nat, b: nat, j: nat)
    requires
        a <= usize::MAX,
        b <= usize::MAX,
        i < 100000000,
        j < 100000000,
        line_before(a, i, b, j),
    ensures
        text_before(lowercase(leaf_key(a, i)), lowercase(leaf_key(b, j)), 0),
{
    reveal_with_fuel(power_of_ten, 21);
    assert(power_of_ten(20) == 100000000000000000000);
    assert(power_of_ten(8) == 100000000);
    let x = last_digits(a, 20);
    let y = last_digits(b, 20);
    let u = last_digits(i, 8);
    let v = last_digits(j, 8);
    padded_is_last_digits(a, 20);
    padded_is_last_digits(b, 20);
    padded_is_last_digits(i, 8);
    padded_is_last_digits(j, 8);
    last_digits_length(a, 20);
    last_digits_length(b, 20);
    assert(leaf_key(a, i) =~= x + (seq!['_'] + u));
    assert(leaf_key(b, j) =~= y + (seq!['_'] + v));
    if a < b {
        smaller_is_before(a, b, 20);
        before_goes_on(x, y, seq!['_'] + u, seq!['_'] + v, 0);
    } else {
        smaller_is_before(i, j, 8);
        before_after_same(seq!['_'], u, v, 0);
        before_after_same(x, seq!['_'] + u, seq!['_'] + v, 0);
    }
    keys_have_no_case(a, i);
    keys_have_no_case(b, j);
}

proof fn keys_have_no_case(a: nat, i: nat)
    ensures
        lowercase(leaf_key(a, i)) == leaf_key(a, i),
{
    let x = padded(decimal(a), '0', 20);
    let u = padded(decimal(i), '0', 8);
    let s = leaf_key(a, i);
    padding_keeps_value(a, 20);
    padding_keeps_value(i, 8);
    assert forall|k: int| 0 <= k < s.len() implies (decimal_digit(#[trigger] s[k]) || s[k] == '_')
        by {
        if k < x.len() {
            assert(s[k] == x[k]);
        } else if k > x.len() {
            assert(s[k] == u[k - x.len() - 1]);
        }
    }
    assert(lowercase(s) =~= s) by {
        assert forall|k: int| 0 <= k < s.len() implies ascii_lower(#[trigger] s[k]) == s[k] by {}
    }
}

} // verus!
