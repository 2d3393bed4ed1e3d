//! Stable ordering of located items and removal of repeats.

use crate::paths::{is_path_before, path_before, paths_are_ordered, same_path};
use crate::text::views;
use vstd::prelude::*;

verus! {

/// Where an item is: a file and a position in it.
pub struct Place {
    pub path: Seq<char>,
    pub position: int,
}

/// An item with a place.
pub trait Placed: View + Sized {
    /// The place of an item.
    spec fn place(v: Self::V) -> Place;

    fn path_of(&self) -> (r: &str)
        ensures
            r@ == Self::place(self@).path,
    ;

    fn position_of(&self) -> (r: usize)
        ensures
            r == Self::place(self@).position,
    ;
}

/// Does place `a` come before place `b`: by path, then by position?
pub open spec fn place_before(a: Place, b: Place) -> bool {
    path_before(a.path, b.path) || (same_path(a.path, b.path) && a.position < b.position)
}

/// `x` put into `s`, before the items of `s[..k]` that it comes before.
pub open spec fn inserted<T: Placed>(s: Seq<T::V>, x: T::V, k: int) -> Seq<T::V>
    decreases k,
{
    if k > 0 && place_before(T::place(x), T::place(s[k - 1])) {
        inserted::<T>(s, x, k - 1)
    } else {
        s.insert(k, x)
    }
}

/// `s` in order of place; items with one place keep their order.
pub open spec fn in_order<T: Placed>(s: Seq<T::V>) -> Seq<T::V>
    decreases s.len(),
{
    if s.len() == 0 {
        s
    } else {
        let head = in_order::<T>(s.drop_last());
        inserted::<T>(head, s.last(), head.len() as int)
    }
}

fn item_before<T: Placed>(a: &T, b: &T) -> (r: bool)
    ensures
        r == place_before(T::place(a@), T::place(b@)),
{
    if is_path_before(a.path_of(), b.path_of()) {
        return true;
    }
    let later = is_path_before(b.path_of(), a.path_of());
    proof {
        paths_are_ordered(T::place(a@).path, T::place(b@).path, T::place(b@).path);
    }
    !later && a.position_of() < b.position_of()
}

/// Sorts items by place. The sort is stable.
pub fn sort_by_place<T: Placed>(items: &mut Vec<T>)
    ensures
        views(final(items)@) == in_order::<T>(views(old(items)@)),
{
    let ghost all = views(items@);
    let n = items.len();
    let mut i: usize = 0;
    assert(all =~= all.take(0) + all.skip(0));
    while i < n
        invariant
            i <= n,
            n == items@.len(),
            n == all.len(),
            in_order::<T>(all.take(i as int)).len() == i,
            views(items@) == in_order::<T>(all.take(i as int)) + all.skip(i as int),
        decreases n - i,
    {
        let ghost head = in_order::<T>(all.take(i as int));
        let ghost x = all[i as int];
        let mut k: usize = i;
        assert(views(items@)[i as int] == x);
        while k > 0 && item_before(&items[i], &items[k - 1])
            invariant
                k <= i < n,
                n == items@.len(),
                head.len() == i,
                views(items@) == head + all.skip(i as int),
                items@[i as int]@ == x,
                inserted::<T>(head, x, k as int) == inserted::<T>(head, x, i as int),
            decreases k,
        {
            assert(views(items@)[k - 1] == head[k - 1]);
            k -= 1;
        }
        proof {
            if k > 0 {
                assert(views(items@)[k - 1] == head[k - 1]);
            }
        }
        let ghost before = views(items@);
        if k < i {
            let item = items.remove(i);
            items.insert(k, item);
        }
        assert(views(items@) =~= before.remove(i as int).insert(k as int, x));
        i += 1;
        assert(all.take(i as int).drop_last() =~= all.take(i - 1));
        assert(all.take(i as int).last() == x);
        assert(views(items@) =~= head.insert(k as int, x) + all.skip(i as int));
    }
    assert(all.take(i as int) =~= all);
    assert(views(items@) =~= in_order::<T>(all));
}

// ---------------------------------------------------------------------------
// What sorting gives
// ---------------------------------------------------------------------------

/// Is no item of `s` before one that precedes it?
pub open spec fn ordered<T: Placed>(s: Seq<T::V>) -> bool {
    forall|i: int, j: int|
        0 <= i < j < s.len() ==> !place_before(#[trigger] T::place(s[j]), #[trigger] T::place(s[i]))
}

proof fn place_order(a: Place, b: Place, c: Place)
    ensures
        place_before(a, b) ==> !place_before(b, a),
        !place_before(b, a) && !place_before(c, b) ==> !place_before(c, a),
{
    paths_are_ordered(a.path, b.path, c.path);
    paths_are_ordered(b.path, a.path, c.path);
    paths_are_ordered(c.path, a.path, b.path);
    paths_are_ordered(a.path, c.path, b.path);
    paths_are_ordered(b.path, c.path, a.path);
    paths_are_ordered(c.path, b.path, a.path);
}

proof fn inserted_is_ordered<T: Placed>(s: Seq<T::V>, x: T::V, k: int)
    requires
        0 <= k <= s.len(),
        ordered::<T>(s),
        forall|j: int|
            k <= j < s.len() ==> place_before(T::place(x), #[trigger] T::place(s[j])),
    ensures
        ordered::<T>(inserted::<T>(s, x, k)),
        inserted::<T>(s, x, k).to_multiset() == s.to_multiset().insert(x),
        inserted::<T>(s, x, k).len() == s.len() + 1,
    decreases k,
{
    if k > 0 && place_before(T::place(x), T::place(s[k - 1])) {
        inserted_is_ordered::<T>(s, x, k - 1);
    } else {
        let r = s.insert(k, x);
        vstd::seq_lib::to_multiset_insert(s, k, x);
        assert forall|i: int, j: int| 0 <= i < j < r.len() implies !place_before(
            #[trigger] T::place(r[j]),
            #[trigger] T::place(r[i]),
        ) by {
            let si = if i < k { s[i] } else { s[i - 1] };
            let sj = if j < k { s[j] } else { s[j - 1] };
            if i == k {
                assert(r[j] == s[j - 1]);
                assert(place_before(T::place(x), T::place(s[j - 1])));
                place_order(T::place(x), T::place(s[j - 1]), T::place(x));
            } else if j == k {
                assert(r[i] == s[i]);
                if i < k - 1 {
                    assert(!place_before(T::place(s[k - 1]), T::place(s[i])));
                    place_order(T::place(s[i]), T::place(s[k - 1]), T::place(x));
                }
            } else {
                assert(r[i] == si && r[j] == sj);
            }
        }
    }
}

/// Sorting gives the same items, in order of place.
pub proof fn in_order_sorts<T: Placed>(s: Seq<T::V>)
    ensures
        ordered::<T>(in_order::<T>(s)),
        in_order::<T>(s).to_multiset() == s.to_multiset(),
        in_order::<T>(s).len() == s.len(),
    decreases s.len(),
{
    if s.len() > 0 {
        in_order_sorts::<T>(s.drop_last());
        let head = in_order::<T>(s.drop_last());
        inserted_is_ordered::<T>(head, s.last(), head.len() as int);
        assert(s =~= s.drop_last().push(s.last()));
        vstd::seq_lib::to_multiset_build(s.drop_last(), s.last());
    }
}

// ---------------------------------------------------------------------------
// What sorting does not depend on
// ---------------------------------------------------------------------------

/// Is one of the two items before the other?
pub open spec fn apart<T: Placed>(x: T::V, y: T::V) -> bool {
    place_before(T::place(x), T::place(y)) || place_before(T::place(y), T::place(x))
}

/// Is `p` where `x` belongs in `s`: after the items that it is not before?
pub(crate) open spec fn belongs_at<T: Placed>(s: Seq<T::V>, x: T::V, p: int) -> bool {
    &&& 0 <= p <= s.len()
    &&& forall|j: int| p <= j < s.len() ==> place_before(T::place(x), #[trigger] T::place(s[j]))
    &&& p > 0 ==> !place_before(T::place(x), T::place(s[p - 1]))
}

pub(crate) proof fn inserted_where_it_belongs<T: Placed>(s: Seq<T::V>, x: T::V, p: int, k: int)
    requires
        belongs_at::<T>(s, x, p),
        p <= k <= s.len(),
    ensures
        inserted::<T>(s, x, k) == s.insert(p, x),
    decreases k - p,
{
    if p < k {
        assert(place_before(T::place(x), T::place(s[k - 1])));
        inserted_where_it_belongs::<T>(s, x, p, k - 1);
    }
}

pub(crate) proof fn belonging_place<T: Placed>(s: Seq<T::V>, x: T::V, k: int) -> (p: int)
    requires
        0 <= k <= s.len(),
        forall|j: int|
            k <= j < s.len() ==> place_before(T::place(x), #[trigger] T::place(s[j])),
    ensures
        belongs_at::<T>(s, x, p),
    decreases k,
{
    if k > 0 && place_before(T::place(x), T::place(s[k - 1])) {
        belonging_place::<T>(s, x, k - 1)
    } else {
        k
    }
}

proof fn insertions_commute_upward<T: Placed>(s: Seq<T::V>, x: T::V, y: T::V)
    requires
        ordered::<T>(s),
        place_before(T::place(x), T::place(y)),
    ensures
        ({
            let with_x = inserted::<T>(s, x, s.len() as int);
            let with_y = inserted::<T>(s, y, s.len() as int);
            inserted::<T>(with_x, y, with_x.len() as int) == inserted::<T>(
                with_y,
                x,
                with_y.len() as int,
            )
        }),
{
    let n = s.len() as int;
    let p = belonging_place::<T>(s, x, n);
    let q = belonging_place::<T>(s, y, n);
    inserted_where_it_belongs::<T>(s, x, p, n);
    inserted_where_it_belongs::<T>(s, y, q, n);
    place_order(T::place(x), T::place(y), T::place(x));
    if q < p {
        let a = T::place(s[q]);
        let b = T::place(s[p - 1]);
        assert(place_before(T::place(y), a));
        if q == p - 1 {
            place_order(a, T::place(x), T::place(y));
        } else {
            assert(!place_before(b, a));
            place_order(a, b, T::place(x));
            place_order(a, T::place(x), T::place(y));
        }
    }
    let with_x = s.insert(p, x);
    let with_y = s.insert(q, y);
    assert(belongs_at::<T>(with_x, y, q + 1)) by {
        assert forall|j: int| q + 1 <= j < with_x.len() implies place_before(
            T::place(y),
            #[trigger] T::place(with_x[j]),
        ) by {
            assert(with_x[j] == s[j - 1]);
        }
        if q == p {
            assert(with_x[q] == x);
        } else {
            assert(with_x[q] == s[q - 1]);
        }
    }
    assert(belongs_at::<T>(with_y, x, p)) by {
        assert forall|j: int| p <= j < with_y.len() implies place_before(
            T::place(x),
            #[trigger] T::place(with_y[j]),
        ) by {
            if j < q {
                assert(with_y[j] == s[j]);
            } else if j > q {
                assert(with_y[j] == s[j - 1]);
            }
        }
        if p > 0 {
            assert(with_y[p - 1] == s[p - 1]);
        }
    }
    inserted_where_it_belongs::<T>(with_x, y, q + 1, n + 1);
    inserted_where_it_belongs::<T>(with_y, x, p, n + 1);
    assert(with_x.insert(q + 1, y) =~= with_y.insert(p, x));
}

proof fn insertions_commute<T: Placed>(s: Seq<T::V>, x: T::V, y: T::V)
    requires
        ordered::<T>(s),
        apart::<T>(x, y),
    ensures
        ({
            let with_x = inserted::<T>(s, x, s.len() as int);
            let with_y = inserted::<T>(s, y, s.len() as int);
            inserted::<T>(with_x, y, with_x.len() as int) == inserted::<T>(
                with_y,
                x,
                with_y.len() as int,
            )
        }),
{
    if place_before(T::place(x), T::place(y)) {
        insertions_commute_upward::<T>(s, x, y);
    } else {
        insertions_commute_upward::<T>(s, y, x);
    }
}

proof fn in_order_step<T: Placed>(s: Seq<T::V>, x: T::V)
    ensures
        in_order::<T>(s.push(x)) == inserted::<T>(
            in_order::<T>(s),
            x,
            in_order::<T>(s).len() as int,
        ),
{
    assert(s.push(x).drop_last() =~= s);
}

/// Sequences that sort alike still do when the same items follow.
pub proof fn in_order_goes_on<T: Placed>(a: Seq<T::V>, b: Seq<T::V>, t: Seq<T::V>)
    requires
        in_order::<T>(a) == in_order::<T>(b),
    ensures
        in_order::<T>(a + t) == in_order::<T>(b + t),
    decreases t.len(),
{
    if t.len() == 0 {
        assert(a + t =~= a && b + t =~= b);
    } else {
        in_order_goes_on::<T>(a, b, t.drop_last());
        in_order_step::<T>(a + t.drop_last(), t.last());
        in_order_step::<T>(b + t.drop_last(), t.last());
        assert((a + t.drop_last()).push(t.last()) =~= a + t);
        assert((b + t.drop_last()).push(t.last()) =~= b + t);
    }
}

proof fn item_moves_past<T: Placed>(s: Seq<T::V>, x: T::V, t: Seq<T::V>)
    requires
        forall|j: int| 0 <= j < t.len() ==> apart::<T>(x, #[trigger] t[j]),
    ensures
        in_order::<T>(s.push(x) + t) == in_order::<T>((s + t).push(x)),
    decreases t.len(),
{
    if t.len() == 0 {
        assert(s.push(x) + t =~= (s + t).push(x));
    } else {
        let u = t.drop_last();
        let y = t.last();
        assert forall|j: int| 0 <= j < u.len() implies apart::<T>(x, #[trigger] u[j]) by {
            assert(u[j] == t[j]);
        }
        item_moves_past::<T>(s, x, u);
        assert(s.push(x) + t =~= (s.push(x) + u).push(y));
        assert((s + t).push(x) =~= (s + u).push(y).push(x));
        in_order_step::<T>(s.push(x) + u, y);
        in_order_step::<T>(s + u, x);
        in_order_step::<T>(s + u, y);
        in_order_step::<T>((s + u).push(y), x);
        in_order_sorts::<T>(s + u);
        assert(apart::<T>(x, t[t.len() - 1]));
        insertions_commute::<T>(in_order::<T>(s + u), x, y);
    }
}

/// Runs of items that are all apart from one another sort alike in either order.
pub proof fn runs_commute<T: Placed>(s: Seq<T::V>, a: Seq<T::V>, b: Seq<T::V>)
    requires
        forall|i: int, j: int|
            0 <= i < a.len() && 0 <= j < b.len() ==> apart::<T>(#[trigger] a[i], #[trigger] b[j]),
    ensures
        in_order::<T>(s + a + b) == in_order::<T>(s + b + a),
    decreases a.len(),
{
    if a.len() == 0 {
        assert(s + a + b =~= s + b + a);
    } else {
        let c = a.drop_last();
        let x = a.last();
        assert forall|i: int, j: int| 0 <= i < c.len() && 0 <= j < b.len() implies apart::<T>(
            #[trigger] c[i],
            #[trigger] b[j],
        ) by {
            assert(c[i] == a[i]);
        }
        assert forall|j: int| 0 <= j < b.len() implies apart::<T>(x, #[trigger] b[j]) by {
            assert(apart::<T>(a[a.len() - 1], b[j]));
        }
        runs_commute::<T>(s, c, b);
        item_moves_past::<T>(s + c, x, b);
        in_order_goes_on::<T>(s + c + b, s + b + c, seq![x]);
        assert(s + a + b =~= (s + c).push(x) + b);
        assert(s + c + b + seq![x] =~= (s + c + b).push(x));
        assert(s + b + c + seq![x] =~= s + b + a);
    }
}

} // verus!
