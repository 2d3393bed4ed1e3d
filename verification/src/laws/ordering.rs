//! In which order results come.

use crate::engine::outline::Mode;
use crate::engine::syntactic::{resolutions_are_verbatim_and_ordered, Macros};
use crate::model::Resolution;
use crate::order::{
    belonging_place, in_order, inserted_where_it_belongs, place_before, Place, Placed,
};
use crate::paths::{
    components, parts_before, path_before, paths_are_ordered, same_path, PathPartView,
};
use crate::search::{search_keeps_to_cap, searched, Candidate, CandidateView};
use crate::sources::SourceFileView;
use crate::text::text_before;
use vstd::prelude::*;

verus! {

/// Do two lists of components agree in their first `i`, and does the first end there or
/// have the smaller component: by rank, then by name?
pub open spec fn parts_differ_below(a: Seq<PathPartView>, b: Seq<PathPartView>, i: int) -> bool {
    &&& 0 <= i <= a.len()
    &&& i < b.len()
    &&& a.take(i) == b.take(i)
    &&& i == a.len() || a[i].rank < b[i].rank || (a[i].rank == b[i].rank && text_before(
        a[i].name,
        b[i].name,
        0,
    ))
}

proof fn parts_before_where_they_differ(a: Seq<PathPartView>, b: Seq<PathPartView>, i: int)
    requires
        0 <= i <= a.len(),
        i <= b.len(),
        a.take(i) == b.take(i),
    ensures
        parts_before(a, b, i) ==> exists|j: int| #[trigger] parts_differ_below(a, b, j),
    decreases b.len() - i,
{
    if parts_before(a, b, i) {
        if i >= a.len() || a[i] != b[i] {
            assert(parts_differ_below(a, b, i));
        } else {
            assert(a.take(i + 1) =~= a.take(i).push(a[i]));
            assert(b.take(i + 1) =~= b.take(i).push(b[i]));
            parts_before_where_they_differ(a, b, i + 1);
        }
    }
}

proof fn differing_parts_come_before(a: Seq<PathPartView>, b: Seq<PathPartView>, i: int, j: int)
    requires
        0 <= i <= j,
        parts_differ_below(a, b, j),
    ensures
        parts_before(a, b, i),
    decreases j - i,
{
    if i < j {
        assert(a[i] == a.take(j)[i]);
        assert(b[i] == b.take(j)[i]);
        differing_parts_come_before(a, b, i + 1, j);
    } else if i < a.len() {
        if a[i] == b[i] {
            crate::text::text_before_asymmetric(a[i].name, b[i].name, 0);
        }
    }
}

/// One path comes before another where, after common components, it ends or has the
/// smaller one.
pub proof fn paths_are_ordered_by_their_first_difference(a: Seq<char>, b: Seq<char>)
    ensures
        path_before(a, b) <==> exists|i: int| #[trigger]
            parts_differ_below(components(a), components(b), i),
{
    let x = components(a);
    let y = components(b);
    assert(x.take(0) =~= y.take(0));
    parts_before_where_they_differ(x, y, 0);
    if exists|i: int| #[trigger] parts_differ_below(x, y, i) {
        let j = choose|i: int| #[trigger] parts_differ_below(x, y, i);
        differing_parts_come_before(x, y, 0, j);
    }
}

/// Does the file of `a` come no later than that of `b` and, in one file, position `i` no
/// later than `j`?
pub open spec fn comes_first(a: Seq<char>, i: int, b: Seq<char>, j: int) -> bool {
    path_before(a, b) || (same_path(a, b) && i <= j)
}

proof fn not_before_comes_first(a: Place, b: Place)
    requires
        !place_before(b, a),
    ensures
        comes_first(a.path, a.position, b.path, b.position),
{
    paths_are_ordered(a.path, b.path, a.path);
    paths_are_ordered(b.path, a.path, b.path);
}

/// Candidates come file by file in the order of paths, and in a file from its start to
/// its end.
pub proof fn candidates_ascend(
    files: Seq<SourceFileView>,
    target: Seq<char>,
    extensions: Seq<Seq<char>>,
    max: int,
    i: int,
    j: int,
)
    requires
        0 <= max,
        0 <= i < j < searched(files, target, extensions, max).candidates.len(),
    ensures
        ({
            let cs = searched(files, target, extensions, max).candidates;
            comes_first(
                cs[i].file_path,
                cs[i].byte_offset as int,
                cs[j].file_path,
                cs[j].byte_offset as int,
            )
        }),
{
    search_keeps_to_cap(files, target, extensions, max);
    let cs = searched(files, target, extensions, max).candidates;
    assert(!place_before(Candidate::place(cs[j]), Candidate::place(cs[i])));
    not_before_comes_first(Candidate::place(cs[i]), Candidate::place(cs[j]));
}

/// Resolutions come file by file in the order of paths, and in a file from its start to
/// its end.
pub proof fn resolutions_ascend(
    e: Macros,
    target: Seq<char>,
    candidates: Seq<CandidateView>,
    mode: Mode,
    files: Seq<SourceFileView>,
    i: int,
    j: int,
)
    requires
        0 <= i < j < e.resolved(target, candidates, mode, files).len(),
    ensures
        ({
            let rs = e.resolved(target, candidates, mode, files);
            comes_first(
                rs[i].source_ref.file_path,
                rs[i].source_ref.span.start_byte as int,
                rs[j].source_ref.file_path,
                rs[j].source_ref.span.start_byte as int,
            )
        }),
{
    resolutions_are_verbatim_and_ordered(e, target, candidates, mode, files);
    let rs = e.resolved(target, candidates, mode, files);
    assert(!place_before(Resolution::place(rs[j]), Resolution::place(rs[i])));
    not_before_comes_first(Resolution::place(rs[i]), Resolution::place(rs[j]));
}

/// Are two items at one place, neither before the other?
pub open spec fn same_place<T: Placed>(x: T::V, y: T::V) -> bool {
    !place_before(T::place(x), T::place(y)) && !place_before(T::place(y), T::place(x))
}

proof fn same_place_is_transitive<T: Placed>(x: T::V, y: T::V, z: T::V)
    requires
        same_place::<T>(x, y),
        same_place::<T>(y, z),
    ensures
        same_place::<T>(x, z),
{
    let (a, b, c) = (T::place(x), T::place(y), T::place(z));
    not_before_comes_first(a, b);
    not_before_comes_first(b, a);
    not_before_comes_first(b, c);
    not_before_comes_first(c, b);
    paths_are_ordered(a.path, b.path, c.path);
    paths_are_ordered(b.path, a.path, c.path);
    paths_are_ordered(b.path, c.path, a.path);
    paths_are_ordered(a.path, c.path, a.path);
    paths_are_ordered(c.path, a.path, a.path);
}

/// Sorting is stable: the items at one place stand in the order in which they stood.
pub proof fn sorting_is_stable<T: Placed>(s: Seq<T::V>, p: T::V)
    ensures
        in_order::<T>(s).filter(|x: T::V| same_place::<T>(x, p)) == s.filter(
            |x: T::V| same_place::<T>(x, p),
        ),
    decreases s.len(),
{
    let pick = |x: T::V| same_place::<T>(x, p);
    reveal(Seq::filter);
    if s.len() > 0 {
        let x = s.last();
        let head = in_order::<T>(s.drop_last());
        let n = head.len() as int;
        sorting_is_stable::<T>(s.drop_last(), p);
        let at = belonging_place::<T>(head, x, n);
        inserted_where_it_belongs::<T>(head, x, at, n);
        let a = head.take(at);
        let b = head.skip(at);
        assert(head.insert(at, x) =~= a + seq![x] + b);
        assert(head =~= a + b);
        Seq::filter_distributes_over_add(a, b, pick);
        Seq::filter_distributes_over_add(a + seq![x], b, pick);
        Seq::filter_distributes_over_add(a, seq![x], pick);
        let none = Seq::<T::V>::empty();
        assert(seq![x].drop_last() =~= none);
        assert(none.filter(pick) =~= none);
        assert(seq![x].last() == x);
        if pick(x) {
            assert(seq![x].filter(pick) =~= seq![x]);
            assert forall|j: int| 0 <= j < b.len() implies !pick(#[trigger] b[j]) by {
                assert(b[j] == head[at + j]);
                assert(place_before(T::place(x), T::place(head[at + j])));
                if pick(b[j]) {
                    assert(same_place::<T>(p, b[j]));
                    same_place_is_transitive::<T>(x, p, b[j]);
                }
            }
            b.lemma_all_neg_filter_empty(pick);
            assert(b.filter(pick) =~= none);
            assert(a.filter(pick) + seq![x] + none =~= (a.filter(pick) + none).push(x));
        } else {
            assert(seq![x].filter(pick) =~= none);
            assert(a.filter(pick) + none + b.filter(pick) =~= a.filter(pick) + b.filter(pick));
        }
    }
}

} // verus!
