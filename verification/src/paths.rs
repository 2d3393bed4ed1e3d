//! Paths as text, compared by their components.

use crate::text::{
    chars_of, comes_before, opt_view, pieces, same_str, split, substring_of, text_before,
    text_before_asymmetric, text_before_total, text_before_transitive, views,
};
use vstd::prelude::*;

verus! {

/// The leading `/` of an absolute path.
pub const ROOT: u8 = 0;

/// A leading `.`.
pub const CURRENT: u8 = 1;

/// A `..` anywhere.
pub const PARENT: u8 = 2;

/// Any other component.
pub const NORMAL: u8 = 3;

/// A component of a path: its class, and its name where the class is
/// [`NORMAL`].
pub struct PathPart {
    pub rank: u8,
    pub name: String,
}

/// The mathematical value of a [`PathPart`].
pub struct PathPartView {
    pub rank: u8,
    pub name: Seq<char>,
}

impl View for PathPart {
    type V = PathPartView;

    open spec fn view(&self) -> PathPartView {
        PathPartView { rank: self.rank, name: self.name@ }
    }
}

/// The component that the piece at `index` between slashes stands for. An empty
/// piece, and a `.` that does not lead the path, stands for none.
pub open spec fn part_of(piece: Seq<char>, index: int) -> Option<PathPartView> {
    if piece.len() == 0 {
        None
    } else if piece == "."@ {
        if index == 0 {
            Some(PathPartView { rank: CURRENT, name: Seq::empty() })
        } else {
            None
        }
    } else if piece == ".."@ {
        Some(PathPartView { rank: PARENT, name: Seq::empty() })
    } else {
        Some(PathPartView { rank: NORMAL, name: piece })
    }
}

pub open spec fn parts_of(ps: Seq<Seq<char>>) -> Seq<PathPartView>
    decreases ps.len(),
{
    if ps.len() == 0 {
        Seq::empty()
    } else {
        let head = parts_of(ps.drop_last());
        match part_of(ps.last(), ps.len() - 1) {
            Some(p) => head.push(p),
            None => head,
        }
    }
}

/// The components of a path.
pub open spec fn components(path: Seq<char>) -> Seq<PathPartView> {
    let rest = parts_of(pieces(path, '/', 0));
    if path.len() > 0 && path[0] == '/' {
        seq![PathPartView { rank: ROOT, name: Seq::empty() }] + rest
    } else {
        rest
    }
}

/// Do two paths have the same components?
pub open spec fn same_path(a: Seq<char>, b: Seq<char>) -> bool {
    components(a) == components(b)
}

pub open spec fn part_before(a: PathPartView, b: PathPartView) -> bool {
    a.rank < b.rank || (a.rank == b.rank && text_before(a.name, b.name, 0))
}

pub open spec fn parts_before(a: Seq<PathPartView>, b: Seq<PathPartView>, i: int) -> bool
    decreases b.len() - i,
{
    if i >= b.len() {
        false
    } else if i >= a.len() {
        true
    } else if a[i] != b[i] {
        part_before(a[i], b[i])
    } else {
        parts_before(a, b, i + 1)
    }
}

/// Does path `a` come before path `b`, component by component?
pub open spec fn path_before(a: Seq<char>, b: Seq<char>) -> bool {
    parts_before(components(a), components(b), 0)
}

/// The components of a path.
pub fn components_of(path: &str) -> (r: Vec<PathPart>)
    ensures
        views(r@) == components(path@),
{
    let ps = split(path, '/');
    let c = chars_of(path);
    let mut out: Vec<PathPart> = Vec::new();
    let rooted = c.len() > 0 && c[0] == '/';
    if rooted {
        out.push(PathPart { rank: ROOT, name: String::new() });
    }
    let ghost lead = views(out@);
    assert(rooted ==> lead =~= seq![PathPartView { rank: ROOT, name: Seq::empty() }]);
    let ghost all = pieces(path@, '/', 0);
    let mut i: usize = 0;
    assert(all.take(0) =~= Seq::empty());
    while i < ps.len()
        invariant
            i <= ps@.len(),
            views(ps@) == all,
            views(out@) =~= lead + parts_of(all.take(i as int)),
        decreases ps@.len() - i,
    {
        let ghost before = views(out@);
        let p = &ps[i];
        assert(p@ == all[i as int]);
        if chars_of(p).len() == 0 {
        } else if same_str(p, ".") {
            if i == 0 {
                out.push(PathPart { rank: CURRENT, name: String::new() });
                assert(views(out@) =~= before.push(PathPartView { rank: CURRENT, name: Seq::empty() }));
            }
        } else if same_str(p, "..") {
            out.push(PathPart { rank: PARENT, name: String::new() });
            assert(views(out@) =~= before.push(PathPartView { rank: PARENT, name: Seq::empty() }));
        } else {
            out.push(PathPart { rank: NORMAL, name: p.clone() });
            assert(views(out@) =~= before.push(PathPartView { rank: NORMAL, name: p@ }));
        }
        i += 1;
        assert(all.take(i as int).drop_last() =~= all.take(i - 1));
        assert(all.take(i as int).last() == all[i - 1]);
    }
    assert(all.take(i as int) =~= all);
    assert(rooted ==> views(out@) =~= seq![PathPartView { rank: ROOT, name: Seq::empty() }] + parts_of(
        all,
    ));
    assert(!rooted ==> views(out@) =~= parts_of(all));
    out
}

fn same_part(a: &PathPart, b: &PathPart) -> (r: bool)
    ensures
        r == (a@ == b@),
{
    a.rank == b.rank && same_str(&a.name, &b.name)
}

/// Do two paths have the same components?
pub fn is_same_path(a: &str, b: &str) -> (r: bool)
    ensures
        r == same_path(a@, b@),
{
    if same_str(a, b) {
        return true;
    }
    let x = components_of(a);
    let y = components_of(b);
    let ghost p = components(a@);
    let ghost q = components(b@);
    if x.len() != y.len() {
        assert(p.len() != q.len());
        return false;
    }
    let mut i: usize = 0;
    while i < x.len()
        invariant
            i <= x@.len(),
            x@.len() == y@.len(),
            views(x@) == p,
            views(y@) == q,
            p == components(a@),
            q == components(b@),
            forall|k: int| 0 <= k < i ==> p[k] == q[k],
        decreases x@.len() - i,
    {
        assert(p[i as int] == x@[i as int]@ && q[i as int] == y@[i as int]@);
        if !same_part(&x[i], &y[i]) {
            return false;
        }
        i += 1;
    }
    assert(p =~= q);
    true
}

/// Does path `a` come before path `b`, component by component?
pub fn is_path_before(a: &str, b: &str) -> (r: bool)
    ensures
        r == path_before(a@, b@),
{
    let x = components_of(a);
    let y = components_of(b);
    let ghost p = components(a@);
    let ghost q = components(b@);
    let mut i: usize = 0;
    while i < y.len() && i < x.len() && same_part(&x[i], &y[i])
        invariant
            i <= x@.len(),
            i <= y@.len(),
            views(x@) == p,
            views(y@) == q,
            parts_before(p, q, i as int) == parts_before(p, q, 0),
        decreases x@.len() - i,
    {
        assert(p[i as int] == x@[i as int]@ && q[i as int] == y@[i as int]@);
        i += 1;
    }
    assert(p.len() == x@.len() && q.len() == y@.len());
    if i >= y.len() {
        false
    } else if i >= x.len() {
        true
    } else {
        assert(p[i as int] == x@[i as int]@ && q[i as int] == y@[i as int]@);
        x[i].rank < y[i].rank || (x[i].rank == y[i].rank && comes_before(&x[i].name, &y[i].name))
    }
}

/// Is one of the paths the same as `path`?
pub open spec fn has_path(paths: Seq<Seq<char>>, path: Seq<char>) -> bool {
    exists|k: int| 0 <= k < paths.len() && same_path(#[trigger] paths[k], path)
}

/// Is one of the paths the same as `path`?
pub fn is_listed(paths: &Vec<String>, path: &str) -> (r: bool)
    ensures
        r == has_path(views(paths@), path@),
{
    let mut k: usize = paths.len();
    while k > 0
        invariant
            k <= paths@.len(),
            forall|m: int| k <= m < paths@.len() ==> !same_path(#[trigger] views(paths@)[m], path@),
        decreases k,
    {
        k -= 1;
        assert(views(paths@)[k as int] == paths@[k as int]@);
        if is_same_path(&paths[k], path) {
            return true;
        }
    }
    assert(views(paths@).len() == paths@.len());
    false
}

/// The position of the last dot among the first `e` characters.
pub open spec fn last_dot(name: Seq<char>, e: int) -> Option<int>
    decreases e,
{
    if e <= 0 {
        None
    } else if name[e - 1] == '.' {
        Some(e - 1)
    } else {
        last_dot(name, e - 1)
    }
}

/// The extension of a path: what follows the last dot of its file name, unless
/// that dot leads the name.
pub open spec fn extension(path: Seq<char>) -> Option<Seq<char>> {
    let parts = components(path);
    if parts.len() > 0 && parts.last().rank == NORMAL {
        let name = parts.last().name;
        match last_dot(name, name.len() as int) {
            Some(i) if i > 0 => Some(name.skip(i + 1)),
            _ => None,
        }
    } else {
        None
    }
}

/// The extension of a path.
pub fn extension_of(path: &str) -> (r: Option<String>)
    ensures
        opt_view(r) == extension(path@),
{
    let parts = components_of(path);
    let ghost ps = components(path@);
    assert(ps.len() == parts@.len());
    if parts.len() == 0 {
        return None;
    }
    let last = &parts[parts.len() - 1];
    assert(ps.last() == last@);
    if last.rank != NORMAL {
        return None;
    }
    let name = chars_of(&last.name);
    let mut e: usize = name.len();
    while e > 0 && name[e - 1] != '.'
        invariant
            e <= name@.len(),
            last_dot(name@, e as int) == last_dot(name@, name@.len() as int),
        decreases e,
    {
        e -= 1;
    }
    if e <= 1 {
        return None;
    }
    assert(name@.subrange(e as int, name@.len() as int) =~= name@.skip(e as int));
    Some(substring_of(&name, e, name.len()))
}

// ---------------------------------------------------------------------------
// The order of paths
// ---------------------------------------------------------------------------

proof fn parts_before_asymmetric(a: Seq<PathPartView>, b: Seq<PathPartView>, i: int)
    requires
        0 <= i,
        parts_before(a, b, i),
    ensures
        !parts_before(b, a, i),
    decreases b.len() - i,
{
    if i < b.len() && i < a.len() {
        if a[i] == b[i] {
            parts_before_asymmetric(a, b, i + 1);
        } else if a[i].rank == b[i].rank {
            text_before_asymmetric(a[i].name, b[i].name, 0);
        }
    }
}

proof fn parts_before_transitive(
    a: Seq<PathPartView>,
    b: Seq<PathPartView>,
    c: Seq<PathPartView>,
    i: int,
)
    requires
        0 <= i,
        parts_before(a, b, i),
        parts_before(b, c, i),
    ensures
        parts_before(a, c, i),
    decreases b.len() - i,
{
    if i < a.len() && i < b.len() && i < c.len() {
        if a[i] == b[i] && b[i] == c[i] {
            parts_before_transitive(a, b, c, i + 1);
        } else if a[i].rank == b[i].rank && b[i].rank == c[i].rank && a[i] != b[i] && b[i] != c[i] {
            text_before_transitive(a[i].name, b[i].name, c[i].name, 0);
            if a[i] == c[i] {
                text_before_asymmetric(a[i].name, b[i].name, 0);
            }
        }
    }
}

proof fn parts_before_total(a: Seq<PathPartView>, b: Seq<PathPartView>, i: int)
    requires
        0 <= i <= a.len(),
        i <= b.len(),
        a.take(i) == b.take(i),
        !parts_before(a, b, i),
        !parts_before(b, a, i),
    ensures
        a == b,
    decreases b.len() - i,
{
    if i < a.len() && i < b.len() {
        if a[i] != b[i] {
            assert(a[i].name.take(0) =~= b[i].name.take(0));
            text_before_total(a[i].name, b[i].name, 0);
            assert(false);
        } else {
            assert(a.take(i + 1) =~= a.take(i).push(a[i]));
            assert(b.take(i + 1) =~= b.take(i).push(b[i]));
            parts_before_total(a, b, i + 1);
        }
    } else {
        assert(a =~= a.take(i));
        assert(b =~= b.take(i));
    }
}

/// Paths are totally ordered: of two paths exactly one comes first, unless they
/// have the same components, and the order is transitive.
pub proof fn paths_are_ordered(a: Seq<char>, b: Seq<char>, c: Seq<char>)
    ensures
        path_before(a, b) ==> !path_before(b, a),
        path_before(a, b) && path_before(b, c) ==> path_before(a, c),
        same_path(a, b) <==> !path_before(a, b) && !path_before(b, a),
{
    let (x, y, z) = (components(a), components(b), components(c));
    if path_before(a, b) {
        parts_before_asymmetric(x, y, 0);
        if path_before(b, c) {
            parts_before_transitive(x, y, z, 0);
        }
    }
    if path_before(b, a) {
        parts_before_asymmetric(y, x, 0);
    }
    if !path_before(a, b) && !path_before(b, a) {
        assert(x.take(0) =~= y.take(0));
        parts_before_total(x, y, 0);
    }
    if same_path(a, b) && path_before(a, b) {
        parts_before_asymmetric(x, y, 0);
    }
}

} // verus!
