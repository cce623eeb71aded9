//! Paths and reachability over an abstract edge relation, and the
//! decreasing measure of a worklist that expands each node at most once.
//! The dependency graph builder, the cycle check and the lowering walk all
//! reason with these.

use vstd::prelude::*;

verus! {

/// Every adjacent pair of the sequence is an edge.
pub open spec fn is_path<T>(edge: spec_fn(T, T) -> bool, p: Seq<T>) -> bool {
    forall|i: int| 0 <= i < p.len() - 1 ==> #[trigger] edge(p[i], p[i + 1])
}

/// Some path leads from `from` to `to`.
pub open spec fn reaches<T>(edge: spec_fn(T, T) -> bool, from: T, to: T) -> bool {
    exists|p: Seq<T>|
        #[trigger] is_path(edge, p) && p.len() >= 1 && p.first() == from && p.last() == to
}

/// A cycle lies on some path out of `start`: the path repeats a node.
pub open spec fn has_cycle_from<T>(edge: spec_fn(T, T) -> bool, start: T) -> bool {
    exists|p: Seq<T>|
        #[trigger] is_path(edge, p) && p.len() >= 1 && p.first() == start && exists|i: int, j: int|
            0 <= i < j < p.len() && p[i] == p[j]
}

/// Every node reaches itself.
pub proof fn lemma_reaches_refl<T>(edge: spec_fn(T, T) -> bool, x: T)
    ensures
        reaches(edge, x, x),
{
    let p = seq![x];
    assert(is_path(edge, p));
    assert(p.first() == x && p.last() == x);
}

/// Reachability extends along one edge.
pub proof fn lemma_reaches_step<T>(edge: spec_fn(T, T) -> bool, from: T, a: T, b: T)
    requires
        reaches(edge, from, a),
        edge(a, b),
    ensures
        reaches(edge, from, b),
{
    let p = choose|p: Seq<T>|
        #[trigger] is_path(edge, p) && p.len() >= 1 && p.first() == from && p.last() == a;
    let q = p.push(b);
    assert forall|i: int| 0 <= i < q.len() - 1 implies #[trigger] edge(q[i], q[i + 1]) by {
        if i < p.len() - 1 {
            assert(edge(p[i], p[i + 1]));
            assert(q[i] == p[i] && q[i + 1] == p[i + 1]);
        } else {
            assert(q[i] == p.last() && q[i + 1] == b);
        }
    }
    assert(is_path(edge, q));
    assert(q.first() == from && q.last() == b);
}

/// Every node of a path that starts inside an edge-closed set stays
/// inside it.
pub proof fn lemma_path_stays<T>(edge: spec_fn(T, T) -> bool, s: Set<T>, p: Seq<T>, k: int)
    requires
        is_path(edge, p),
        p.len() >= 1,
        s.contains(p.first()),
        forall|a: T, b: T| s.contains(a) && #[trigger] edge(a, b) ==> s.contains(b),
        0 <= k < p.len(),
    ensures
        s.contains(p[k]),
    decreases k,
{
    if k > 0 {
        lemma_path_stays(edge, s, p, k - 1);
        let i = k - 1;
        assert(edge(p[i], p[i + 1]));
        assert(p[i + 1] == p[k]);
    }
}

/// An edge-closed set that holds `from` holds everything `from` reaches.
pub proof fn lemma_reaches_closed<T>(edge: spec_fn(T, T) -> bool, s: Set<T>, from: T, to: T)
    requires
        s.contains(from),
        forall|a: T, b: T| s.contains(a) && #[trigger] edge(a, b) ==> s.contains(b),
        reaches(edge, from, to),
    ensures
        s.contains(to),
{
    let p = choose|p: Seq<T>|
        #[trigger] is_path(edge, p) && p.len() >= 1 && p.first() == from && p.last() == to;
    lemma_path_stays(edge, s, p, p.len() - 1);
}

/// A contiguous piece of a path is itself a path.
pub proof fn lemma_subpath<T>(edge: spec_fn(T, T) -> bool, p: Seq<T>, a: int, b: int)
    requires
        is_path(edge, p),
        0 <= a <= b <= p.len(),
    ensures
        is_path(edge, p.subrange(a, b)),
{
    let q = p.subrange(a, b);
    assert forall|i: int| 0 <= i < q.len() - 1 implies #[trigger] edge(q[i], q[i + 1]) by {
        assert(q[i] == p[a + i] && q[i + 1] == p[a + i + 1]);
        let ii = a + i;
        assert(edge(p[ii], p[ii + 1]));
    }
}

/// Two paths that meet across one edge join into one path.
pub proof fn lemma_path_concat<T>(edge: spec_fn(T, T) -> bool, p: Seq<T>, q: Seq<T>)
    requires
        is_path(edge, p),
        is_path(edge, q),
        p.len() >= 1,
        q.len() >= 1,
        edge(p.last(), q.first()),
    ensures
        is_path(edge, p + q),
{
    let r = p + q;
    assert forall|i: int| 0 <= i < r.len() - 1 implies #[trigger] edge(r[i], r[i + 1]) by {
        if i < p.len() - 1 {
            assert(r[i] == p[i] && r[i + 1] == p[i + 1]);
            assert(edge(p[i], p[i + 1]));
        } else if i == p.len() - 1 {
            assert(r[i] == p.last() && r[i + 1] == q.first());
        } else {
            let j = i - p.len();
            assert(r[i] == q[j] && r[i + 1] == q[j + 1]);
            assert(edge(q[j], q[j + 1]));
        }
    }
}

/// A cycle on some route out of `start` is the same thing as a node that
/// `start` reaches and that reaches itself again across one of its own
/// edges.
pub proof fn lemma_cycle_decomposition<T>(edge: spec_fn(T, T) -> bool, start: T)
    ensures
        has_cycle_from(edge, start) <==> exists|n: T, s: T|
            reaches(edge, start, n) && #[trigger] edge(n, s) && reaches(edge, s, n),
{
    if has_cycle_from(edge, start) {
        let p = choose|p: Seq<T>|
            #[trigger] is_path(edge, p) && p.len() >= 1 && p.first() == start && exists|
                i: int,
                j: int,
            |
                0 <= i < j < p.len() && p[i] == p[j];
        let (i, j) = choose|i: int, j: int| 0 <= i < j < p.len() && p[i] == p[j];
        let n = p[i];
        let s = p[i + 1];
        assert(edge(p[i], p[i + 1]));
        lemma_subpath(edge, p, 0, i + 1);
        let pre = p.subrange(0, i + 1);
        assert(pre.len() >= 1 && pre.first() == start && pre.last() == n);
        assert(reaches(edge, start, n));
        lemma_subpath(edge, p, i + 1, j + 1);
        let seg = p.subrange(i + 1, j + 1);
        assert(seg.len() >= 1 && seg.first() == s && seg.last() == p[j]);
        assert(p[j] == n);
        assert(reaches(edge, s, n));
    }
    if exists|n: T, s: T| reaches(edge, start, n) && #[trigger] edge(n, s) && reaches(edge, s, n) {
        let (n, s) = choose|n: T, s: T|
            reaches(edge, start, n) && #[trigger] edge(n, s) && reaches(edge, s, n);
        let p1 = choose|p: Seq<T>|
            #[trigger] is_path(edge, p) && p.len() >= 1 && p.first() == start && p.last() == n;
        let p2 = choose|p: Seq<T>|
            #[trigger] is_path(edge, p) && p.len() >= 1 && p.first() == s && p.last() == n;
        lemma_path_concat(edge, p1, p2);
        let p = p1 + p2;
        assert(p.first() == start);
        assert(p[p1.len() - 1] == n && p[p.len() - 1] == n);
        assert(0 <= p1.len() - 1 < p.len() - 1 < p.len());
        assert(p[p1.len() - 1] == p[p.len() - 1]);
        assert(is_path(edge, p) && p.len() >= 1 && p.first() == start);
        assert(has_cycle_from(edge, start));
    }
}

/// The weight row recorded for key `x`: the size of the last row with
/// that key, or zero when no row has it.
pub open spec fn row_weight<T>(rows: Seq<(T, nat)>, x: T) -> nat
    decreases rows.len(),
{
    if rows.len() == 0 {
        0
    } else if rows.last().0 == x {
        rows.last().1
    } else {
        row_weight(rows.drop_last(), x)
    }
}

/// Total weight of the rows whose key is not excluded: the variant of a
/// worklist that expands each key at most once.
pub open spec fn pending_weight<T>(rows: Seq<(T, nat)>, excluded: Set<T>) -> nat
    decreases rows.len(),
{
    if rows.len() == 0 {
        0
    } else {
        pending_weight(rows.drop_last(), excluded) + (if excluded.contains(rows.last().0) {
            0nat
        } else {
            rows.last().1
        })
    }
}

/// Excluding one more key lowers the pending weight by exactly that key's
/// row weight, provided the keys are distinct.
pub proof fn lemma_pending_weight_exclude<T>(rows: Seq<(T, nat)>, excluded: Set<T>, x: T)
    requires
        !excluded.contains(x),
        forall|i: int, j: int| 0 <= i < j < rows.len() ==> (#[trigger] rows[i]).0 != (#[trigger] rows[j]).0,
    ensures
        pending_weight(rows, excluded.insert(x)) + row_weight(rows, x) == pending_weight(
            rows,
            excluded,
        ),
    decreases rows.len(),
{
    if rows.len() > 0 {
        let rest = rows.drop_last();
        assert(forall|i: int, j: int|
            0 <= i < j < rest.len() ==> (#[trigger] rest[i]).0 != (#[trigger] rest[j]).0);
        if rows.last().0 == x {
            assert forall|i: int| 0 <= i < rest.len() implies (#[trigger] rest[i]).0 != x by {
                assert(rest[i] == rows[i]);
                assert(rows[i].0 != rows[rows.len() - 1].0);
            }
            lemma_pending_weight_same_excluded(rest, excluded, excluded.insert(x), x);
        } else {
            lemma_pending_weight_exclude(rest, excluded, x);
        }
    }
}

/// A key no row mentions weighs nothing.
pub proof fn lemma_row_weight_absent<T>(rows: Seq<(T, nat)>, x: T)
    requires
        forall|i: int| 0 <= i < rows.len() ==> (#[trigger] rows[i]).0 != x,
    ensures
        row_weight(rows, x) == 0,
    decreases rows.len(),
{
    if rows.len() > 0 {
        let rest = rows.drop_last();
        assert forall|i: int| 0 <= i < rest.len() implies (#[trigger] rest[i]).0 != x by {
            assert(rest[i] == rows[i]);
        }
        lemma_row_weight_absent(rest, x);
        assert(rows[rows.len() - 1].0 != x);
    }
}

/// With distinct keys, the weight recorded for a key is the size its row
/// carries.
pub proof fn lemma_row_weight_at<T>(rows: Seq<(T, nat)>, i: int)
    requires
        0 <= i < rows.len(),
        forall|a: int, b: int| 0 <= a < b < rows.len() ==> (#[trigger] rows[a]).0 != (#[trigger] rows[b]).0,
    ensures
        row_weight(rows, rows[i].0) == rows[i].1,
    decreases rows.len(),
{
    if i == rows.len() - 1 {
        assert(rows.last() == rows[i]);
    } else {
        assert(rows[i].0 != rows[rows.len() - 1].0);
        let rest = rows.drop_last();
        assert(forall|a: int, b: int|
            0 <= a < b < rest.len() ==> (#[trigger] rest[a]).0 != (#[trigger] rest[b]).0);
        lemma_row_weight_at(rest, i);
        assert(rest[i] == rows[i]);
    }
}

/// Rows that never mention `x` weigh the same whether or not `x` is
/// excluded.
proof fn lemma_pending_weight_same_excluded<T>(
    rows: Seq<(T, nat)>,
    ex1: Set<T>,
    ex2: Set<T>,
    x: T,
)
    requires
        ex2 == ex1.insert(x),
        forall|i: int| 0 <= i < rows.len() ==> (#[trigger] rows[i]).0 != x,
    ensures
        pending_weight(rows, ex2) == pending_weight(rows, ex1),
        row_weight(rows, x) == 0,
    decreases rows.len(),
{
    if rows.len() > 0 {
        lemma_pending_weight_same_excluded(rows.drop_last(), ex1, ex2, x);
        assert(rows.last().0 != x);
    }
}

} // verus!
