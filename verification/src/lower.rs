//! The lowering engine: a reachability walk over the resolved reference
//! graph, starting from the entry-point binding. Every function reached is
//! emitted exactly once, recorded in a lowered set keyed by binding id;
//! later references reuse the emitted definition. Declarations the entry
//! point never reaches are not lowered, on purpose. External functions and
//! statics are never inserted into the lowered set: a reference to one
//! stays a linkage reference at every use site.

use vstd::prelude::*;
use std::collections::VecDeque;
use crate::ast::{DeclKind, Declaration, Stmt};
use crate::cache::Cache;
use crate::graphs::{
    lemma_pending_weight_exclude, lemma_reaches_closed, lemma_reaches_refl, lemma_reaches_step,
    lemma_row_weight_at, pending_weight, reaches, row_weight,
};
use crate::resolve::{table_edge, DeclRefs, Resolution, StmtRefs};
use crate::text::push_str;

verus! {

/// The IR line one statement lowers to: a call names its callee as a
/// symbol reference; a return closes the frame.
pub open spec fn stmt_line(s: Stmt) -> Seq<char> {
    match s {
        Stmt::Call(c, _) => "call @"@ + c@,
        Stmt::Return(_) => "ret"@,
    }
}

/// The emitted code matches the body, line by line.
pub open spec fn lines_ok(body: Seq<Stmt>, code: Seq<String>) -> bool {
    &&& code.len() == body.len()
    &&& forall|s: int| 0 <= s < body.len() ==> (#[trigger] code[s])@ == stmt_line(body[s])
}

/// The body of a declaration; empty for declarations without one.
pub open spec fn decl_body(d: Declaration) -> Seq<Stmt> {
    match d.kind {
        DeclKind::Function(f) => f.body@,
        _ => Seq::empty(),
    }
}

/// The edge relation of the lowering walk: a recorded reference between
/// two valid binding ids.
pub open spec fn lower_edge(rows: Seq<DeclRefs>, n: nat) -> spec_fn(usize, usize) -> bool {
    |a: usize, b: usize| table_edge(rows, a, b) && (b as nat) < n
}

/// Binding `t` is reachable from the entry point over recorded references.
pub open spec fn reachable_binding(rows: Seq<DeclRefs>, n: nat, entry: usize, t: usize) -> bool {
    reaches(lower_edge(rows, n), entry, t)
}

/// One emitted definition: the binding it came from, its symbol name, and
/// its code, one line per statement.
pub struct IrDef {
    pub binding: usize,
    pub symbol: String,
    pub code: Vec<String>,
}

/// The emitted IR artifact: the definitions of every function reachable
/// from the entry point, each exactly once.
pub struct Artifact {
    pub defs: Vec<IrDef>,
}

/// What lowering guarantees of its artifact: definitions come only from
/// reachable function bindings, faithfully, and at most once per binding;
/// and every reachable function binding has its definition.
pub open spec fn artifact_ok(
    ds: Seq<Declaration>,
    rows: Seq<DeclRefs>,
    entry: usize,
    a: Artifact,
) -> bool {
    &&& forall|x: int, y: int|
        0 <= x < y < a.defs@.len() ==> (#[trigger] a.defs@[x]).binding != (#[trigger] a.defs@[y]).binding
    &&& forall|x: int|
        0 <= x < a.defs@.len() ==> {
            let d = #[trigger] a.defs@[x];
            &&& (d.binding as nat) < ds.len()
            &&& ds[d.binding as int].kind is Function
            &&& reachable_binding(rows, ds.len(), entry, d.binding)
            &&& d.symbol@ == ds[d.binding as int].name@
            &&& lines_ok(decl_body(ds[d.binding as int]), d.code@)
        }
    &&& forall|t: usize|
        (t as nat) < ds.len() && ds[t as int].kind is Function && reachable_binding(
            rows,
            ds.len(),
            entry,
            t,
        ) ==> exists|x: int| 0 <= x < a.defs@.len() && (#[trigger] a.defs@[x]).binding == t
}

/// Lowers one body to its code lines.
fn lower_lines(body: &Vec<Stmt>) -> (code: Vec<String>)
    ensures
        lines_ok(body@, code@),
{
    let mut code: Vec<String> = Vec::new();
    let mut s: usize = 0;
    while s < body.len()
        invariant
            0 <= s <= body@.len(),
            code@.len() == s,
            forall|x: int| 0 <= x < s ==> (#[trigger] code@[x])@ == stmt_line(body@[x]),
        decreases body@.len() - s,
    {
        match &body[s] {
            Stmt::Call(c, _) => {
                let mut l = "call @".to_owned();
                push_str(&mut l, c.as_str());
                code.push(l);
            },
            Stmt::Return(_) => {
                code.push("ret".to_owned());
            },
        }
        s += 1;
    }
    code
}

/// The lowered set as a set of binding ids.
pub open spec fn flags_set(v: Seq<bool>) -> Set<usize> {
    Set::new(|t: usize| (t as int) < v.len() && v[t as int])
}

/// The number of reference slots in the first `s` statement rows: each
/// statement holds one callee slot plus one slot per expression.
pub open spec fn slot_count_upto(dr: DeclRefs, s: int) -> nat
    decreases s,
{
    if s <= 0 {
        0
    } else {
        slot_count_upto(dr, s - 1) + 1 + dr.stmts@[s - 1].exprs@.len()
    }
}

/// The number of reference slots a declaration's row holds.
pub open spec fn slot_count(dr: DeclRefs) -> nat {
    slot_count_upto(dr, dr.stmts@.len() as int)
}

/// The worklist weight rows: one row per binding id, weighing its slots.
pub open spec fn id_rows(rows: Seq<DeclRefs>) -> Seq<(usize, nat)> {
    Seq::new(rows.len(), |i: int| (i as usize, slot_count(rows[i])))
}

/// A binding `t` covered by the walk: already lowered or still queued.
pub open spec fn covered(visited: Seq<bool>, q: Seq<usize>, t: usize) -> bool {
    ||| ((t as int) < visited.len() && visited[t as int])
    ||| exists|qi: int| 0 <= qi < q.len() && q[qi] == t
}

/// Covered bindings stay covered when the queue grows at its back.
proof fn lemma_covered_extend(visited: Seq<bool>, q1: Seq<usize>, q2: Seq<usize>, b: usize)
    requires
        covered(visited, q1, b),
        q2.len() >= q1.len(),
        forall|i: int| 0 <= i < q1.len() ==> q2[i] == q1[i],
    ensures
        covered(visited, q2, b),
{
    if !((b as int) < visited.len() && visited[b as int]) {
        let qi = choose|qi: int| 0 <= qi < q1.len() && q1[qi] == b;
        assert(q2[qi] == b);
    }
}

/// Covered bindings stay covered when the queue's head is popped into the
/// lowered set.
proof fn lemma_covered_shift(
    vis0: Seq<bool>,
    visited: Seq<bool>,
    q0: Seq<usize>,
    q: Seq<usize>,
    b: usize,
)
    requires
        covered(vis0, q0, b),
        visited.len() == vis0.len(),
        forall|i: int| 0 <= i < vis0.len() ==> (vis0[i] ==> visited[i]),
        q0.len() >= 1,
        (q0[0] as int) < visited.len() && visited[q0[0] as int],
        q.len() >= q0.len() - 1,
        forall|i: int| 0 <= i < q0.len() - 1 ==> q[i] == q0[i + 1],
    ensures
        covered(visited, q, b),
{
    if !((b as int) < vis0.len() && vis0[b as int]) {
        let qi = choose|qi: int| 0 <= qi < q0.len() && q0[qi] == b;
        if qi > 0 {
            assert(q[qi - 1] == b);
        }
    }
}

/// The lowering walk. Starts from the entry-point binding, lowers each
/// function the first time it is reached, records it in the lowered set,
/// and follows every recorded reference; a binding already in the lowered
/// set is never emitted again. The artifact holds exactly one definition
/// per reachable function and nothing else.
pub fn lower(cache: &Cache, res: &Resolution, entry: usize) -> (a: Artifact)
    requires
        res.decls@.len() == cache.decls@.len(),
        entry < cache.decls@.len(),
        cache.decls@[entry as int].kind is Function,
    ensures
        artifact_ok(cache.decls@, res.decls@, entry, a),
        a.defs@.len() >= 1,
{
    let ghost ds = cache.decls@;
    let ghost rows = res.decls@;
    let n = cache.decls.len();
    let ghost edge = lower_edge(rows, n as nat);
    let mut visited: Vec<bool> = Vec::new();
    let mut vi: usize = 0;
    while vi < n
        invariant
            0 <= vi <= n,
            visited@.len() == vi,
            forall|x: int| 0 <= x < vi ==> !(#[trigger] visited@[x]),
        decreases n - vi,
    {
        visited.push(false);
        vi += 1;
    }
    let mut queue: VecDeque<usize> = VecDeque::new();
    queue.push_back(entry);
    let mut defs: Vec<IrDef> = Vec::new();
    proof {
        lemma_reaches_refl(edge, entry);
        assert(flags_set(visited@) =~= Set::<usize>::empty());
        assert(queue@[0] == entry);
    }
    while queue.len() > 0
        invariant
            n == ds.len(),
            n == rows.len(),
            ds == cache.decls@,
            rows == res.decls@,
            edge == lower_edge(rows, n as nat),
            entry < n,
            ds[entry as int].kind is Function,
            visited@.len() == n,
            forall|qi: int|
                0 <= qi < queue@.len() ==> (#[trigger] queue@[qi]) < n && reaches(
                    edge,
                    entry,
                    queue@[qi],
                ),
            forall|v: int|
                0 <= v < n && visited@[v] ==> reaches(edge, entry, v as usize),
            covered(visited@, queue@, entry),
            forall|v: int, b: usize|
                0 <= v < n && visited@[v] && table_edge(rows, v as usize, b) && (b as nat) < n
                    ==> covered(visited@, queue@, b),
            forall|x: int, y: int|
                0 <= x < y < defs@.len() ==> (#[trigger] defs@[x]).binding != (#[trigger] defs@[y]).binding,
            forall|x: int|
                0 <= x < defs@.len() ==> {
                    let d = #[trigger] defs@[x];
                    &&& (d.binding as nat) < n
                    &&& visited@[d.binding as int]
                    &&& ds[d.binding as int].kind is Function
                    &&& d.symbol@ == ds[d.binding as int].name@
                    &&& lines_ok(decl_body(ds[d.binding as int]), d.code@)
                },
            forall|t: usize|
                (t as nat) < n && visited@[t as int] && ds[t as int].kind is Function
                    ==> exists|x: int| 0 <= x < defs@.len() && (#[trigger] defs@[x]).binding == t,
        decreases queue@.len() + pending_weight(id_rows(rows), flags_set(visited@)),
    {
        let ghost q0 = queue@;
        let ghost vis0 = visited@;
        let v = match queue.pop_front() {
            Some(v) => v,
            None => {
                proof {
                    assert(false);
                }
                0
            },
        };
        if visited[v] {
            // already lowered: reuse, never re-emit
            proof {
                assert(queue@.len() < q0.len());
                assert forall|b: usize| covered(vis0, q0, b) implies covered(
                    visited@,
                    queue@,
                    b,
                ) by {
                    lemma_covered_shift(vis0, visited@, q0, queue@, b);
                }
                assert(covered(vis0, q0, entry));
                assert(covered(visited@, queue@, entry));
                assert forall|v2: int, b: usize|
                    0 <= v2 < n && visited@[v2] && table_edge(rows, v2 as usize, b) && (b as nat)
                        < n implies covered(visited@, queue@, b) by {
                    assert(covered(vis0, q0, b));
                }
            }
            continue;
        }
        visited.set(v, true);
        proof {
            assert(flags_set(visited@) =~= flags_set(vis0).insert(v));
            assert(!flags_set(vis0).contains(v));
            assert forall|a: int, b: int|
                0 <= a < b < id_rows(rows).len() implies (#[trigger] id_rows(rows)[a]).0
                != (#[trigger] id_rows(rows)[b]).0 by {}
            lemma_pending_weight_exclude(id_rows(rows), flags_set(vis0), v);
            lemma_row_weight_at(id_rows(rows), v as int);
            assert(row_weight(id_rows(rows), v) == slot_count(rows[v as int]));
        }
        let ghost qbase = queue@;
        let ghost defs0 = defs@;
        match &cache.decls[v].kind {
            DeclKind::Function(f) => {
                let code = lower_lines(&f.body);
                let def = IrDef { binding: v, symbol: cache.decls[v].name.clone(), code };
                defs.push(def);
            },
            _ => {},
        }
        // follow every recorded reference of this binding
        let dr = &res.decls[v];
        let n_stmts = dr.stmts.len();
        let mut s: usize = 0;
        while s < n_stmts
            invariant
                n == ds.len(),
                n == rows.len(),
                rows == res.decls@,
                edge == lower_edge(rows, n as nat),
                v < n,
                visited@.len() == n,
                visited@[v as int],
                dr == &res.decls@[v as int],
                n_stmts == dr.stmts@.len(),
                0 <= s <= n_stmts,
                reaches(edge, entry, v),
                queue@.len() <= qbase.len() + slot_count_upto(rows[v as int], s as int),
                // queued items only ever grow
                forall|qi: int|
                    0 <= qi < qbase.len() ==> (#[trigger] queue@[qi]) == qbase[qi],
                queue@.len() >= qbase.len(),
                forall|qi: int|
                    0 <= qi < queue@.len() ==> (#[trigger] queue@[qi]) < n && reaches(
                        edge,
                        entry,
                        queue@[qi],
                    ),
                // slots of the statements already scanned are covered
                forall|x: int, b: usize|
                    0 <= x < s && #[trigger] crate::resolve::stmt_refs_to(dr.stmts@[x], b) && (b
                        as nat) < n ==> covered(visited@, queue@, b),
            decreases n_stmts - s,
        {
            let ghost qs = queue@;
            let sr = &dr.stmts[s];
            match sr.callee {
                Some(t) => {
                    if t < n {
                        queue.push_back(t);
                        proof {
                            lemma_reaches_step(edge, entry, v, t);
                            assert(queue@[qs.len() as int] == t);
                            assert(covered(visited@, queue@, t));
                        }
                    }
                },
                None => {},
            }
            let n_exprs = sr.exprs.len();
            let mut j: usize = 0;
            while j < n_exprs
                invariant
                    n == ds.len(),
                    n == rows.len(),
                    rows == res.decls@,
                    edge == lower_edge(rows, n as nat),
                    v < n,
                    visited@.len() == n,
                    visited@[v as int],
                    dr == &res.decls@[v as int],
                    s < dr.stmts@.len(),
                    sr == &dr.stmts@[s as int],
                    n_exprs == sr.exprs@.len(),
                    0 <= j <= n_exprs,
                    reaches(edge, entry, v),
                    queue@.len() <= qs.len() + 1 + j,
                    forall|qi: int|
                        0 <= qi < qs.len() ==> (#[trigger] queue@[qi]) == qs[qi],
                    queue@.len() >= qs.len(),
                    forall|qi: int|
                        0 <= qi < queue@.len() ==> (#[trigger] queue@[qi]) < n && reaches(
                            edge,
                            entry,
                            queue@[qi],
                        ),
                    // the callee slot of this statement is covered
                    (match sr.callee {
                        Some(t) => (t as nat) < n ==> covered(visited@, queue@, t),
                        None => true,
                    }),
                    // expression slots scanned so far are covered
                    forall|x: int, b: usize|
                        0 <= x < j && sr.exprs@[x] == Some(b) && (b as nat) < n ==> covered(
                            visited@,
                            queue@,
                            b,
                        ),
                decreases n_exprs - j,
            {
                let ghost qold = queue@;
                let slot = sr.exprs[j];
                match slot {
                    Some(t) => {
                        if t < n {
                            queue.push_back(t);
                            proof {
                                lemma_reaches_step(edge, entry, v, t);
                                assert(queue@[qold.len() as int] == t);
                            }
                        }
                    },
                    None => {},
                }
                proof {
                    assert forall|b2: usize| covered(visited@, qold, b2) implies covered(
                        visited@,
                        queue@,
                        b2,
                    ) by {
                        lemma_covered_extend(visited@, qold, queue@, b2);
                    }
                    assert forall|x: int, b: usize|
                        0 <= x < j + 1 && sr.exprs@[x] == Some(b) && (b as nat) < n implies covered(
                        visited@,
                        queue@,
                        b,
                    ) by {
                        if x < j {
                            assert(covered(visited@, qold, b));
                        } else {
                            assert(slot == Some(b));
                            assert(queue@[qold.len() as int] == b);
                        }
                    }
                }
                j += 1;
            }
            proof {
                assert forall|x: int, b: usize|
                    0 <= x < s + 1 && #[trigger] crate::resolve::stmt_refs_to(dr.stmts@[x], b)
                        && (b as nat) < n implies covered(visited@, queue@, b) by {
                    if x < s {
                        assert(covered(visited@, qs, b));
                        lemma_covered_extend(visited@, qs, queue@, b);
                    } else {
                        assert(dr.stmts@[x] == *sr);
                        if sr.callee == Some(b) {
                            assert(covered(visited@, queue@, b));
                        } else {
                            let jx = choose|jx: int|
                                0 <= jx < sr.exprs@.len() && sr.exprs@[jx] == Some(b);
                            assert(covered(visited@, queue@, b));
                        }
                    }
                }
                assert(slot_count_upto(rows[v as int], (s + 1) as int) == slot_count_upto(
                    rows[v as int],
                    s as int,
                ) + 1 + dr.stmts@[s as int].exprs@.len());
            }
            s += 1;
        }
        proof {
            // anything covered before the pop is still covered
            assert forall|b: usize| covered(vis0, q0, b) implies covered(
                visited@,
                queue@,
                b,
            ) by {
                assert(forall|i: int|
                    0 <= i < q0.len() - 1 ==> #[trigger] queue@[i] == qbase[i] && qbase[i] == q0[
                        i + 1
                    ]);
                lemma_covered_shift(vis0, visited@, q0, queue@, b);
            }
            assert(covered(vis0, q0, entry));
            assert(covered(visited@, queue@, entry));
            // the whole row of `v` is now covered, so the closure invariant
            // holds again for every lowered binding
            assert forall|v2: int, b: usize|
                0 <= v2 < n && visited@[v2] && table_edge(rows, v2 as usize, b) && (b as nat)
                    < n implies covered(visited@, queue@, b) by {
                if v2 == v as int {
                    let s2 = choose|s2: int|
                        0 <= s2 < rows[v as int].stmts@.len() && crate::resolve::stmt_refs_to(
                            #[trigger] rows[v as int].stmts@[s2],
                            b,
                        );
                    assert(covered(visited@, queue@, b));
                } else {
                    assert(vis0[v2]);
                    assert(covered(vis0, q0, b));
                }
            }
            // the emitted definitions still correspond to the lowered set
            assert forall|x: int, y: int|
                0 <= x < y < defs@.len() implies (#[trigger] defs@[x]).binding
                != (#[trigger] defs@[y]).binding by {
                if y < defs0.len() {
                } else {
                    assert(ds[v as int].kind is Function);
                    assert(defs@[y].binding == v);
                    assert(defs@[x] == defs0[x]);
                    assert(vis0[defs0[x].binding as int]);
                    assert(!vis0[v as int]);
                }
            }
            assert forall|t: usize|
                (t as nat) < n && visited@[t as int] && ds[t as int].kind is Function implies
                exists|x: int| 0 <= x < defs@.len() && (#[trigger] defs@[x]).binding == t by {
                if t == v {
                    assert(defs@[defs0.len() as int].binding == v);
                } else {
                    assert(vis0[t as int]);
                    let x = choose|x: int|
                        0 <= x < defs0.len() && (#[trigger] defs0[x]).binding == t;
                    assert(defs@[x].binding == t);
                }
            }
            assert(queue@.len() + pending_weight(id_rows(rows), flags_set(visited@)) < q0.len()
                + pending_weight(id_rows(rows), flags_set(vis0)));
        }
    }
    proof {
        // the queue is drained: the lowered set is closed under references
        // and holds the entry point, so it holds everything reachable
        let vset = flags_set(visited@);
        assert(vset.contains(entry));
        assert forall|a: usize, b: usize| vset.contains(a) && #[trigger] edge(a, b) implies vset
            .contains(b) by {
            assert(covered(visited@, queue@, b));
        }
        assert forall|t: usize|
            (t as nat) < n && ds[t as int].kind is Function && reachable_binding(
                rows,
                ds.len(),
                entry,
                t,
            ) implies exists|x: int| 0 <= x < defs@.len() && (#[trigger] defs@[x]).binding == t by {
            lemma_reaches_closed(edge, vset, entry, t);
            assert(visited@[t as int]);
        }
        assert(visited@[entry as int] && ds[entry as int].kind is Function);
        assert(defs@.len() >= 1);
    }
    Artifact { defs }
}

} // verus!
