//! The dependency graph builder: turns a root manifest plus the
//! transitively referenced dependency manifests into a name-to-
//! dependencies adjacency map, detects cycles, and finds the most
//! referenced package. Reading manifests from disk is the caller's
//! business: the builder walks a `ManifestStore` the caller filled.

use vstd::prelude::*;
use std::collections::VecDeque;
use vstd::hash_map::StringHashMap;
use crate::graphs::{
    has_cycle_from, lemma_cycle_decomposition, lemma_pending_weight_exclude,
    lemma_reaches_closed, lemma_reaches_refl, lemma_reaches_step, lemma_row_weight_at,
    pending_weight, reaches, row_weight,
};
use crate::package::{clone_names, Manifest, ManifestStore, PackageType};
use crate::text::join3;

verus! {

/// The character-sequence views of a sequence of names.
pub open spec fn seq_names(v: Seq<String>) -> Seq<Seq<char>> {
    v.map_values(|s: String| s@)
}

/// The adjacency map of one build: for every reachable package name, the
/// ordered list of names it depends on. The name list remembers insertion
/// order, so iteration is deterministic.
pub struct DependencyGraph {
    pub names: Vec<String>,
    pub map: StringHashMap<Vec<String>>,
}

/// The edge relation of a dependency graph: package `a` names `b` among
/// its dependencies.
pub open spec fn graph_edge(m: Map<Seq<char>, Vec<String>>) -> spec_fn(Seq<char>, Seq<char>) -> bool {
    |a: Seq<char>, b: Seq<char>| m.contains_key(a) && seq_names(m[a]@).contains(b)
}

impl DependencyGraph {
    /// Well-formed: the name list carries each stored key exactly once.
    pub open spec fn wf(self) -> bool {
        &&& forall|i: int, j: int|
            0 <= i < j < self.names@.len() ==> self.names@[i]@ != self.names@[j]@
        &&& forall|i: int|
            0 <= i < self.names@.len() ==> #[trigger] self.map@.contains_key(self.names@[i]@)
        &&& forall|n: Seq<char>|
            self.map@.contains_key(n) ==> exists|i: int|
                0 <= i < self.names@.len() && #[trigger] self.names@[i]@ == n
    }

    /// An empty graph.
    pub fn new() -> (g: DependencyGraph)
        ensures
            g.wf(),
            g.map@ == Map::<Seq<char>, Vec<String>>::empty(),
            g.names@.len() == 0,
    {
        DependencyGraph { names: Vec::new(), map: StringHashMap::new() }
    }

    /// Whether a package is recorded in the graph.
    pub fn contains(&self, name: &str) -> (r: bool)
        ensures
            r == self.map@.contains_key(name@),
    {
        self.map.contains_key(name)
    }

    /// The recorded dependency list of a package.
    pub fn get(&self, name: &str) -> (r: Option<&Vec<String>>)
        ensures
            match r {
                Some(v) => self.map@.contains_key(name@) && *v == self.map@[name@],
                None => !self.map@.contains_key(name@),
            },
    {
        self.map.get(name)
    }

    /// Records one package's dependency list.
    pub fn insert(&mut self, name: String, deps: Vec<String>)
        requires
            old(self).wf(),
            !old(self).map@.contains_key(name@),
        ensures
            final(self).wf(),
            final(self).map@ == old(self).map@.insert(name@, deps),
            final(self).names@ == old(self).names@.push(name),
    {
        let ghost n = name@;
        self.names.push(name.clone());
        self.map.insert(name, deps);
        proof {
            assert forall|k: Seq<char>| self.map@.contains_key(k) implies exists|i: int|
                0 <= i < self.names@.len() && #[trigger] self.names@[i]@ == k by {
                if k == n {
                    assert(self.names@[self.names@.len() - 1]@ == k);
                } else {
                    let i = choose|i: int|
                        0 <= i < old(self).names@.len() && #[trigger] old(self).names@[i]@ == k;
                    assert(self.names@[i]@ == k);
                }
            }
        }
    }
}

/// The size of the dependency list recorded at position `i`.
pub open spec fn row_len(g: DependencyGraph, i: int) -> nat {
    g.map@[g.names@[i]@]@.len()
}

/// Package `a` names `b` among its dependencies.
pub open spec fn has_edge(m: Map<Seq<char>, Vec<String>>, a: Seq<char>, b: Seq<char>) -> bool {
    m.contains_key(a) && seq_names(m[a]@).contains(b)
}


/// The termination rows of a graph walk: each package weighs as many
/// steps as its dependency list is long.
pub open spec fn weight_rows(g: DependencyGraph) -> Seq<(Seq<char>, nat)> {
    Seq::new(g.names@.len(), |i: int| (g.names@[i]@, row_len(g, i)))
}

/// A name waits somewhere in the frontier.
pub open spec fn in_queue(q: Seq<String>, w: Seq<char>) -> bool {
    exists|qi: int| 0 <= qi < q.len() && (#[trigger] q[qi])@ == w
}

/// Some seed of the list reaches `w` in the graph.
pub open spec fn seed_reaches(
    m: Map<Seq<char>, Vec<String>>,
    seeds: Seq<String>,
    w: Seq<char>,
) -> bool {
    exists|k: int| 0 <= k < seeds.len() && reaches(graph_edge(m), (#[trigger] seeds[k])@, w)
}

/// The names a seed list reaches in a graph: a set for membership tests
/// plus the list of its members for iteration.
pub struct ReachableNames {
    pub names: Vec<String>,
    pub set: vstd::hash_set::StringHashSet,
}

impl ReachableNames {
    /// Well-formed: the name list carries each member exactly once.
    pub open spec fn wf(self) -> bool {
        &&& forall|i: int, j: int|
            0 <= i < j < self.names@.len() ==> self.names@[i]@ != self.names@[j]@
        &&& forall|i: int|
            0 <= i < self.names@.len() ==> #[trigger] self.set@.contains(self.names@[i]@)
        &&& forall|w: Seq<char>|
            self.set@.contains(w) ==> exists|i: int|
                0 <= i < self.names@.len() && #[trigger] self.names@[i]@ == w
    }
}

/// Collects every name the seed list reaches: breadth-first with
/// deduplication, so each name is expanded at most once and termination
/// follows from the graph's total dependency count.
#[verifier::rlimit(60)]
fn closure_from(graph: &DependencyGraph, seeds: &Vec<String>) -> (r: ReachableNames)
    requires
        graph.wf(),
    ensures
        r.wf(),
        forall|w: Seq<char>|
            #[trigger] r.set@.contains(w) <==> seed_reaches(graph.map@, seeds@, w),
{
    let ghost m = graph.map@;
    let ghost edge = graph_edge(m);
    let ghost sv = seeds@;
    let mut order: Vec<String> = Vec::new();
    let mut visited = vstd::hash_set::StringHashSet::new();
    let mut queue: VecDeque<String> = VecDeque::new();
    let mut k: usize = 0;
    while k < seeds.len()
        invariant
            sv == seeds@,
            0 <= k <= sv.len(),
            queue@.len() == k,
            forall|x: int| 0 <= x < k ==> (#[trigger] queue@[x])@ == sv[x]@,
        decreases sv.len() - k,
    {
        queue.push_back(seeds[k].clone());
        k += 1;
    }
    proof {
        assert forall|qi: int| 0 <= qi < queue@.len() implies seed_reaches(
            m,
            sv,
            (#[trigger] queue@[qi])@,
        ) by {
            lemma_reaches_refl(edge, sv[qi]@);
            assert(reaches(edge, (sv[qi])@, queue@[qi]@));
        }
        assert forall|x: int| 0 <= x < sv.len() implies gcovered(
            visited@,
            queue@,
            (#[trigger] sv[x])@,
        ) by {
            assert(queue@[x]@ == sv[x]@);
        }
    }
    while queue.len() > 0
        invariant
            graph.wf(),
            m == graph.map@,
            edge == graph_edge(m),
            sv == seeds@,
            forall|a: Seq<char>, b: Seq<char>| #[trigger] edge(a, b) == has_edge(m, a, b),
            // the order list mirrors the visited set
            forall|i: int, j: int|
                0 <= i < j < order@.len() ==> (#[trigger] order@[i])@ != (#[trigger] order@[j])@,
            forall|i: int| 0 <= i < order@.len() ==> #[trigger] visited@.contains(order@[i]@),
            forall|w: Seq<char>|
                visited@.contains(w) ==> exists|i: int|
                    0 <= i < order@.len() && (#[trigger] order@[i])@ == w,
            // everything seen came from a seed
            forall|qi: int|
                0 <= qi < queue@.len() ==> seed_reaches(m, sv, (#[trigger] queue@[qi])@),
            forall|w: Seq<char>| #[trigger] visited@.contains(w) ==> seed_reaches(m, sv, w),
            // a visited name's dependencies are visited or still waiting
            forall|u: Seq<char>, b: Seq<char>|
                visited@.contains(u) && #[trigger] has_edge(m, u, b) ==> gcovered(
                    visited@,
                    queue@,
                    b,
                ),
            forall|x: int| 0 <= x < sv.len() ==> gcovered(visited@, queue@, (#[trigger] sv[x])@),
        decreases queue@.len() + pending_weight(weight_rows(*graph), visited@),
    {
        let ghost q0 = queue@;
        let ghost vis0 = visited@;
        let n = match queue.pop_front() {
            Some(v) => v,
            None => {
                proof {
                    assert(false);
                }
                String::new()
            },
        };
        if visited.contains(n.as_str()) {
            // already expanded: deduplication
            proof {
                assert forall|b: Seq<char>| gcovered(vis0, q0, b) implies gcovered(
                    visited@,
                    queue@,
                    b,
                ) by {
                    if !vis0.contains(b) {
                        let qi = choose|qi: int| 0 <= qi < q0.len() && (#[trigger] q0[qi])@ == b;
                        if qi == 0 {
                            assert(vis0.contains(b));
                        } else {
                            assert(queue@[qi - 1]@ == b);
                        }
                    }
                }
            }
            continue;
        }
        let ghost ord0 = order@;
        visited.insert(n.clone());
        order.push(n.clone());
        proof {
            assert(visited@ =~= vis0.insert(n@));
            assert(order@ == ord0.push(n));
            assert forall|i: int, j: int|
                0 <= i < j < weight_rows(*graph).len() implies (#[trigger] weight_rows(*graph)[i]).0
                != (#[trigger] weight_rows(*graph)[j]).0 by {}
            lemma_pending_weight_exclude(weight_rows(*graph), vis0, n@);
            // the order list gains exactly the newly visited name
            assert forall|w: Seq<char>| visited@.contains(w) implies exists|i: int|
                0 <= i < order@.len() && (#[trigger] order@[i])@ == w by {
                if w == n@ {
                    assert(order@[order@.len() - 1]@ == w);
                } else {
                    assert(vis0.contains(w));
                    let i = choose|i: int| 0 <= i < ord0.len() && (#[trigger] ord0[i])@ == w;
                    assert(order@[i]@ == w);
                }
            }
        }
        let ghost qbase = queue@;
        match graph.map.get(n.as_str()) {
            Some(deps) => {
                let ghost si = choose|i: int|
                    0 <= i < graph.names@.len() && #[trigger] graph.names@[i]@ == n@;
                proof {
                    lemma_row_weight_at(weight_rows(*graph), si);
                    assert(weight_rows(*graph)[si] == (n@, row_len(*graph, si)));
                    assert(row_weight(weight_rows(*graph), n@) == row_len(*graph, si));
                    assert(deps@ == m[n@]@);
                }
                let n_deps = deps.len();
                let mut x: usize = 0;
                while x < n_deps
                    invariant
                        graph.wf(),
                        m == graph.map@,
                        edge == graph_edge(m),
                        sv == seeds@,
                        forall|a: Seq<char>, b: Seq<char>| #[trigger] edge(a, b) == has_edge(
                            m,
                            a,
                            b,
                        ),
                        m.contains_key(n@),
                        deps@ == m[n@]@,
                        n_deps == deps@.len(),
                        0 <= x <= n_deps,
                        visited@.contains(n@),
                        seed_reaches(m, sv, n@),
                        queue@.len() == qbase.len() + x,
                        forall|qi: int| 0 <= qi < qbase.len() ==> queue@[qi] == qbase[qi],
                        forall|x2: int|
                            0 <= x2 < x ==> (#[trigger] queue@[qbase.len() + x2])@ == m[n@]@[x2]@,
                        forall|qi: int|
                            0 <= qi < queue@.len() ==> seed_reaches(m, sv, (#[trigger] queue@[qi])@),
                    decreases n_deps - x,
                {
                    let ghost qold = queue@;
                    queue.push_back(deps[x].clone());
                    proof {
                        assert(queue@[qold.len() as int]@ == m[n@]@[x as int]@);
                        assert(seq_names(m[n@]@)[x as int] == m[n@]@[x as int]@);
                        assert(has_edge(m, n@, m[n@]@[x as int]@));
                        assert(edge(n@, m[n@]@[x as int]@));
                        let kk = choose|kk: int|
                            0 <= kk < sv.len() && reaches(edge, (#[trigger] sv[kk])@, n@);
                        lemma_reaches_step(edge, (sv[kk])@, n@, m[n@]@[x as int]@);
                        assert(seed_reaches(m, sv, m[n@]@[x as int]@));
                    }
                    x += 1;
                }
                proof {
                    // the head moved to the visited set and its whole
                    // dependency list waits in the frontier
                    assert forall|b: Seq<char>| gcovered(vis0, q0, b) implies gcovered(
                        visited@,
                        queue@,
                        b,
                    ) by {
                        if !vis0.contains(b) {
                            let qi = choose|qi: int|
                                0 <= qi < q0.len() && (#[trigger] q0[qi])@ == b;
                            if qi == 0 {
                                assert(visited@.contains(b));
                            } else {
                                assert(qbase[qi - 1]@ == b);
                                assert(queue@[qi - 1]@ == b);
                            }
                        }
                    }
                    assert forall|u: Seq<char>, b: Seq<char>|
                        visited@.contains(u) && #[trigger] has_edge(m, u, b) implies gcovered(
                        visited@,
                        queue@,
                        b,
                    ) by {
                        if u == n@ {
                            let x2 = choose|x2: int|
                                0 <= x2 < seq_names(m[n@]@).len() && seq_names(m[n@]@)[x2] == b;
                            assert(queue@[qbase.len() + x2]@ == b);
                        } else {
                            assert(gcovered(vis0, q0, b));
                        }
                    }
                    assert(queue@.len() + pending_weight(weight_rows(*graph), visited@) < q0.len()
                        + pending_weight(weight_rows(*graph), vis0));
                }
            },
            None => {
                proof {
                    assert forall|i: int|
                        0 <= i < weight_rows(*graph).len() implies (#[trigger] weight_rows(
                        *graph,
                    )[i]).0 != n@ by {}
                    crate::graphs::lemma_row_weight_absent(weight_rows(*graph), n@);
                    lemma_pending_weight_exclude(weight_rows(*graph), vis0, n@);
                    assert forall|b: Seq<char>| gcovered(vis0, q0, b) implies gcovered(
                        visited@,
                        queue@,
                        b,
                    ) by {
                        if !vis0.contains(b) {
                            let qi = choose|qi: int|
                                0 <= qi < q0.len() && (#[trigger] q0[qi])@ == b;
                            if qi == 0 {
                                assert(visited@.contains(b));
                            } else {
                                assert(queue@[qi - 1]@ == b);
                            }
                        }
                    }
                    assert forall|u: Seq<char>, b: Seq<char>|
                        visited@.contains(u) && #[trigger] has_edge(m, u, b) implies gcovered(
                        visited@,
                        queue@,
                        b,
                    ) by {
                        assert(u != n@);
                        assert(gcovered(vis0, q0, b));
                    }
                }
            },
        }
    }
    proof {
        // the frontier is exhausted: the visited set holds every seed and
        // is closed under the graph's edges, so it is exactly what the
        // seeds reach
        assert forall|w: Seq<char>|
            #[trigger] visited@.contains(w) == seed_reaches(m, sv, w) by {
            if seed_reaches(m, sv, w) && !visited@.contains(w) {
                let kk = choose|kk: int|
                    0 <= kk < sv.len() && reaches(edge, (#[trigger] sv[kk])@, w);
                assert(gcovered(visited@, queue@, sv[kk]@));
                assert(visited@.contains(sv[kk]@));
                assert forall|a: Seq<char>, b: Seq<char>|
                    visited@.contains(a) && #[trigger] edge(a, b) implies visited@.contains(b) by {
                    assert(has_edge(m, a, b));
                    assert(gcovered(visited@, queue@, b));
                }
                lemma_reaches_closed(edge, visited@, (sv[kk])@, w);
                assert(false);
            }
        }
    }
    let r = ReachableNames { names: order, set: visited };
    proof {
        assert forall|w: Seq<char>| r.set@.contains(w) implies exists|i: int|
            0 <= i < r.names@.len() && #[trigger] r.names@[i]@ == w by {
            let i = choose|i: int| 0 <= i < r.names@.len() && (#[trigger] r.names@[i])@ == w;
            assert(r.names@[i]@ == w);
        }
    }
    r
}

/// One of the package's own dependencies leads back to it.
pub open spec fn loops_back(m: Map<Seq<char>, Vec<String>>, n: Seq<char>) -> bool {
    exists|s: Seq<char>| #[trigger] has_edge(m, n, s) && reaches(graph_edge(m), s, n)
}

/// The cycle check: reports exactly whether a cycle lies on some route
/// out of `name`. A cycle out of `name` is a reachable package that one
/// of its own dependencies leads back to, so the check walks the names
/// `name` reaches and asks that of each. The walks deduplicate, so a
/// package shared along two routes — a diamond — is no cycle.
pub fn is_dependency_cyclic(graph: &DependencyGraph, name: String) -> (r: bool)
    requires
        graph.wf(),
    ensures
        r == has_cycle_from(graph_edge(graph.map@), name@),
{
    let ghost m = graph.map@;
    let ghost edge = graph_edge(m);
    let ghost start = name@;
    let mut seeds: Vec<String> = Vec::new();
    seeds.push(name.clone());
    let reach = closure_from(graph, &seeds);
    let nr = reach.names.len();
    let mut i: usize = 0;
    while i < nr
        invariant
            graph.wf(),
            m == graph.map@,
            edge == graph_edge(m),
            start == name@,
            forall|a: Seq<char>, b: Seq<char>| #[trigger] edge(a, b) == has_edge(m, a, b),
            seeds@.len() == 1,
            seeds@[0]@ == start,
            nr == reach.names@.len(),
            reach.wf(),
            forall|w: Seq<char>|
                #[trigger] reach.set@.contains(w) <==> seed_reaches(m, seeds@, w),
            0 <= i <= nr,
            forall|x: int| 0 <= x < i ==> !loops_back(m, (#[trigger] reach.names@[x])@),
        decreases nr - i,
    {
        let n = &reach.names[i];
        match graph.map.get(n.as_str()) {
            Some(deps) => {
                let back = closure_from(graph, deps);
                if back.set.contains(n.as_str()) {
                    proof {
                        assert(seed_reaches(m, deps@, n@));
                        let kk = choose|kk: int|
                            0 <= kk < deps@.len() && reaches(edge, (#[trigger] deps@[kk])@, n@);
                        assert(deps@ == m[n@]@);
                        assert(seq_names(m[n@]@)[kk] == deps@[kk]@);
                        assert(has_edge(m, n@, deps@[kk]@));
                        assert(edge(n@, deps@[kk]@));
                        assert(reach.set@.contains(n@));
                        assert(seed_reaches(m, seeds@, n@));
                        let k0 = choose|k0: int|
                            0 <= k0 < seeds@.len() && reaches(edge, (#[trigger] seeds@[k0])@, n@);
                        assert(k0 == 0 && seeds@[0]@ == start);
                        assert(reaches(edge, start, n@));
                        lemma_cycle_decomposition(edge, start);
                        assert(reaches(edge, start, n@) && edge(n@, deps@[kk]@) && reaches(
                            edge,
                            deps@[kk]@,
                            n@,
                        ));
                        assert(has_cycle_from(edge, start));
                    }
                    return true;
                }
                proof {
                    assert forall|s: Seq<char>| #[trigger] has_edge(m, n@, s) implies !reaches(
                        edge,
                        s,
                        n@,
                    ) by {
                        let x2 = choose|x2: int|
                            0 <= x2 < seq_names(m[n@]@).len() && seq_names(m[n@]@)[x2] == s;
                        assert(deps@ == m[n@]@);
                        assert((deps@[x2])@ == s);
                        if reaches(edge, s, n@) {
                            assert(seed_reaches(m, deps@, n@));
                            assert(back.set@.contains(n@));
                            assert(false);
                        }
                    }
                    assert(!loops_back(m, (reach.names@[i as int])@));
                }
            },
            None => {
                proof {
                    assert forall|s: Seq<char>| #[trigger] has_edge(m, n@, s) implies false by {}
                    assert(!loops_back(m, (reach.names@[i as int])@));
                }
            },
        }
        i += 1;
    }
    proof {
        lemma_cycle_decomposition(edge, start);
        if has_cycle_from(edge, start) {
            let (n2, s2) = choose|n2: Seq<char>, s2: Seq<char>|
                reaches(edge, start, n2) && #[trigger] edge(n2, s2) && reaches(edge, s2, n2);
            assert(reaches(edge, (seeds@[0])@, n2));
            assert(seed_reaches(m, seeds@, n2));
            assert(reach.set@.contains(n2));
            let x = choose|x: int|
                0 <= x < reach.names@.len() && (#[trigger] reach.names@[x])@ == n2;
            assert(!loops_back(m, n2));
            assert(has_edge(m, n2, s2));
            assert(false);
        }
    }
    false
}

/// Package `a` of the store names `b` among its manifest's dependencies.
pub open spec fn store_has_edge(
    sm: Map<Seq<char>, Manifest>,
    a: Seq<char>,
    b: Seq<char>,
) -> bool {
    sm.contains_key(a) && seq_names(sm[a].dependencies@).contains(b)
}

/// The edge relation the stored manifests span.
pub open spec fn store_edge(sm: Map<Seq<char>, Manifest>) -> spec_fn(Seq<char>, Seq<char>) -> bool {
    |a: Seq<char>, b: Seq<char>| store_has_edge(sm, a, b)
}

/// Package `n` is reachable from the root's dependency names through the
/// stored manifests.
pub open spec fn dep_reachable(
    sm: Map<Seq<char>, Manifest>,
    roots: Seq<String>,
    n: Seq<char>,
) -> bool {
    exists|k: int| 0 <= k < roots.len() && reaches(store_edge(sm), (#[trigger] roots[k])@, n)
}

/// The termination rows of the builder: each stored package weighs as
/// many steps as its manifest names dependencies.
pub open spec fn store_rows(store: ManifestStore) -> Seq<(Seq<char>, nat)> {
    Seq::new(
        store.names@.len(),
        |i: int| (store.names@[i]@, store.map@[store.names@[i]@].dependencies@.len()),
    )
}

/// A package is recorded or still waiting in the frontier.
pub open spec fn gcovered(dom: Set<Seq<char>>, q: Seq<String>, b: Seq<char>) -> bool {
    dom.contains(b) || in_queue(q, b)
}

/// Message of the missing-manifest error for one dependency name.
pub open spec fn missing_manifest_msg(n: Seq<char>) -> Seq<char> {
    "failed to read package manifest file: `"@ + n + "`"@
}

/// Message of the executable-dependency error.
pub open spec fn executable_dep_msg() -> Seq<char> {
    "dependency is an executable, but was expected to be a library"@
}

/// The name whose manifest the builder's walk first finds missing, if
/// any: the frontier is taken in order, a name already recorded is
/// skipped, and a present name's dependency list joins the back of the
/// frontier. This is the name the builder's error reports.
pub open spec fn first_missing(
    store: ManifestStore,
    queue: Seq<Seq<char>>,
    done: Set<Seq<char>>,
) -> Option<Seq<char>>
    decreases queue.len() + pending_weight(store_rows(store), done),
    when store.wf()
    via first_missing_decreases
{
    if queue.len() == 0 {
        None
    } else if done.contains(queue.first()) {
        first_missing(store, queue.drop_first(), done)
    } else if !store.map@.contains_key(queue.first()) {
        Some(queue.first())
    } else {
        first_missing(
            store,
            queue.drop_first() + seq_names(store.map@[queue.first()].dependencies@),
            done.insert(queue.first()),
        )
    }
}

#[via_fn]
proof fn first_missing_decreases(
    store: ManifestStore,
    queue: Seq<Seq<char>>,
    done: Set<Seq<char>>,
) {
    if queue.len() > 0 && !done.contains(queue.first()) && store.map@.contains_key(
        queue.first(),
    ) {
        let n = queue.first();
        assert forall|i: int, j: int|
            0 <= i < j < store_rows(store).len() implies (#[trigger] store_rows(store)[i]).0
            != (#[trigger] store_rows(store)[j]).0 by {}
        lemma_pending_weight_exclude(store_rows(store), done, n);
        let si = choose|i: int| 0 <= i < store.names@.len() && #[trigger] store.names@[i]@ == n;
        lemma_row_weight_at(store_rows(store), si);
        assert(store_rows(store)[si] == (n, store.map@[n].dependencies@.len()));
    }
}

/// Builds the dependency graph: a breadth-first traversal from the root
/// manifest's dependency names, reading each reachable package's manifest
/// from the store, recording its dependency names, and enqueueing them in
/// turn. An already-recorded name is not read again, so every reachable
/// package appears as a key exactly once (deduplication is a deliberate
/// policy choice). The one failure is a reachable package whose manifest
/// the store cannot produce; what a manifest declares is not the
/// builder's business — `require_library_dependencies` judges the kinds
/// of the packages a finished graph names.
#[verifier::rlimit(60)]
pub fn build_dependency_graph(manifest: &Manifest, store: &ManifestStore) -> (r: Result<
    DependencyGraph,
    String,
>)
    requires
        store.wf(),
    ensures
        r is Ok <==> (forall|n: Seq<char>|
            dep_reachable(store.map@, manifest.dependencies@, n) ==> store.map@.contains_key(n)),
        r is Ok <==> first_missing(*store, seq_names(manifest.dependencies@), Set::empty())
            is None,
        match r {
            Ok(g) => {
                &&& g.wf()
                &&& forall|n: Seq<char>|
                    #[trigger] g.map@.contains_key(n) <==> dep_reachable(
                        store.map@,
                        manifest.dependencies@,
                        n,
                    )
                &&& forall|n: Seq<char>|
                    #[trigger] g.map@.contains_key(n) ==> store.map@.contains_key(n)
                        && g.map@[n]@ == store.map@[n].dependencies@
            },
            Err(e) => ({
                let fm = first_missing(*store, seq_names(manifest.dependencies@), Set::empty());
                &&& fm is Some
                &&& dep_reachable(store.map@, manifest.dependencies@, fm->0)
                &&& !store.map@.contains_key(fm->0)
                &&& e@ == missing_manifest_msg(fm->0)
            }),
        },
{
    let ghost sm = store.map@;
    let ghost edge = store_edge(sm);
    let ghost roots = manifest.dependencies@;
    let mut graph = DependencyGraph::new();
    let mut queue: VecDeque<String> = VecDeque::new();
    let mut k: usize = 0;
    while k < manifest.dependencies.len()
        invariant
            roots == manifest.dependencies@,
            0 <= k <= roots.len(),
            queue@.len() == k,
            forall|x: int| 0 <= x < k ==> (#[trigger] queue@[x])@ == roots[x]@,
        decreases roots.len() - k,
    {
        queue.push_back(manifest.dependencies[k].clone());
        k += 1;
    }
    let ghost fm0 = first_missing(*store, seq_names(roots), Set::empty());
    proof {
        assert forall|qi: int| 0 <= qi < queue@.len() implies dep_reachable(
            sm,
            roots,
            (#[trigger] queue@[qi])@,
        ) by {
            lemma_reaches_refl(edge, roots[qi]@);
            assert(reaches(store_edge(sm), roots[qi]@, queue@[qi]@));
        }
        assert forall|x: int| 0 <= x < roots.len() implies gcovered(
            graph.map@.dom(),
            queue@,
            (#[trigger] roots[x])@,
        ) by {
            assert(queue@[x]@ == roots[x]@);
        }
        assert(seq_names(queue@) =~= seq_names(roots));
        assert(graph.map@.dom() =~= Set::<Seq<char>>::empty());
        assert(first_missing(*store, seq_names(queue@), graph.map@.dom()) == fm0);
    }
    while queue.len() > 0
        invariant
            store.wf(),
            sm == store.map@,
            edge == store_edge(sm),
            roots == manifest.dependencies@,
            forall|a: Seq<char>, b: Seq<char>| #[trigger] edge(a, b) == store_has_edge(sm, a, b),
            graph.wf(),
            forall|n: Seq<char>|
                #[trigger] graph.map@.contains_key(n) ==> sm.contains_key(n)
                    && graph.map@[n]@ == sm[n].dependencies@,
            forall|qi: int|
                0 <= qi < queue@.len() ==> dep_reachable(sm, roots, (#[trigger] queue@[qi])@),
            forall|n: Seq<char>|
                #[trigger] graph.map@.contains_key(n) ==> dep_reachable(sm, roots, n),
            forall|n: Seq<char>, b: Seq<char>|
                graph.map@.contains_key(n) && #[trigger] store_has_edge(sm, n, b) ==> gcovered(
                    graph.map@.dom(),
                    queue@,
                    b,
                ),
            forall|x: int|
                0 <= x < roots.len() ==> gcovered(graph.map@.dom(), queue@, (#[trigger] roots[x])@),
            fm0 == first_missing(*store, seq_names(roots), Set::empty()),
            first_missing(*store, seq_names(queue@), graph.map@.dom()) == fm0,
        decreases queue@.len() + pending_weight(store_rows(*store), graph.map@.dom()),
    {
        let ghost q0 = queue@;
        let ghost dom0 = graph.map@.dom();
        let n = match queue.pop_front() {
            Some(v) => v,
            None => {
                proof {
                    assert(false);
                }
                String::new()
            },
        };
        if graph.contains(n.as_str()) {
            // already recorded: the deliberate deduplication policy
            proof {
                assert forall|b: Seq<char>| gcovered(dom0, q0, b) implies gcovered(
                    graph.map@.dom(),
                    queue@,
                    b,
                ) by {
                    if !dom0.contains(b) {
                        let qi = choose|qi: int| 0 <= qi < q0.len() && (#[trigger] q0[qi])@ == b;
                        if qi == 0 {
                            assert(dom0.contains(b));
                        } else {
                            assert(queue@[qi - 1]@ == b);
                        }
                    }
                }
                assert(seq_names(q0).first() == q0[0]@);
                assert(dom0.contains(seq_names(q0).first()));
                assert(seq_names(queue@) =~= seq_names(q0).drop_first());
                assert(first_missing(*store, seq_names(queue@), graph.map@.dom()) == fm0);
            }
            continue;
        }
        match store.map.get(n.as_str()) {
            None => {
                proof {
                    assert(dep_reachable(sm, roots, q0[0]@));
                    assert(!(forall|w: Seq<char>|
                        dep_reachable(sm, roots, w) ==> sm.contains_key(w)));
                    // the walk's first missing name is exactly this one
                    assert(seq_names(q0).first() == q0[0]@);
                    assert(!dom0.contains(seq_names(q0).first()));
                    assert(!sm.contains_key(seq_names(q0).first()));
                    assert(fm0 == Some(n@));
                }
                return Err(join3("failed to read package manifest file: `", n.as_str(), "`"));
            },
            Some(man) => {
                let deps = clone_names(&man.dependencies);
                graph.insert(n.clone(), deps);
                proof {
                    assert(graph.map@.dom() =~= dom0.insert(n@));
                    let si = choose|i: int|
                        0 <= i < store.names@.len() && #[trigger] store.names@[i]@ == n@;
                    assert forall|i: int, j: int|
                        0 <= i < j < store_rows(*store).len() implies (#[trigger] store_rows(
                        *store,
                    )[i]).0 != (#[trigger] store_rows(*store)[j]).0 by {}
                    lemma_pending_weight_exclude(store_rows(*store), dom0, n@);
                    lemma_row_weight_at(store_rows(*store), si);
                    assert(store_rows(*store)[si] == (n@, sm[n@].dependencies@.len()));
                    assert(row_weight(store_rows(*store), n@) == sm[n@].dependencies@.len());
                    // the popped head moved from the frontier into the graph
                    assert forall|b: Seq<char>| gcovered(dom0, q0, b) implies gcovered(
                        graph.map@.dom(),
                        queue@,
                        b,
                    ) by {
                        if !dom0.contains(b) {
                            let qi = choose|qi: int|
                                0 <= qi < q0.len() && (#[trigger] q0[qi])@ == b;
                            if qi == 0 {
                                assert(graph.map@.dom().contains(b));
                            } else {
                                assert(queue@[qi - 1]@ == b);
                            }
                        }
                    }
                }
                let ghost qbase = queue@;
                let n_deps = man.dependencies.len();
                let mut x: usize = 0;
                while x < n_deps
                    invariant
                        store.wf(),
                        sm == store.map@,
                        edge == store_edge(sm),
                        roots == manifest.dependencies@,
                        forall|a: Seq<char>, b: Seq<char>| #[trigger] edge(a, b) == store_has_edge(
                            sm,
                            a,
                            b,
                        ),
                        graph.wf(),
                        sm.contains_key(n@),
                        man == &sm[n@],
                        n_deps == sm[n@].dependencies@.len(),
                        0 <= x <= n_deps,
                        graph.map@.contains_key(n@),
                        dep_reachable(sm, roots, n@),
                        queue@.len() == qbase.len() + x,
                        forall|qi: int| 0 <= qi < qbase.len() ==> queue@[qi] == qbase[qi],
                        forall|x2: int|
                            0 <= x2 < x ==> (#[trigger] queue@[qbase.len() + x2])@ == sm[n@].dependencies@[x2]@,
                        forall|n2: Seq<char>|
                            #[trigger] graph.map@.contains_key(n2) ==> sm.contains_key(n2)
                                && graph.map@[n2]@ == sm[n2].dependencies@,
                        forall|qi: int|
                            0 <= qi < queue@.len() ==> dep_reachable(
                                sm,
                                roots,
                                (#[trigger] queue@[qi])@,
                            ),
                        forall|n2: Seq<char>|
                            #[trigger] graph.map@.contains_key(n2) ==> dep_reachable(
                                sm,
                                roots,
                                n2,
                            ),
                        forall|n2: Seq<char>, b: Seq<char>|
                            dom0.contains(n2) && #[trigger] store_has_edge(sm, n2, b) ==> gcovered(
                                graph.map@.dom(),
                                queue@,
                                b,
                            ),
                        forall|x2: int|
                            0 <= x2 < x ==> gcovered(
                                graph.map@.dom(),
                                queue@,
                                sm[n@].dependencies@[x2]@,
                            ),
                        forall|x2: int|
                            0 <= x2 < roots.len() ==> gcovered(
                                graph.map@.dom(),
                                queue@,
                                (#[trigger] roots[x2])@,
                            ),
                        graph.map@.dom() == dom0.insert(n@),
                    decreases n_deps - x,
                {
                    let ghost qold = queue@;
                    queue.push_back(man.dependencies[x].clone());
                    proof {
                        assert(queue@[qold.len() as int]@ == sm[n@].dependencies@[x as int]@);
                        assert forall|b: Seq<char>| gcovered(graph.map@.dom(), qold, b) implies
                            gcovered(graph.map@.dom(), queue@, b) by {
                            if !graph.map@.dom().contains(b) {
                                let qi = choose|qi: int|
                                    0 <= qi < qold.len() && (#[trigger] qold[qi])@ == b;
                                assert(queue@[qi]@ == b);
                            }
                        }
                        assert(seq_names(sm[n@].dependencies@)[x as int] == sm[n@].dependencies@[x
                            as int]@);
                        assert(store_has_edge(sm, n@, sm[n@].dependencies@[x as int]@));
                        assert(edge(n@, sm[n@].dependencies@[x as int]@));
                        let kk = choose|kk: int|
                            0 <= kk < roots.len() && reaches(edge, (#[trigger] roots[kk])@, n@);
                        lemma_reaches_step(
                            edge,
                            roots[kk]@,
                            n@,
                            sm[n@].dependencies@[x as int]@,
                        );
                    }
                    x += 1;
                }
                proof {
                    // the popped head is now recorded and every dependency of
                    // it waits in the frontier
                    assert forall|b: Seq<char>| gcovered(dom0, q0, b) implies gcovered(
                        graph.map@.dom(),
                        queue@,
                        b,
                    ) by {
                        if !dom0.contains(b) {
                            let qi = choose|qi: int|
                                0 <= qi < q0.len() && (#[trigger] q0[qi])@ == b;
                            if qi == 0 {
                                assert(graph.map@.dom().contains(b));
                            } else {
                                assert(qbase[qi - 1]@ == b);
                                assert(queue@[qi - 1]@ == b);
                            }
                        }
                    }
                    assert forall|n2: Seq<char>, b: Seq<char>|
                        graph.map@.contains_key(n2) && #[trigger] store_has_edge(sm, n2, b) implies
                        gcovered(graph.map@.dom(), queue@, b) by {
                        if n2 == n@ {
                            let x2 = choose|x2: int|
                                0 <= x2 < seq_names(sm[n@].dependencies@).len() && seq_names(
                                    sm[n@].dependencies@,
                                )[x2] == b;
                            assert(gcovered(graph.map@.dom(), queue@, sm[n@].dependencies@[x2]@));
                        } else {
                            assert(dom0.contains(n2));
                        }
                    }
                    assert(queue@.len() + pending_weight(store_rows(*store), graph.map@.dom())
                        < q0.len() + pending_weight(store_rows(*store), dom0));
                    assert(seq_names(q0).first() == q0[0]@);
                    assert(!dom0.contains(seq_names(q0).first()));
                    assert(sm.contains_key(seq_names(q0).first()));
                    assert forall|qi: int| 0 <= qi < queue@.len() implies seq_names(queue@)[qi]
                        == (seq_names(q0).drop_first() + seq_names(sm[n@].dependencies@))[qi] by {
                        if qi < qbase.len() {
                            assert(queue@[qi] == qbase[qi]);
                            assert(qbase[qi] == q0[qi + 1]);
                        } else {
                            let x2 = qi - qbase.len();
                            assert((#[trigger] queue@[qbase.len() + x2])@ == sm[n@].dependencies@[
                                x2
                            ]@);
                        }
                    }
                    assert(seq_names(queue@) =~= seq_names(q0).drop_first() + seq_names(
                        sm[n@].dependencies@,
                    ));
                    assert(graph.map@.dom() == dom0.insert(seq_names(q0).first()));
                    assert(first_missing(*store, seq_names(queue@), graph.map@.dom()) == fm0);
                }
            },
        }
    }
    proof {
        // the frontier is exhausted: the recorded keys are closed under the
        // stored dependency edges and hold every root name, so they are
        // exactly the reachable packages
        let dom = graph.map@.dom();
        assert forall|w: Seq<char>|
            #[trigger] dep_reachable(sm, roots, w) implies graph.map@.contains_key(w) by {
            let kk = choose|kk: int|
                0 <= kk < roots.len() && reaches(edge, (#[trigger] roots[kk])@, w);
            assert(gcovered(dom, queue@, roots[kk]@));
            assert(dom.contains(roots[kk]@));
            assert forall|a: Seq<char>, b: Seq<char>|
                dom.contains(a) && #[trigger] edge(a, b) implies dom.contains(b) by {
                assert(store_has_edge(sm, a, b));
                assert(gcovered(dom, queue@, b));
            }
            lemma_reaches_closed(edge, dom, roots[kk]@, w);
        }
        assert(seq_names(queue@).len() == 0);
        assert(fm0 is None);
    }
    Ok(graph)
}

/// Judges the kinds of the packages a finished dependency graph names:
/// only the root package of a build may be an executable, so a recorded
/// dependency whose stored manifest declares `Executable` is a build
/// error. The first such package in the graph's insertion order is the
/// one reported.
pub fn require_library_dependencies(graph: &DependencyGraph, store: &ManifestStore) -> (r: Result<
    (),
    String,
>)
    requires
        graph.wf(),
        store.wf(),
    ensures
        r is Ok <==> (forall|n: Seq<char>|
            graph.map@.contains_key(n) && store.map@.contains_key(n)
                ==> store.map@[n].ty is Library),
        r is Err ==> r->Err_0@ == executable_dep_msg() && exists|i: int|
            {
                &&& 0 <= i < graph.names@.len()
                &&& store.map@.contains_key((#[trigger] graph.names@[i])@)
                &&& store.map@[graph.names@[i]@].ty is Executable
                &&& forall|j: int|
                    0 <= j < i ==> !(store.map@.contains_key((#[trigger] graph.names@[j])@)
                        && store.map@[graph.names@[j]@].ty is Executable)
            },
{
    let mut i: usize = 0;
    while i < graph.names.len()
        invariant
            graph.wf(),
            store.wf(),
            0 <= i <= graph.names@.len(),
            forall|j: int|
                0 <= j < i ==> !(store.map@.contains_key((#[trigger] graph.names@[j])@)
                    && store.map@[graph.names@[j]@].ty is Executable),
        decreases graph.names@.len() - i,
    {
        match store.map.get(graph.names[i].as_str()) {
            Some(man) => {
                if man.ty == PackageType::Executable {
                    return Err(
                        "dependency is an executable, but was expected to be a library".to_owned(),
                    );
                }
            },
            None => {},
        }
        i += 1;
    }
    proof {
        assert forall|n: Seq<char>|
            graph.map@.contains_key(n) && store.map@.contains_key(n) implies store.map@[n].ty
            is Library by {
            let idx = choose|idx: int|
                0 <= idx < graph.names@.len() && #[trigger] graph.names@[idx]@ == n;
            assert(!(store.map@.contains_key(graph.names@[idx]@)
                && store.map@[graph.names@[idx]@].ty is Executable));
        }
    }
    Ok(())
}

/// The package whose dependency list is longest, if any list is
/// non-empty; ties resolve to the first encountered in insertion order,
/// not lexicographically.
pub fn find_most_used_dependency(graph: DependencyGraph) -> (r: Option<String>)
    requires
        graph.wf(),
    ensures
        r is None <==> forall|i: int| 0 <= i < graph.names@.len() ==> row_len(graph, i) == 0,
        match r {
            Some(nm) => exists|i: int|
                {
                    &&& 0 <= i < graph.names@.len()
                    &&& nm@ == (#[trigger] graph.names@[i])@
                    &&& row_len(graph, i) >= 1
                    &&& forall|j: int| 0 <= j < graph.names@.len() ==> row_len(graph, j) <= row_len(
                        graph,
                        i,
                    )
                    &&& forall|j: int| 0 <= j < i ==> row_len(graph, j) < row_len(graph, i)
                },
            None => true,
        },
{
    let mut best: usize = 0;
    let mut have_best = false;
    let mut count_buffer: usize = 0;
    let mut i: usize = 0;
    while i < graph.names.len()
        invariant
            graph.wf(),
            0 <= i <= graph.names@.len(),
            !have_best ==> count_buffer == 0 && forall|j: int|
                0 <= j < i ==> row_len(graph, j) == 0,
            have_best ==> {
                &&& best < i
                &&& count_buffer == row_len(graph, best as int)
                &&& count_buffer >= 1
                &&& forall|j: int| 0 <= j < i ==> row_len(graph, j) <= count_buffer
                &&& forall|j: int| 0 <= j < best ==> row_len(graph, j) < count_buffer
            },
        decreases graph.names@.len() - i,
    {
        let deps_len: usize = match graph.map.get(graph.names[i].as_str()) {
            Some(v) => v.len(),
            None => {
                proof {
                    assert(false);
                }
                0
            },
        };
        if deps_len > count_buffer {
            best = i;
            have_best = true;
            count_buffer = deps_len;
        }
        i += 1;
    }
    if have_best {
        Some(graph.names[best].clone())
    } else {
        None
    }
}

} // verus!
