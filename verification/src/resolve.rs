//! The name resolver: a two-pass symbol binder.
//!
//! The declaration pass walks every module in file order and registers each
//! top-level declaration into the cache and into its module's scope. It
//! runs to completion for the whole compilation unit before any linking
//! starts: this barrier is what lets a declaration in a later file be
//! visible from an earlier one. The linking pass then resolves every
//! identifier reference against the finished scopes; no failure
//! short-circuits it, so one run reports every resolution error.

use vstd::prelude::*;
use vstd::hash_map::StringHashMap;
use crate::ast::{
    same_qualifier, Declaration, DeclKind, Expr, Qualifier, SourceModule, Stmt,
};
use crate::cache::Cache;
use crate::diagnostic::{
    diags_match, lemma_diags_match_push, DiagEntry, Diagnostic, Severity,
};
use crate::text::{join3, push_str};

verus! {

// ------------------------------------------------------------------
// Declaration pass: ghost model
// ------------------------------------------------------------------

/// All declarations of the compilation unit, flattened in file order.
/// A declaration's binding id is its index in this sequence.
pub open spec fn flat_decls(ms: Seq<SourceModule>) -> Seq<Declaration>
    decreases ms.len(),
{
    if ms.len() == 0 {
        Seq::empty()
    } else {
        flat_decls(ms.drop_last()) + ms.last().decls@
    }
}

/// The binding id of the first declaration of module `i`.
pub open spec fn module_base(ms: Seq<SourceModule>, i: int) -> nat {
    flat_decls(ms.take(i)).len()
}

/// The scope a module's declarations build, given the binding id of the
/// module's first declaration: name to binding id, first declaration of a
/// name winning over later duplicates.
pub open spec fn scope_model(decls: Seq<Declaration>, base: nat) -> Map<Seq<char>, usize>
    decreases decls.len(),
{
    if decls.len() == 0 {
        Map::empty()
    } else {
        let m = scope_model(decls.drop_last(), base);
        if m.contains_key(decls.last().name@) {
            m
        } else {
            m.insert(decls.last().name@, (base + decls.len() - 1) as usize)
        }
    }
}

/// The entry point after registering `ds` in order: the first function
/// declaration named `main`, if any.
pub open spec fn entry_model(ds: Seq<Declaration>) -> Option<usize>
    decreases ds.len(),
{
    if ds.len() == 0 {
        None
    } else {
        match entry_model(ds.drop_last()) {
            Some(e) => Some(e),
            None => if crate::ast::decl_is_entry(ds.last()) {
                Some((ds.len() - 1) as usize)
            } else {
                None
            },
        }
    }
}

/// A compilation unit with no entry-point function registers no entry
/// point.
pub proof fn lemma_entry_model_none(ds: Seq<Declaration>)
    requires
        forall|id: int| 0 <= id < ds.len() ==> !crate::ast::decl_is_entry(#[trigger] ds[id]),
    ensures
        entry_model(ds) is None,
    decreases ds.len(),
{
    if ds.len() > 0 {
        let rest = ds.drop_last();
        assert forall|id: int| 0 <= id < rest.len() implies !crate::ast::decl_is_entry(
            #[trigger] rest[id],
        ) by {
            assert(rest[id] == ds[id]);
        }
        lemma_entry_model_none(rest);
        assert(!crate::ast::decl_is_entry(ds[ds.len() - 1]));
    }
}

/// The registered entry point is the first function named `main`, in
/// file order: it is such a function, and nothing before it is.
pub proof fn lemma_entry_model_sound(ds: Seq<Declaration>)
    requires
        ds.len() <= usize::MAX,
        entry_model(ds) is Some,
    ensures
        ({
            let e = entry_model(ds)->0;
            &&& (e as int) < ds.len()
            &&& crate::ast::decl_is_entry(ds[e as int])
            &&& forall|k: int| 0 <= k < e ==> !crate::ast::decl_is_entry(#[trigger] ds[k])
        }),
    decreases ds.len(),
{
    if ds.len() == 0 {
        assert(entry_model(ds) is None);
    } else {
        let rest = ds.drop_last();
        if entry_model(rest) is Some {
            lemma_entry_model_sound(rest);
            let e = entry_model(rest)->0;
            assert(entry_model(ds) == Some(e));
            assert(rest[e as int] == ds[e as int]);
            assert forall|k: int| 0 <= k < e implies !crate::ast::decl_is_entry(
                #[trigger] ds[k],
            ) by {
                assert(rest[k] == ds[k]);
            }
        } else {
            lemma_entry_model_none_converse(rest);
            assert(crate::ast::decl_is_entry(ds.last()));
            assert(entry_model(ds) == Some((ds.len() - 1) as usize));
            assert forall|k: int| 0 <= k < ds.len() - 1 implies !crate::ast::decl_is_entry(
                #[trigger] ds[k],
            ) by {
                assert(rest[k] == ds[k]);
            }
        }
    }
}

/// A compilation unit that registered no entry point declares none.
pub proof fn lemma_entry_model_none_converse(ds: Seq<Declaration>)
    requires
        entry_model(ds) is None,
    ensures
        forall|id: int| 0 <= id < ds.len() ==> !crate::ast::decl_is_entry(#[trigger] ds[id]),
    decreases ds.len(),
{
    if ds.len() > 0 {
        let rest = ds.drop_last();
        lemma_entry_model_none_converse(rest);
        assert forall|id: int| 0 <= id < ds.len() implies !crate::ast::decl_is_entry(
            #[trigger] ds[id],
        ) by {
            if id < ds.len() - 1 {
                assert(rest[id] == ds[id]);
            }
        }
    }
}

/// A scope binds exactly the names its module declares.
pub proof fn lemma_scope_model_dom(decls: Seq<Declaration>, base: nat, n: Seq<char>)
    ensures
        scope_model(decls, base).contains_key(n) <==> exists|k: int|
            0 <= k < decls.len() && (#[trigger] decls[k]).name@ == n,
    decreases decls.len(),
{
    if decls.len() > 0 {
        let rest = decls.drop_last();
        lemma_scope_model_dom(rest, base, n);
        if scope_model(decls, base).contains_key(n) {
            if scope_model(rest, base).contains_key(n) {
                let k = choose|k: int| 0 <= k < rest.len() && (#[trigger] rest[k]).name@ == n;
                assert(decls[k].name@ == n);
            } else {
                assert(decls[decls.len() - 1].name@ == n);
            }
        }
        if exists|k: int| 0 <= k < decls.len() && (#[trigger] decls[k]).name@ == n {
            let k = choose|k: int| 0 <= k < decls.len() && (#[trigger] decls[k]).name@ == n;
            if k < decls.len() - 1 {
                assert(rest[k].name@ == n);
            }
        }
    }
}

/// What a scope binds a name to: a binding id inside the module's range,
/// naming the module's first declaration of that name.
pub proof fn lemma_scope_model_sound(decls: Seq<Declaration>, base: nat, n: Seq<char>)
    requires
        base + decls.len() <= usize::MAX,
        scope_model(decls, base).contains_key(n),
    ensures
        ({
            let id = scope_model(decls, base)[n];
            &&& base <= id < base + decls.len()
            &&& decls[id - base].name@ == n
            &&& forall|k: int| 0 <= k < id - base ==> (#[trigger] decls[k]).name@ != n
        }),
    decreases decls.len(),
{
    let rest = decls.drop_last();
    if scope_model(rest, base).contains_key(n) {
        lemma_scope_model_sound(rest, base, n);
        let id = scope_model(rest, base)[n];
        assert(rest[id - base] == decls[id - base]);
        assert forall|k: int| 0 <= k < id - base implies (#[trigger] decls[k]).name@ != n by {
            assert(rest[k] == decls[k]);
        }
    } else {
        assert(decls.last().name@ == n);
        lemma_scope_model_dom(rest, base, n);
        assert forall|k: int| 0 <= k < decls.len() - 1 implies (#[trigger] decls[k]).name@
            != n by {
            assert(rest[k] == decls[k]);
        }
    }
}

/// A prefix of the compilation unit flattens to a prefix of the whole:
/// the shared ids agree.
pub proof fn lemma_flat_prefix_agrees(ms: Seq<SourceModule>, j: int, x: int)
    requires
        0 <= j <= ms.len(),
        0 <= x < flat_decls(ms.take(j)).len(),
    ensures
        x < flat_decls(ms).len(),
        flat_decls(ms.take(j))[x] == flat_decls(ms)[x],
    decreases ms.len() - j,
{
    if j < ms.len() {
        assert(ms.take(j + 1).drop_last() =~= ms.take(j));
        assert(ms.take(j + 1).last() == ms[j]);
        assert(flat_decls(ms.take(j + 1))[x] == flat_decls(ms.take(j))[x]);
        lemma_flat_prefix_agrees(ms, j + 1, x);
    } else {
        assert(ms.take(j) =~= ms);
    }
}

/// Where a module's declaration stands in the flattened unit.
pub proof fn lemma_flat_decls_index(ms: Seq<SourceModule>, i: int, k: int)
    requires
        0 <= i < ms.len(),
        0 <= k < ms[i].decls@.len(),
    ensures
        module_base(ms, i) + k < flat_decls(ms).len(),
        flat_decls(ms)[module_base(ms, i) + k] == ms[i].decls@[k],
{
    assert(ms.take(i + 1).drop_last() =~= ms.take(i));
    assert(ms.take(i + 1).last() == ms[i]);
    assert(flat_decls(ms.take(i + 1)) == flat_decls(ms.take(i)) + ms[i].decls@);
    assert(flat_decls(ms.take(i + 1))[module_base(ms, i) + k] == ms[i].decls@[k]);
    lemma_flat_prefix_agrees(ms, i + 1, module_base(ms, i) + k);
}

/// Message of the duplicate-definition error.
pub open spec fn dup_msg(name: Seq<char>) -> Seq<char> {
    "duplicate definition of `"@ + name + "`"@
}

/// The duplicate-definition errors one module's declarations produce.
pub open spec fn module_dups(decls: Seq<Declaration>, base: nat) -> Seq<DiagEntry>
    decreases decls.len(),
{
    if decls.len() == 0 {
        Seq::empty()
    } else {
        let prev = module_dups(decls.drop_last(), base);
        let d = decls.last();
        if scope_model(decls.drop_last(), base).contains_key(d.name@) {
            prev.push((Severity::Error, dup_msg(d.name@), d.span))
        } else {
            prev
        }
    }
}

/// The whole declaration pass's report, module by module in file order.
pub open spec fn declare_model(ms: Seq<SourceModule>) -> Seq<DiagEntry>
    decreases ms.len(),
{
    if ms.len() == 0 {
        Seq::empty()
    } else {
        declare_model(ms.drop_last()) + module_dups(
            ms.last().decls@,
            module_base(ms, ms.len() - 1),
        )
    }
}

/// A prefix of the compilation unit never flattens to more declarations
/// than the whole of it.
pub proof fn lemma_flat_take_le(ms: Seq<SourceModule>, i: int)
    requires
        0 <= i <= ms.len(),
    ensures
        flat_decls(ms.take(i)).len() <= flat_decls(ms).len(),
    decreases ms.len() - i,
{
    if i < ms.len() {
        lemma_flat_take_le(ms, i + 1);
        assert(ms.take(i + 1).drop_last() =~= ms.take(i));
        assert(ms.take(i + 1).last() == ms[i]);
    } else {
        assert(ms.take(i) =~= ms);
    }
}

// ------------------------------------------------------------------
// Declaration pass: executable
// ------------------------------------------------------------------

/// What the declaration pass keeps of one module for the later passes:
/// its namespace, imports, the contiguous binding-id range of its
/// declarations, and its finished scope.
pub struct ModuleInfo {
    pub qualifier: Qualifier,
    pub imports: Vec<Qualifier>,
    pub first_id: usize,
    pub n_decls: usize,
    pub scope: StringHashMap<usize>,
}

/// One module's record agrees with the module it was built from.
pub open spec fn info_matches(m: SourceModule, info: ModuleInfo, base: nat) -> bool {
    &&& info.qualifier == m.qualifier
    &&& info.imports@ == m.imports@
    &&& info.first_id == base
    &&& info.n_decls == m.decls@.len()
    &&& info.scope@ == scope_model(m.decls@, base)
}

/// The records agree with the compilation unit, module by module.
pub open spec fn infos_match(ms: Seq<SourceModule>, infos: Seq<ModuleInfo>) -> bool {
    &&& infos.len() == ms.len()
    &&& forall|i: int|
        0 <= i < ms.len() ==> info_matches(ms[i], #[trigger] infos[i], module_base(ms, i))
}

/// Everything the declaration pass hands to the later passes.
pub struct DeclareOutput {
    pub cache: Cache,
    pub infos: Vec<ModuleInfo>,
    pub diagnostics: Vec<Diagnostic>,
}

/// The declaration pass. Registers every top-level declaration of every
/// module, in file order, into the cache and into its module's scope;
/// reports a duplicate definition of a name inside one module as an error
/// and keeps the first definition; designates the first function named
/// `main` as the entry point. It always processes the whole compilation
/// unit, so every scope is complete before linking reads any of them.
pub fn declare_all(modules: Vec<SourceModule>) -> (out: DeclareOutput)
    requires
        flat_decls(modules@).len() < usize::MAX,
    ensures
        out.cache.decls@ == flat_decls(modules@),
        out.cache.entry == entry_model(flat_decls(modules@)),
        out.cache.wf(),
        infos_match(modules@, out.infos@),
        diags_match(out.diagnostics@, declare_model(modules@)),
{
    let ghost orig = modules@;
    let mut rest = modules;
    let total = rest.len();
    let mut cache = Cache::new();
    let mut infos: Vec<ModuleInfo> = Vec::new();
    let mut diags: Vec<Diagnostic> = Vec::new();
    let mut i: usize = 0;
    while rest.len() > 0
        invariant
            orig.len() == total,
            i + rest.len() == orig.len(),
            rest@ == orig.skip(i as int),
            flat_decls(orig).len() < usize::MAX,
            cache.decls@ == flat_decls(orig.take(i as int)),
            cache.entry == entry_model(cache.decls@),
            cache.wf(),
            infos_match(orig.take(i as int), infos@),
            diags_match(diags@, declare_model(orig.take(i as int))),
        decreases rest.len(),
    {
        let m = rest.remove(0);
        proof {
            assert(orig.skip(i as int)[0] == orig[i as int]);
            assert(orig.skip(i as int).remove(0) =~= orig.skip((i + 1) as int));
            assert(orig.take((i + 1) as int).drop_last() =~= orig.take(i as int));
            assert(orig.take((i + 1) as int).last() == orig[i as int]);
            lemma_flat_take_le(orig, (i + 1) as int);
        }
        let base = cache.len();
        let SourceModule { qualifier, imports, decls } = m;
        let ghost ds = decls@;
        let mut scope: StringHashMap<usize> = StringHashMap::new();
        let mut decls = decls;
        let mut k: usize = 0;
        proof {
            // flat_decls of the first i + 1 modules bounds this module's ids
            assert(flat_decls(orig.take((i + 1) as int)) == flat_decls(orig.take(i as int)) + ds);
            assert(ds.take(0) =~= Seq::<Declaration>::empty());
            assert(cache.decls@ == flat_decls(orig.take(i as int)) + ds.take(0));
        }
        while decls.len() > 0
            invariant
                k + decls.len() == ds.len(),
                decls@ == ds.skip(k as int),
                flat_decls(orig).len() < usize::MAX,
                base == module_base(orig, i as int),
                base + ds.len() <= flat_decls(orig).len(),
                cache.decls@ == flat_decls(orig.take(i as int)) + ds.take(k as int),
                cache.decls@.len() == base + k,
                cache.entry == entry_model(cache.decls@),
                cache.wf(),
                scope@ == scope_model(ds.take(k as int), base as nat),
                diags_match(
                    diags@,
                    declare_model(orig.take(i as int)) + module_dups(ds.take(k as int), base as nat),
                ),
            decreases decls.len(),
        {
            let d = decls.remove(0);
            proof {
                assert(ds.skip(k as int)[0] == ds[k as int]);
                assert(ds.skip(k as int).remove(0) =~= ds.skip((k + 1) as int));
                assert(ds.take((k + 1) as int).drop_last() =~= ds.take(k as int));
                assert(ds.take((k + 1) as int).last() == ds[k as int]);
            }
            let ghost name_v = d.name@;
            let span_e = d.span;
            let ghost span_v = d.span;
            let ghost old_decls = cache.decls@;
            let ghost old_model = declare_model(orig.take(i as int)) + module_dups(
                ds.take(k as int),
                base as nat,
            );
            let dup = scope.contains_key(d.name.as_str());
            let is_entry = d.is_entry();
            let name_copy = d.name.clone();
            let id = cache.register(d);
            proof {
                assert(cache.decls@.drop_last() =~= old_decls);
            }
            if dup {
                let msg = join3("duplicate definition of `", name_copy.as_str(), "`");
                let diag = Diagnostic::error_at(msg, span_e);
                let ghost prev_diags = diags@;
                diags.push(diag);
                proof {
                    lemma_diags_match_push(
                        prev_diags,
                        old_model,
                        diag,
                        (Severity::Error, dup_msg(name_v), span_v),
                    );
                    assert(module_dups(ds.take((k + 1) as int), base as nat) == module_dups(
                        ds.take(k as int),
                        base as nat,
                    ).push((Severity::Error, dup_msg(name_v), span_v)));
                    assert(declare_model(orig.take(i as int)) + module_dups(
                        ds.take((k + 1) as int),
                        base as nat,
                    ) =~= old_model.push((Severity::Error, dup_msg(name_v), span_v)));
                }
            } else {
                scope.insert(name_copy, id);
            }
            if is_entry && cache.entry_point().is_none() {
                cache.set_entry_point(id);
            }
            k += 1;
        }
        proof {
            assert(ds.take(ds.len() as int) =~= ds);
        }
        infos.push(
            ModuleInfo { qualifier, imports, first_id: base, n_decls: k, scope },
        );
        proof {
            let ii = i as int;
            assert(flat_decls(orig.take(ii + 1)) == flat_decls(orig.take(ii)) + ds);
            assert(declare_model(orig.take(ii + 1)) == declare_model(orig.take(ii)) + module_dups(
                ds,
                module_base(orig.take(ii + 1), ii),
            ));
            assert(orig.take(ii + 1).take(ii) =~= orig.take(ii));
            assert(module_base(orig.take(ii + 1), ii) == base);
            assert forall|j: int| 0 <= j < ii + 1 implies info_matches(
                orig.take(ii + 1)[j],
                #[trigger] infos@[j],
                module_base(orig.take(ii + 1), j),
            ) by {
                assert(orig.take(ii + 1).take(j) =~= orig.take(ii).take(j));
                if j < ii {
                    assert(info_matches(orig.take(ii)[j], infos@[j], module_base(orig.take(ii), j)));
                } else {
                    assert(orig.take(ii + 1)[j] == orig[ii]);
                }
            }
        }
        i += 1;
    }
    proof {
        assert(orig.take(orig.len() as int) =~= orig);
    }
    DeclareOutput { cache, infos, diagnostics: diags }
}

// ------------------------------------------------------------------
// Linking pass: ghost model
// ------------------------------------------------------------------

/// The module records partition the binding ids `0..n` contiguously, in
/// module order.
pub open spec fn infos_partition(infos: Seq<ModuleInfo>, n: nat) -> bool {
    &&& (infos.len() == 0 ==> n == 0)
    &&& (infos.len() > 0 ==> infos[0].first_id == 0 && infos.last().first_id + infos.last().n_decls
        == n)
    &&& forall|i: int|
        0 <= i < infos.len() - 1 ==> (#[trigger] infos[i + 1].first_id) == infos[i].first_id
            + infos[i].n_decls
    &&& forall|i: int|
        0 <= i < infos.len() ==> (#[trigger] infos[i].first_id) + infos[i].n_decls <= n
}

/// Records that match a compilation unit partition its flattened ids.
pub proof fn lemma_infos_match_partition(ms: Seq<SourceModule>, infos: Seq<ModuleInfo>)
    requires
        infos_match(ms, infos),
    ensures
        infos_partition(infos, flat_decls(ms).len()),
{
    assert forall|i: int| 0 <= i < infos.len() - 1 implies (#[trigger] infos[i + 1].first_id)
        == infos[i].first_id + infos[i].n_decls by {
        assert(ms.take(i + 1).drop_last() =~= ms.take(i));
        assert(ms.take(i + 1).last() == ms[i]);
    }
    assert forall|i: int| 0 <= i < infos.len() implies (#[trigger] infos[i].first_id)
        + infos[i].n_decls <= flat_decls(ms).len() by {
        assert(ms.take(i + 1).drop_last() =~= ms.take(i));
        assert(ms.take(i + 1).last() == ms[i]);
        lemma_flat_take_le(ms, i + 1);
    }
    if infos.len() > 0 {
        assert(ms.take(0) =~= Seq::<SourceModule>::empty());
        let l = infos.len() - 1;
        assert(ms.take(l + 1).drop_last() =~= ms.take(l));
        assert(ms.take(l + 1).last() == ms[l]);
        assert(ms.take(l + 1) =~= ms);
    }
}

/// Module records stand side by side: an earlier module's id range ends at
/// or before a later module's start.
pub proof fn lemma_partition_mono(infos: Seq<ModuleInfo>, n: nat, a: int, b: int)
    requires
        infos_partition(infos, n),
        0 <= a < b < infos.len(),
    ensures
        infos[a].first_id + infos[a].n_decls <= infos[b].first_id,
    decreases b - a,
{
    if a + 1 < b {
        lemma_partition_mono(infos, n, a + 1, b);
        assert(infos[a + 1].first_id == infos[a].first_id + infos[a].n_decls);
    } else {
        assert(infos[a + 1].first_id == infos[a].first_id + infos[a].n_decls);
    }
}

/// Every binding id lies in exactly one module's range; this gives the
/// module and the offset.
pub proof fn lemma_partition_covers(infos: Seq<ModuleInfo>, n: nat, id: int)
    requires
        infos_partition(infos, n),
        0 <= id < n,
    ensures
        exists|i: int|
            0 <= i < infos.len() && (#[trigger] infos[i]).first_id <= id && id < infos[i].first_id
                + infos[i].n_decls,
    decreases infos.len(),
{
    assert(infos.len() > 0) by {
        if infos.len() == 0 {
            assert(n == 0);
        }
    }
    let l = infos.len() - 1;
    if id >= infos[l].first_id {
        assert(0 <= l < infos.len() && infos[l].first_id <= id && id < infos[l].first_id
            + infos[l].n_decls);
    } else {
        let prefix = infos.drop_last();
        assert(prefix.len() == l);
        assert forall|i: int| 0 <= i < prefix.len() implies (#[trigger] prefix[i]).first_id
            + prefix[i].n_decls <= infos[l].first_id by {
            assert(prefix[i] == infos[i]);
            lemma_partition_mono(infos, n, i, l);
        }
        assert forall|i: int| 0 <= i < prefix.len() - 1 implies (#[trigger] prefix[i
            + 1].first_id) == prefix[i].first_id + prefix[i].n_decls by {
            assert(prefix[i] == infos[i] && prefix[i + 1] == infos[i + 1]);
        }
        assert(prefix.len() > 0) by {
            assert(infos[0].first_id == 0);
        }
        assert(prefix.last() == infos[l - 1]);
        let i0 = l - 1;
        assert(infos[i0 + 1].first_id == infos[i0].first_id + infos[i0].n_decls);
        assert(prefix.last().first_id + prefix.last().n_decls == infos[l].first_id);
        assert(infos_partition(prefix, infos[l].first_id as nat));
        lemma_partition_covers(prefix, infos[l].first_id as nat, id);
        let i = choose|i: int|
            0 <= i < prefix.len() && (#[trigger] prefix[i]).first_id <= id && id < prefix[
                i
            ].first_id + prefix[i].n_decls;
        assert(infos[i] == prefix[i]);
        assert(0 <= i < infos.len() && infos[i].first_id <= id && id < infos[i].first_id
            + infos[i].n_decls);
    }
}

/// The first module whose namespace is `q`, searching from index `k` on.
pub open spec fn find_module_from(infos: Seq<ModuleInfo>, q: Qualifier, k: int) -> Option<usize>
    decreases infos.len() - k,
{
    if k < 0 || k >= infos.len() {
        None
    } else if same_qualifier(infos[k].qualifier, q) {
        Some(k as usize)
    } else {
        find_module_from(infos, q, k + 1)
    }
}

/// The module an import qualifier addresses: the first with that namespace.
pub open spec fn find_module_model(infos: Seq<ModuleInfo>, q: Qualifier) -> Option<usize> {
    find_module_from(infos, q, 0)
}

/// The imports among the first `j` of `imports` whose target module's scope
/// binds `name`: pairs of the import's position and the bound id, in order.
pub open spec fn import_hits_upto(
    infos: Seq<ModuleInfo>,
    imports: Seq<Qualifier>,
    name: Seq<char>,
    j: int,
) -> Seq<(usize, usize)>
    decreases j,
{
    if j <= 0 {
        Seq::empty()
    } else {
        let prev = import_hits_upto(infos, imports, name, j - 1);
        match find_module_model(infos, imports[j - 1]) {
            Some(t) => if infos[t as int].scope@.contains_key(name) {
                prev.push(((j - 1) as usize, infos[t as int].scope@[name]))
            } else {
                prev
            },
            None => prev,
        }
    }
}

/// Every import of a module whose target scope binds `name`.
pub open spec fn import_hits(infos: Seq<ModuleInfo>, i: int, name: Seq<char>) -> Seq<
    (usize, usize),
> {
    import_hits_upto(infos, infos[i].imports@, name, infos[i].imports@.len() as int)
}

/// A hit recorded among the first `j` imports names one of those imports.
pub proof fn lemma_import_hits_bounds(
    infos: Seq<ModuleInfo>,
    imports: Seq<Qualifier>,
    name: Seq<char>,
    j: int,
)
    requires
        j <= usize::MAX,
    ensures
        forall|x: int|
            0 <= x < import_hits_upto(infos, imports, name, j).len()
                ==> (#[trigger] import_hits_upto(infos, imports, name, j)[x]).0 < j,
    decreases j,
{
    if j > 0 {
        lemma_import_hits_bounds(infos, imports, name, j - 1);
        let prev = import_hits_upto(infos, imports, name, j - 1);
        let cur = import_hits_upto(infos, imports, name, j);
        assert forall|x: int| 0 <= x < cur.len() implies (cur[x]).0 < j by {
            if x < prev.len() {
                assert(cur[x] == prev[x]);
            } else {
                assert(cur.len() == prev.len() + 1);
                assert(cur[x].0 == j - 1);
            }
        }
    }
}

/// A search that names a module names one inside the record list.
pub proof fn lemma_find_module_bounds(infos: Seq<ModuleInfo>, q: Qualifier, k: int)
    requires
        find_module_from(infos, q, k) is Some,
    ensures
        (find_module_from(infos, q, k)->0 as int) < infos.len(),
    decreases infos.len() - k,
{
    if 0 <= k < infos.len() && !same_qualifier(infos[k].qualifier, q) {
        lemma_find_module_bounds(infos, q, k + 1);
    }
}

/// A recorded import hit carries a binding some module's scope binds the
/// name to.
pub proof fn lemma_import_hit_value(
    infos: Seq<ModuleInfo>,
    imports: Seq<Qualifier>,
    name: Seq<char>,
    j: int,
    x: int,
)
    requires
        0 <= x < import_hits_upto(infos, imports, name, j).len(),
    ensures
        exists|t: int|
            0 <= t < infos.len() && #[trigger] infos[t].scope@.contains_key(name)
                && import_hits_upto(infos, imports, name, j)[x].1 == infos[t].scope@[name],
    decreases j,
{
    let cur = import_hits_upto(infos, imports, name, j);
    let prev = import_hits_upto(infos, imports, name, j - 1);
    if x < prev.len() {
        lemma_import_hit_value(infos, imports, name, j - 1, x);
        let t = choose|t: int|
            0 <= t < infos.len() && #[trigger] infos[t].scope@.contains_key(name) && prev[x].1
                == infos[t].scope@[name];
        assert(cur[x] == prev[x]);
        assert(cur[x].1 == infos[t].scope@[name]);
    } else {
        match find_module_model(infos, imports[j - 1]) {
            Some(tm) => {
                if infos[tm as int].scope@.contains_key(name) {
                    assert(cur == prev.push(((j - 1) as usize, infos[tm as int].scope@[name])));
                    assert(cur[x].1 == infos[tm as int].scope@[name]);
                    lemma_find_module_bounds(infos, imports[j - 1], 0);
                } else {
                    assert(cur == prev);
                    assert(false);
                }
            },
            None => {
                assert(cur == prev);
                assert(false);
            },
        }
    }
}

/// Outcome of resolving one identifier from inside one module.
#[derive(Clone, Copy, Debug, PartialEq, Eq, Structural)]
pub enum NameLookup {
    /// Bound: the binding id the identifier denotes.
    Found(usize),
    /// No declaration of that name is visible.
    NotFound,
    /// The name is visible from two imported scopes; the payload names the
    /// positions of the two candidate imports.
    Ambiguous(usize, usize),
}

/// Resolution of `name` from module `i`: the module's own scope wins; then
/// the imported scopes, which must agree on a single candidate.
pub open spec fn resolve_model(infos: Seq<ModuleInfo>, i: int, name: Seq<char>) -> NameLookup {
    if infos[i].scope@.contains_key(name) {
        NameLookup::Found(infos[i].scope@[name])
    } else {
        let hits = import_hits(infos, i, name);
        if hits.len() == 0 {
            NameLookup::NotFound
        } else if hits.len() == 1 {
            NameLookup::Found(hits[0].1)
        } else {
            NameLookup::Ambiguous(hits[0].0, hits[1].0)
        }
    }
}

/// Message of the unresolved-identifier error.
pub open spec fn unresolved_msg(name: Seq<char>) -> Seq<char> {
    "unresolved identifier `"@ + name + "`"@
}

/// Message of the ambiguous-identifier error, naming both candidates.
pub open spec fn ambig_msg(name: Seq<char>, a: Qualifier, b: Qualifier) -> Seq<char> {
    "ambiguous identifier `"@ + name + "`: found in `"@ + a.package_name@ + "::"@ + a.module_name@
        + "` and `"@ + b.package_name@ + "::"@ + b.module_name@ + "`"@
}

/// Whether `name` names one of the formal parameters.
pub open spec fn params_have(params: Seq<crate::ast::Param>, name: Seq<char>) -> bool {
    exists|j: int| 0 <= j < params.len() && params[j].name@ == name
}

/// The global binding one expression refers to, if it resolves: parameter
/// references are local and literals refer to nothing.
pub open spec fn expr_slot(
    infos: Seq<ModuleInfo>,
    i: int,
    params: Seq<crate::ast::Param>,
    e: Expr,
) -> Option<usize> {
    match e {
        Expr::Ref(n) => if params_have(params, n@) {
            None
        } else {
            match resolve_model(infos, i, n@) {
                NameLookup::Found(t) => Some(t),
                _ => None,
            }
        },
        _ => None,
    }
}

/// The diagnostics resolving one expression produces.
pub open spec fn expr_diags(
    infos: Seq<ModuleInfo>,
    i: int,
    params: Seq<crate::ast::Param>,
    e: Expr,
    span: Option<(usize, usize)>,
) -> Seq<DiagEntry> {
    match e {
        Expr::Ref(n) => if params_have(params, n@) {
            Seq::empty()
        } else {
            match resolve_model(infos, i, n@) {
                NameLookup::Found(_) => Seq::empty(),
                NameLookup::NotFound => seq![(Severity::Error, unresolved_msg(n@), span)],
                NameLookup::Ambiguous(a, b) => seq![
                    (
                        Severity::Error,
                        ambig_msg(
                            n@,
                            infos[i].imports@[a as int],
                            infos[i].imports@[b as int],
                        ),
                        span,
                    ),
                ],
            }
        },
        _ => Seq::empty(),
    }
}

/// The binding a call statement's callee resolves to, if it resolves;
/// callees are always top-level symbols.
pub open spec fn callee_slot(infos: Seq<ModuleInfo>, i: int, c: Seq<char>) -> Option<usize> {
    match resolve_model(infos, i, c) {
        NameLookup::Found(t) => Some(t),
        _ => None,
    }
}

/// The diagnostics resolving a callee produces.
pub open spec fn callee_diags(
    infos: Seq<ModuleInfo>,
    i: int,
    c: Seq<char>,
    span: Option<(usize, usize)>,
) -> Seq<DiagEntry> {
    match resolve_model(infos, i, c) {
        NameLookup::Found(_) => Seq::empty(),
        NameLookup::NotFound => seq![(Severity::Error, unresolved_msg(c), span)],
        NameLookup::Ambiguous(a, b) => seq![
            (
                Severity::Error,
                ambig_msg(c, infos[i].imports@[a as int], infos[i].imports@[b as int]),
                span,
            ),
        ],
    }
}

/// The diagnostics of a sequence of argument expressions, in order.
pub open spec fn exprs_diags(
    infos: Seq<ModuleInfo>,
    i: int,
    params: Seq<crate::ast::Param>,
    es: Seq<Expr>,
    span: Option<(usize, usize)>,
) -> Seq<DiagEntry>
    decreases es.len(),
{
    if es.len() == 0 {
        Seq::empty()
    } else {
        exprs_diags(infos, i, params, es.drop_last(), span) + expr_diags(
            infos,
            i,
            params,
            es.last(),
            span,
        )
    }
}

/// The diagnostics of one statement: the callee first, then the arguments
/// in order.
pub open spec fn stmt_diags(
    infos: Seq<ModuleInfo>,
    i: int,
    params: Seq<crate::ast::Param>,
    s: Stmt,
    span: Option<(usize, usize)>,
) -> Seq<DiagEntry> {
    match s {
        Stmt::Call(c, args) => callee_diags(infos, i, c@, span) + exprs_diags(
            infos,
            i,
            params,
            args@,
            span,
        ),
        Stmt::Return(e) => match e {
            Some(ex) => expr_diags(infos, i, params, ex, span),
            None => Seq::empty(),
        },
    }
}

/// The diagnostics of a body prefix, statement by statement.
pub open spec fn stmts_diags(
    infos: Seq<ModuleInfo>,
    i: int,
    params: Seq<crate::ast::Param>,
    body: Seq<Stmt>,
    span: Option<(usize, usize)>,
) -> Seq<DiagEntry>
    decreases body.len(),
{
    if body.len() == 0 {
        Seq::empty()
    } else {
        stmts_diags(infos, i, params, body.drop_last(), span) + stmt_diags(
            infos,
            i,
            params,
            body.last(),
            span,
        )
    }
}

/// The diagnostics linking one declaration produces: only function bodies
/// hold identifier references.
pub open spec fn decl_diags(infos: Seq<ModuleInfo>, i: int, d: Declaration) -> Seq<DiagEntry> {
    match d.kind {
        DeclKind::Function(f) => stmts_diags(infos, i, f.params@, f.body@, d.span),
        _ => Seq::empty(),
    }
}

/// The diagnostics of the first `k` declarations of module `i`.
pub open spec fn module_link_model(
    infos: Seq<ModuleInfo>,
    ds: Seq<Declaration>,
    i: int,
    k: int,
) -> Seq<DiagEntry>
    decreases k,
{
    if k <= 0 {
        Seq::empty()
    } else {
        module_link_model(infos, ds, i, k - 1) + decl_diags(
            infos,
            i,
            ds[infos[i].first_id + k - 1],
        )
    }
}

/// The linking pass's whole report over the first `upto` modules.
pub open spec fn link_model_upto(infos: Seq<ModuleInfo>, ds: Seq<Declaration>, upto: int) -> Seq<
    DiagEntry,
>
    decreases upto,
{
    if upto <= 0 {
        Seq::empty()
    } else {
        link_model_upto(infos, ds, upto - 1) + module_link_model(
            infos,
            ds,
            upto - 1,
            infos[upto - 1].n_decls as int,
        )
    }
}

/// The linking pass's whole report, module by module, declaration by
/// declaration, reference by reference.
pub open spec fn link_model(infos: Seq<ModuleInfo>, ds: Seq<Declaration>) -> Seq<DiagEntry> {
    link_model_upto(infos, ds, infos.len() as int)
}

// ------------------------------------------------------------------
// Resolution side table
// ------------------------------------------------------------------

/// Resolved references of one statement: the callee's binding id, if the
/// statement is a call whose callee resolved, and one slot per expression
/// (`None` for literals, parameter references and failed resolutions).
pub struct StmtRefs {
    pub callee: Option<usize>,
    pub exprs: Vec<Option<usize>>,
}

/// Resolved references of one declaration, statement by statement; empty
/// for declarations without a body.
pub struct DeclRefs {
    pub stmts: Vec<StmtRefs>,
}

/// The side table the linking pass writes: derived reference data keyed by
/// binding id, leaving the declarations themselves untouched.
pub struct Resolution {
    pub decls: Vec<DeclRefs>,
}

/// The reference slots recorded for one statement agree with the model.
pub open spec fn stmt_refs_ok(
    infos: Seq<ModuleInfo>,
    i: int,
    params: Seq<crate::ast::Param>,
    s: Stmt,
    sr: StmtRefs,
) -> bool {
    match s {
        Stmt::Call(c, args) => {
            &&& sr.callee == callee_slot(infos, i, c@)
            &&& sr.exprs@.len() == args@.len()
            &&& forall|j: int|
                0 <= j < args@.len() ==> (#[trigger] sr.exprs@[j]) == expr_slot(
                    infos,
                    i,
                    params,
                    args@[j],
                )
        },
        Stmt::Return(e) => {
            &&& sr.callee is None
            &&& match e {
                Some(ex) => sr.exprs@.len() == 1 && sr.exprs@[0] == expr_slot(
                    infos,
                    i,
                    params,
                    ex,
                ),
                None => sr.exprs@.len() == 0,
            }
        },
    }
}

/// The reference rows recorded for one declaration agree with the model.
pub open spec fn decl_refs_ok(infos: Seq<ModuleInfo>, i: int, d: Declaration, dr: DeclRefs) -> bool {
    match d.kind {
        DeclKind::Function(f) => {
            &&& dr.stmts@.len() == f.body@.len()
            &&& forall|s: int|
                0 <= s < f.body@.len() ==> stmt_refs_ok(
                    infos,
                    i,
                    f.params@,
                    f.body@[s],
                    #[trigger] dr.stmts@[s],
                )
        },
        _ => dr.stmts@.len() == 0,
    }
}

/// The whole side table agrees with the model, binding id by binding id.
pub open spec fn resolution_ok(
    infos: Seq<ModuleInfo>,
    ds: Seq<Declaration>,
    rows: Seq<DeclRefs>,
) -> bool {
    &&& rows.len() == ds.len()
    &&& forall|i: int, k: int|
        0 <= i < infos.len() && 0 <= k < infos[i].n_decls ==> decl_refs_ok(
            infos,
            i,
            ds[infos[i].first_id + k],
            #[trigger] rows[infos[i].first_id + k],
        )
}

/// Import position `j` of module `i` makes `name` visible: the import
/// names a module, and that module's scope binds the name.
pub open spec fn import_sees(infos: Seq<ModuleInfo>, i: int, j: int, name: Seq<char>) -> bool {
    match find_module_model(infos, infos[i].imports@[j]) {
        Some(t) => infos[t as int].scope@.contains_key(name),
        None => false,
    }
}

/// The binding an import position resolves a name to.
pub open spec fn import_binding(
    infos: Seq<ModuleInfo>,
    i: int,
    j: int,
    name: Seq<char>,
) -> usize {
    infos[find_module_model(infos, infos[i].imports@[j])->0 as int].scope@[name]
}

/// When exactly one import position sees the name, the hit list of the
/// first `j` imports is empty up to that position and afterwards holds
/// exactly that position's binding.
proof fn lemma_hits_single(infos: Seq<ModuleInfo>, i: int, name: Seq<char>, j0: int, j: int)
    requires
        0 <= i < infos.len(),
        infos[i].imports@.len() <= usize::MAX,
        0 <= j0 < infos[i].imports@.len(),
        import_sees(infos, i, j0, name),
        forall|j2: int|
            0 <= j2 < infos[i].imports@.len() && j2 != j0 ==> !import_sees(infos, i, j2, name),
        0 <= j <= infos[i].imports@.len(),
    ensures
        j <= j0 ==> import_hits_upto(infos, infos[i].imports@, name, j) =~= Seq::<
            (usize, usize),
        >::empty(),
        j > j0 ==> import_hits_upto(infos, infos[i].imports@, name, j) =~= seq![
            (j0 as usize, import_binding(infos, i, j0, name)),
        ],
    decreases j,
{
    if j > 0 {
        lemma_hits_single(infos, i, name, j0, j - 1);
        let prev = import_hits_upto(infos, infos[i].imports@, name, j - 1);
        let cur = import_hits_upto(infos, infos[i].imports@, name, j);
        if j - 1 == j0 {
            assert(import_sees(infos, i, j0, name));
            let t = find_module_model(infos, infos[i].imports@[j0])->0;
            assert(cur =~= prev.push((j0 as usize, infos[t as int].scope@[name])));
        } else {
            assert(!import_sees(infos, i, j - 1, name));
            assert(cur =~= prev);
        }
    }
}

/// The declare-before-link barrier holds: a symbol declared only in a
/// module parsed later than the referencing one still resolves, because
/// every scope is complete before any linking starts. The referencing
/// module may import any number of namespaces; the symbol must be absent
/// from the module's own scope and visible through exactly one of its
/// imports. Nothing here depends on how the referencing module and the
/// declaring module are ordered in the compilation unit.
pub proof fn lemma_declare_before_link(
    ms: Seq<SourceModule>,
    infos: Seq<ModuleInfo>,
    i: int,
    j0: int,
    x: Seq<char>,
)
    requires
        infos_match(ms, infos),
        0 <= i < ms.len(),
        infos[i].imports@.len() <= usize::MAX,
        !infos[i].scope@.contains_key(x),
        0 <= j0 < infos[i].imports@.len(),
        import_sees(infos, i, j0, x),
        forall|j: int|
            0 <= j < infos[i].imports@.len() && j != j0 ==> !import_sees(infos, i, j, x),
    ensures
        resolve_model(infos, i, x) == NameLookup::Found(import_binding(infos, i, j0, x)),
{
    lemma_hits_single(infos, i, x, j0, infos[i].imports@.len() as int);
    let hits = import_hits(infos, i, x);
    assert(hits =~= seq![(j0 as usize, import_binding(infos, i, j0, x))]);
}

/// One of the statement's recorded slots points at binding `t`.
pub open spec fn stmt_refs_to(sr: StmtRefs, t: usize) -> bool {
    ||| sr.callee == Some(t)
    ||| exists|j: int| 0 <= j < sr.exprs@.len() && sr.exprs@[j] == Some(t)
}

/// One of the declaration's recorded slots points at binding `t`.
pub open spec fn decl_refs_to(dr: DeclRefs, t: usize) -> bool {
    exists|s: int| 0 <= s < dr.stmts@.len() && stmt_refs_to(#[trigger] dr.stmts@[s], t)
}

/// The reference graph the side table records: declaration `a` references
/// declaration `b`.
pub open spec fn table_edge(rows: Seq<DeclRefs>, a: usize, b: usize) -> bool {
    a < rows.len() && decl_refs_to(rows[a as int], b)
}

// ------------------------------------------------------------------
// Linking pass: executable
// ------------------------------------------------------------------

/// Whether `name` names one of the formal parameters.
pub(crate) fn params_contain(params: &Vec<crate::ast::Param>, name: &String) -> (r: bool)
    ensures
        r == params_have(params@, name@),
{
    let mut j: usize = 0;
    while j < params.len()
        invariant
            0 <= j <= params@.len(),
            forall|x: int| 0 <= x < j ==> (#[trigger] params@[x]).name@ != name@,
        decreases params@.len() - j,
    {
        if params[j].name == *name {
            return true;
        }
        j += 1;
    }
    false
}

/// The module an import qualifier addresses, if any: the first module with
/// that namespace, in file order.
fn find_module(infos: &Vec<ModuleInfo>, q: &Qualifier) -> (r: Option<usize>)
    ensures
        r == find_module_model(infos@, *q),
        r is Some ==> r->0 < infos@.len(),
{
    let mut t: usize = 0;
    while t < infos.len()
        invariant
            0 <= t <= infos@.len(),
            find_module_model(infos@, *q) == find_module_from(infos@, *q, t as int),
        decreases infos@.len() - t,
    {
        if infos[t].qualifier.same(q) {
            return Some(t);
        }
        t += 1;
    }
    None
}

/// Resolves one identifier from inside module `i`: the module's own scope
/// first, then every imported scope. Every declared scope is complete
/// before this runs, so the answer does not depend on file order.
pub fn resolve_name(infos: &Vec<ModuleInfo>, i: usize, name: &String) -> (r: NameLookup)
    requires
        i < infos@.len(),
    ensures
        r == resolve_model(infos@, i as int, name@),
{
    match infos[i].scope.get(name.as_str()) {
        Some(id) => {
            return NameLookup::Found(*id);
        },
        None => {},
    }
    let n_imports = infos[i].imports.len();
    let mut first_idx: usize = 0;
    let mut first_id: usize = 0;
    let mut have_first = false;
    let mut second_idx: usize = 0;
    let mut have_second = false;
    let mut j: usize = 0;
    while j < n_imports
        invariant
            i < infos@.len(),
            n_imports == infos@[i as int].imports@.len(),
            0 <= j <= n_imports,
            !infos@[i as int].scope@.contains_key(name@),
            ({
                let hits = import_hits_upto(infos@, infos@[i as int].imports@, name@, j as int);
                &&& (hits.len() == 0 <==> !have_first)
                &&& (have_first ==> hits.len() >= 1 && hits[0].0 == first_idx && hits[0].1
                    == first_id)
                &&& (hits.len() >= 2 <==> have_second)
                &&& (have_second ==> hits[1].0 == second_idx)
            }),
        decreases n_imports - j,
    {
        let q = &infos[i].imports[j];
        match find_module(infos, q) {
            Some(t) => {
                match infos[t].scope.get(name.as_str()) {
                    Some(id) => {
                        if !have_first {
                            have_first = true;
                            first_idx = j;
                            first_id = *id;
                        } else if !have_second {
                            have_second = true;
                            second_idx = j;
                        }
                    },
                    None => {},
                }
            },
            None => {},
        }
        j += 1;
    }
    if !have_first {
        NameLookup::NotFound
    } else if !have_second {
        NameLookup::Found(first_id)
    } else {
        NameLookup::Ambiguous(first_idx, second_idx)
    }
}

/// Message naming both candidate namespaces of an ambiguous identifier.
fn ambiguous_msg(name: &String, a: &Qualifier, b: &Qualifier) -> (r: String)
    ensures
        r@ == ambig_msg(name@, *a, *b),
{
    let mut s = "ambiguous identifier `".to_owned();
    push_str(&mut s, name.as_str());
    push_str(&mut s, "`: found in `");
    push_str(&mut s, a.package_name.as_str());
    push_str(&mut s, "::");
    push_str(&mut s, a.module_name.as_str());
    push_str(&mut s, "` and `");
    push_str(&mut s, b.package_name.as_str());
    push_str(&mut s, "::");
    push_str(&mut s, b.module_name.as_str());
    push_str(&mut s, "`");
    proof {
        assert(s@ =~= ambig_msg(name@, *a, *b));
    }
    s
}

/// Resolves one top-level reference and reports a failure: the error
/// diagnostic for an unresolved identifier, or for one visible from two
/// imported scopes, naming both candidates.
fn resolve_and_report(
    infos: &Vec<ModuleInfo>,
    i: usize,
    name: &String,
    span: Option<(usize, usize)>,
    diags: &mut Vec<Diagnostic>,
) -> (slot: Option<usize>)
    requires
        i < infos@.len(),
    ensures
        slot == callee_slot(infos@, i as int, name@),
        crate::diagnostic::extends_matching(
            old(diags)@,
            final(diags)@,
            callee_diags(infos@, i as int, name@, span),
        ),
{
    match resolve_name(infos, i, name) {
        NameLookup::Found(t) => {
            proof {
                crate::diagnostic::lemma_extends_refl(diags@);
            }
            Some(t)
        },
        NameLookup::NotFound => {
            let msg = join3("unresolved identifier `", name.as_str(), "`");
            let d = Diagnostic::error_at(msg, span);
            let ghost prev = diags@;
            diags.push(d);
            proof {
                crate::diagnostic::lemma_extends_push(
                    prev,
                    d,
                    (Severity::Error, unresolved_msg(name@), span),
                );
            }
            None
        },
        NameLookup::Ambiguous(a, b) => {
            let n_imp = infos[i].imports.len();
            proof {
                assert(infos@[i as int].imports@.len() == n_imp);
                lemma_import_hits_bounds(
                    infos@,
                    infos@[i as int].imports@,
                    name@,
                    infos@[i as int].imports@.len() as int,
                );
            }
            let qa = &infos[i].imports[a];
            let qb = &infos[i].imports[b];
            let msg = ambiguous_msg(name, qa, qb);
            let d = Diagnostic::error_at(msg, span);
            let ghost prev = diags@;
            diags.push(d);
            proof {
                crate::diagnostic::lemma_extends_push(
                    prev,
                    d,
                    (
                        Severity::Error,
                        ambig_msg(
                            name@,
                            infos@[i as int].imports@[a as int],
                            infos@[i as int].imports@[b as int],
                        ),
                        span,
                    ),
                );
            }
            None
        },
    }
}

/// Resolves one expression: a parameter reference is local and resolves to
/// no binding; a reference to a top-level symbol is looked up in the
/// scopes; literals refer to nothing.
fn link_expr(
    infos: &Vec<ModuleInfo>,
    i: usize,
    params: &Vec<crate::ast::Param>,
    e: &Expr,
    span: Option<(usize, usize)>,
    diags: &mut Vec<Diagnostic>,
) -> (slot: Option<usize>)
    requires
        i < infos@.len(),
    ensures
        slot == expr_slot(infos@, i as int, params@, *e),
        crate::diagnostic::extends_matching(
            old(diags)@,
            final(diags)@,
            expr_diags(infos@, i as int, params@, *e, span),
        ),
{
    match e {
        Expr::Ref(n) => {
            if params_contain(params, n) {
                proof {
                    crate::diagnostic::lemma_extends_refl(diags@);
                }
                None
            } else {
                resolve_and_report(infos, i, n, span, diags)
            }
        },
        _ => {
            proof {
                crate::diagnostic::lemma_extends_refl(diags@);
            }
            None
        },
    }
}

/// Links one statement: resolves the callee and every argument of a call,
/// or the returned expression; records the slots for the later passes.
fn link_stmt(
    infos: &Vec<ModuleInfo>,
    i: usize,
    params: &Vec<crate::ast::Param>,
    s: &Stmt,
    span: Option<(usize, usize)>,
    diags: &mut Vec<Diagnostic>,
) -> (sr: StmtRefs)
    requires
        i < infos@.len(),
    ensures
        stmt_refs_ok(infos@, i as int, params@, *s, sr),
        crate::diagnostic::extends_matching(
            old(diags)@,
            final(diags)@,
            stmt_diags(infos@, i as int, params@, *s, span),
        ),
{
    match s {
        Stmt::Call(c, args) => {
            let ghost d0 = diags@;
            let callee = resolve_and_report(infos, i, c, span, diags);
            let mut exprs: Vec<Option<usize>> = Vec::new();
            let mut j: usize = 0;
            proof {
                assert(args@.take(0) =~= Seq::<Expr>::empty());
                assert(callee_diags(infos@, i as int, c@, span) + exprs_diags(
                    infos@,
                    i as int,
                    params@,
                    args@.take(0),
                    span,
                ) =~= callee_diags(infos@, i as int, c@, span));
            }
            while j < args.len()
                invariant
                    i < infos@.len(),
                    0 <= j <= args@.len(),
                    exprs@.len() == j,
                    callee == callee_slot(infos@, i as int, c@),
                    forall|x: int|
                        0 <= x < j ==> (#[trigger] exprs@[x]) == expr_slot(
                            infos@,
                            i as int,
                            params@,
                            args@[x],
                        ),
                    crate::diagnostic::extends_matching(
                        d0,
                        diags@,
                        callee_diags(infos@, i as int, c@, span) + exprs_diags(
                            infos@,
                            i as int,
                            params@,
                            args@.take(j as int),
                            span,
                        ),
                    ),
                decreases args@.len() - j,
            {
                let ghost dprev = diags@;
                let slot = link_expr(infos, i, params, &args[j], span, diags);
                exprs.push(slot);
                proof {
                    crate::diagnostic::lemma_extends_trans(
                        d0,
                        dprev,
                        diags@,
                        callee_diags(infos@, i as int, c@, span) + exprs_diags(
                            infos@,
                            i as int,
                            params@,
                            args@.take(j as int),
                            span,
                        ),
                        expr_diags(infos@, i as int, params@, args@[j as int], span),
                    );
                    assert(args@.take((j + 1) as int).drop_last() =~= args@.take(j as int));
                    assert(args@.take((j + 1) as int).last() == args@[j as int]);
                    assert((callee_diags(infos@, i as int, c@, span) + exprs_diags(
                        infos@,
                        i as int,
                        params@,
                        args@.take(j as int),
                        span,
                    )) + expr_diags(infos@, i as int, params@, args@[j as int], span)
                        =~= callee_diags(infos@, i as int, c@, span) + exprs_diags(
                        infos@,
                        i as int,
                        params@,
                        args@.take((j + 1) as int),
                        span,
                    ));
                }
                j += 1;
            }
            proof {
                assert(args@.take(args@.len() as int) =~= args@);
            }
            StmtRefs { callee, exprs }
        },
        Stmt::Return(eo) => {
            match eo {
                Some(ex) => {
                    let slot = link_expr(infos, i, params, ex, span, diags);
                    let mut exprs: Vec<Option<usize>> = Vec::new();
                    exprs.push(slot);
                    StmtRefs { callee: None, exprs }
                },
                None => {
                    proof {
                        crate::diagnostic::lemma_extends_refl(diags@);
                    }
                    StmtRefs { callee: None, exprs: Vec::new() }
                },
            }
        },
    }
}

/// Links one declaration: walks a function body reference by reference;
/// declarations without bodies hold no references.
fn link_decl(
    infos: &Vec<ModuleInfo>,
    i: usize,
    d: &Declaration,
    diags: &mut Vec<Diagnostic>,
) -> (dr: DeclRefs)
    requires
        i < infos@.len(),
    ensures
        decl_refs_ok(infos@, i as int, *d, dr),
        crate::diagnostic::extends_matching(
            old(diags)@,
            final(diags)@,
            decl_diags(infos@, i as int, *d),
        ),
{
    match &d.kind {
        DeclKind::Function(f) => {
            let span = d.span;
            let ghost d0 = diags@;
            let mut stmts: Vec<StmtRefs> = Vec::new();
            let mut s: usize = 0;
            proof {
                assert(f.body@.take(0) =~= Seq::<Stmt>::empty());
                crate::diagnostic::lemma_extends_refl(diags@);
            }
            while s < f.body.len()
                invariant
                    i < infos@.len(),
                    0 <= s <= f.body@.len(),
                    stmts@.len() == s,
                    forall|x: int|
                        0 <= x < s ==> stmt_refs_ok(
                            infos@,
                            i as int,
                            f.params@,
                            f.body@[x],
                            #[trigger] stmts@[x],
                        ),
                    crate::diagnostic::extends_matching(
                        d0,
                        diags@,
                        stmts_diags(infos@, i as int, f.params@, f.body@.take(s as int), span),
                    ),
                decreases f.body@.len() - s,
            {
                let ghost dprev = diags@;
                let sr = link_stmt(infos, i, &f.params, &f.body[s], span, diags);
                stmts.push(sr);
                proof {
                    crate::diagnostic::lemma_extends_trans(
                        d0,
                        dprev,
                        diags@,
                        stmts_diags(infos@, i as int, f.params@, f.body@.take(s as int), span),
                        stmt_diags(infos@, i as int, f.params@, f.body@[s as int], span),
                    );
                    assert(f.body@.take((s + 1) as int).drop_last() =~= f.body@.take(s as int));
                    assert(f.body@.take((s + 1) as int).last() == f.body@[s as int]);
                }
                s += 1;
            }
            proof {
                assert(f.body@.take(f.body@.len() as int) =~= f.body@);
            }
            DeclRefs { stmts }
        },
        _ => {
            proof {
                crate::diagnostic::lemma_extends_refl(diags@);
            }
            DeclRefs { stmts: Vec::new() }
        },
    }
}

/// The linking pass. Runs strictly after the declaration pass has finished
/// for every module, walks every declaration in binding-id order, resolves
/// each identifier reference against the complete scopes, and reports
/// every failure; no error stops the walk, so one run shows them all.
pub fn link_all(cache: &Cache, infos: &Vec<ModuleInfo>) -> (r: (Resolution, Vec<Diagnostic>))
    requires
        infos_partition(infos@, cache.decls@.len() as nat),
    ensures
        resolution_ok(infos@, cache.decls@, r.0.decls@),
        diags_match(r.1@, link_model(infos@, cache.decls@)),
{
    let ghost ds = cache.decls@;
    let total = cache.decls.len();
    let mut rows: Vec<DeclRefs> = Vec::new();
    let mut diags: Vec<Diagnostic> = Vec::new();
    let mut i: usize = 0;
    while i < infos.len()
        invariant
            infos_partition(infos@, cache.decls@.len() as nat),
            ds == cache.decls@,
            ds.len() == total,
            0 <= i <= infos@.len(),
            rows@.len() == (if i < infos@.len() {
                infos@[i as int].first_id as int
            } else {
                ds.len() as int
            }),
            forall|i2: int, k: int|
                0 <= i2 < i && 0 <= k < infos@[i2].n_decls ==> decl_refs_ok(
                    infos@,
                    i2,
                    ds[infos@[i2].first_id + k],
                    #[trigger] rows@[infos@[i2].first_id + k],
                ),
            diags_match(diags@, link_model_upto(infos@, ds, i as int)),
        decreases infos@.len() - i,
    {
        let first = infos[i].first_id;
        let n = infos[i].n_decls;
        let mut k: usize = 0;
        proof {
            assert(module_link_model(infos@, ds, i as int, 0) =~= Seq::<DiagEntry>::empty());
            assert(link_model_upto(infos@, ds, i as int) + module_link_model(
                infos@,
                ds,
                i as int,
                0,
            ) =~= link_model_upto(infos@, ds, i as int));
        }
        while k < n
            invariant
                infos_partition(infos@, cache.decls@.len() as nat),
                ds == cache.decls@,
                ds.len() == total,
                i < infos@.len(),
                first == infos@[i as int].first_id,
                n == infos@[i as int].n_decls,
                0 <= k <= n,
                rows@.len() == first + k,
                forall|i2: int, k2: int|
                    0 <= i2 < i && 0 <= k2 < infos@[i2].n_decls ==> decl_refs_ok(
                        infos@,
                        i2,
                        ds[infos@[i2].first_id + k2],
                        #[trigger] rows@[infos@[i2].first_id + k2],
                    ),
                forall|x: int|
                    0 <= x < k ==> decl_refs_ok(
                        infos@,
                        i as int,
                        ds[first + x],
                        #[trigger] rows@[first + x],
                    ),
                diags_match(
                    diags@,
                    link_model_upto(infos@, ds, i as int) + module_link_model(
                        infos@,
                        ds,
                        i as int,
                        k as int,
                    ),
                ),
            decreases n - k,
        {
            proof {
                assert(infos@[i as int].first_id + infos@[i as int].n_decls <= ds.len());
            }
            let id = first + k;
            let ghost dprev = diags@;
            let ghost rows_prev = rows@;
            let dr = link_decl(infos, i, &cache.decls[id], &mut diags);
            rows.push(dr);
            proof {
                assert forall|i2: int, k2: int|
                    0 <= i2 < i && 0 <= k2 < infos@[i2].n_decls implies decl_refs_ok(
                    infos@,
                    i2,
                    ds[infos@[i2].first_id + k2],
                    #[trigger] rows@[infos@[i2].first_id + k2],
                ) by {
                    lemma_partition_mono(infos@, ds.len() as nat, i2, i as int);
                    assert(infos@[i2].first_id + k2 < rows_prev.len());
                    assert(rows@[infos@[i2].first_id + k2] == rows_prev[infos@[i2].first_id
                        + k2]);
                }
                crate::diagnostic::lemma_extends_matches(
                    dprev,
                    diags@,
                    link_model_upto(infos@, ds, i as int) + module_link_model(
                        infos@,
                        ds,
                        i as int,
                        k as int,
                    ),
                    decl_diags(infos@, i as int, ds[id as int]),
                );
                assert((link_model_upto(infos@, ds, i as int) + module_link_model(
                    infos@,
                    ds,
                    i as int,
                    k as int,
                )) + decl_diags(infos@, i as int, ds[id as int]) =~= link_model_upto(
                    infos@,
                    ds,
                    i as int,
                ) + module_link_model(infos@, ds, i as int, (k + 1) as int));
            }
            k += 1;
        }
        proof {
            if i as int + 1 < infos@.len() {
                assert(infos@[i as int + 1].first_id == infos@[i as int].first_id + infos@[i
                    as int].n_decls);
            }
        }
        i += 1;
    }
    proof {
        assert(diags_match(diags@, link_model(infos@, ds)));
    }
    (Resolution { decls: rows }, diags)
}

} // verus!
