//! The driver: the pass manager that runs the pipeline in its fixed phase
//! order with error-gating between phases.
//!
//! Order: declare every module, link everything, gate; check that an
//! executable package designated an entry point; type-check and lint,
//! gate; finalize the lint, gate; lower from the entry point. Each gate
//! inspects the accumulated diagnostics; any `Error` or `Internal` entry
//! ends the compilation with everything collected so far and no later
//! phase runs. The driver is the sole authority on stopping: the phases
//! only return their diagnostics.

use vstd::prelude::*;
use crate::ast::{decl_is_entry, Compilation, Declaration};
use crate::diagnostic::{
    diags_match, gates, lemma_diags_match_concat, lemma_diags_match_gating,
    lemma_diags_match_push, model_gating, DiagEntry, Diagnostic, Severity,
};
use crate::lint::{finalize_model, lint_all, lint_finalize, lint_model};
use crate::lower::{artifact_ok, lower, Artifact};
use crate::package::PackageType;
use crate::resolve::{
    declare_all, declare_model, entry_model, flat_decls, infos_match,
    lemma_infos_match_partition, link_all, link_model, DeclRefs, DeclareOutput, ModuleInfo,
};
use crate::typecheck::{lemma_resolution_shape, tc_model, typecheck_all};

verus! {

/// Message of the fatal missing-entry-point diagnostic.
pub open spec fn no_entry_msg() -> Seq<char> {
    "no entry point defined"@
}

/// The diagnostics of the first two phases: declaring and linking.
pub open spec fn phase_front(c: Compilation, infos: Seq<ModuleInfo>) -> Seq<DiagEntry> {
    declare_model(c.modules@) + link_model(infos, flat_decls(c.modules@))
}

/// The entry-point checkpoint fails: an executable package whose
/// declarations never defined the reserved entry-point function.
pub open spec fn entry_missing(c: Compilation) -> bool {
    c.manifest.ty is Executable && entry_model(flat_decls(c.modules@)) is None
}

/// The diagnostics of the analysis phase: type checking then linting.
pub open spec fn phase_analysis(c: Compilation, rows: Seq<DeclRefs>) -> Seq<DiagEntry> {
    tc_model(flat_decls(c.modules@), rows) + lint_model(flat_decls(c.modules@))
}

/// The diagnostics of the lint finalize phase.
pub open spec fn phase_finalize(c: Compilation, rows: Seq<DeclRefs>) -> Seq<DiagEntry> {
    finalize_model(
        flat_decls(c.modules@),
        rows,
        entry_model(flat_decls(c.modules@)),
        flat_decls(c.modules@).len() as int,
    )
}

/// The whole report one compilation produces, phase by phase: every gate
/// that fires truncates the run, and everything collected so far is still
/// returned.
pub open spec fn run_diags_model(
    c: Compilation,
    infos: Seq<ModuleInfo>,
    rows: Seq<DeclRefs>,
) -> Seq<DiagEntry> {
    let front = phase_front(c, infos);
    if model_gating(front) {
        front
    } else if entry_missing(c) {
        front.push((Severity::Error, no_entry_msg(), None))
    } else {
        let through_analysis = front + phase_analysis(c, rows);
        if model_gating(through_analysis) {
            through_analysis
        } else {
            through_analysis + phase_finalize(c, rows)
        }
    }
}

/// Whether the lowering phase runs and an artifact is emitted: every gate
/// passed and the package is an executable with an entry point.
pub open spec fn run_emits(c: Compilation, infos: Seq<ModuleInfo>, rows: Seq<DeclRefs>) -> bool {
    &&& !model_gating(phase_front(c, infos))
    &&& !entry_missing(c)
    &&& !model_gating(phase_front(c, infos) + phase_analysis(c, rows))
    &&& c.manifest.ty is Executable
}

/// Everything one compilation returns: the ordered report of every phase
/// that ran, and the IR artifact if lowering ran. The ghost fields carry
/// the intermediate state the contracts speak of: the registered
/// declarations, the module records, the reference table and the entry
/// point.
pub struct BuildOutput {
    pub diagnostics: Vec<Diagnostic>,
    pub artifact: Option<Artifact>,
    pub decls: Ghost<Seq<Declaration>>,
    pub infos: Ghost<Seq<ModuleInfo>>,
    pub rows: Ghost<Seq<DeclRefs>>,
    pub entry: Ghost<Option<usize>>,
}

/// An executable package that defines no entry-point function, and whose
/// declaring and linking came through clean, fails with exactly one
/// gating diagnostic: the fatal missing-entry-point error, last in the
/// report. No later phase runs and nothing is emitted.
pub proof fn lemma_missing_entry_point(
    c: Compilation,
    infos: Seq<ModuleInfo>,
    rows: Seq<DeclRefs>,
)
    requires
        c.manifest.ty is Executable,
        forall|id: int|
            0 <= id < flat_decls(c.modules@).len() ==> !decl_is_entry(
                #[trigger] flat_decls(c.modules@)[id],
            ),
        !model_gating(phase_front(c, infos)),
    ensures
        run_diags_model(c, infos, rows) == phase_front(c, infos).push(
            (Severity::Error, no_entry_msg(), None),
        ),
        forall|i: int|
            0 <= i < run_diags_model(c, infos, rows).len() ==> (gates(
                (#[trigger] run_diags_model(c, infos, rows)[i]).0,
            ) <==> i == run_diags_model(c, infos, rows).len() - 1),
        !run_emits(c, infos, rows),
{
    crate::resolve::lemma_entry_model_none(flat_decls(c.modules@));
    let m = run_diags_model(c, infos, rows);
    let front = phase_front(c, infos);
    assert forall|i: int| 0 <= i < m.len() implies (gates((#[trigger] m[i]).0) <==> i == m.len()
        - 1) by {
        if i < front.len() {
            assert(m[i] == front[i]);
            assert(!gates(front[i].0));
        } else {
            assert(m[i] == (Severity::Error, no_entry_msg(), None::<(usize, usize)>));
        }
    }
}

/// Lowering is idempotent per binding: however many times a binding is
/// referenced, an artifact the walk emits never holds two definitions of
/// it.
pub proof fn lemma_lowered_at_most_once(
    ds: Seq<Declaration>,
    rows: Seq<DeclRefs>,
    entry: usize,
    a: Artifact,
    x: int,
    y: int,
)
    requires
        artifact_ok(ds, rows, entry, a),
        0 <= x < y < a.defs@.len(),
    ensures
        a.defs@[x].binding != a.defs@[y].binding,
{
}

/// Gate monotonicity: an error anywhere up to the analysis phase stops
/// the pipeline at the next gate. The report ends with the phase that
/// failed and no artifact is emitted — no effect attributable to a later
/// phase occurs.
pub proof fn lemma_gate_monotonic(c: Compilation, infos: Seq<ModuleInfo>, rows: Seq<DeclRefs>)
    requires
        model_gating(phase_front(c, infos) + phase_analysis(c, rows)),
    ensures
        !run_emits(c, infos, rows),
        model_gating(phase_front(c, infos)) ==> run_diags_model(c, infos, rows) == phase_front(
            c,
            infos,
        ),
        !model_gating(phase_front(c, infos)) && !entry_missing(c) ==> run_diags_model(
            c,
            infos,
            rows,
        ) == phase_front(c, infos) + phase_analysis(c, rows),
{
}

/// Round trip: an executable compilation that declares an entry point and
/// comes through declaring, linking, type checking and linting without an
/// error emits an artifact and reports no error at all.
pub proof fn lemma_clean_build_emits(c: Compilation, infos: Seq<ModuleInfo>, rows: Seq<DeclRefs>)
    requires
        c.manifest.ty is Executable,
        entry_model(flat_decls(c.modules@)) is Some,
        !model_gating(phase_front(c, infos) + phase_analysis(c, rows)),
    ensures
        run_emits(c, infos, rows),
        !model_gating(run_diags_model(c, infos, rows)),
{
    let front = phase_front(c, infos);
    let analysis = phase_analysis(c, rows);
    let fin = phase_finalize(c, rows);
    crate::diagnostic::lemma_model_gating_concat(front, analysis);
    crate::diagnostic::lemma_model_gating_concat(front + analysis, fin);
    crate::lint::lemma_finalize_all_warnings(
        flat_decls(c.modules@),
        rows,
        entry_model(flat_decls(c.modules@)),
        flat_decls(c.modules@).len() as int,
    );
    if model_gating(fin) {
        let i = choose|i: int| 0 <= i < fin.len() && gates(fin[i].0);
        assert(fin[i].0 is Warning);
        assert(false);
    }
}

/// Runs one whole compilation through the fixed phase order with
/// error-gating between phases, and returns every diagnostic collected
/// plus the artifact if lowering ran. A failed phase is terminal: there is
/// no retry inside one compilation.
pub fn run(c: Compilation) -> (out: BuildOutput)
    requires
        flat_decls(c.modules@).len() < usize::MAX,
    ensures
        out.decls@ == flat_decls(c.modules@),
        out.entry@ == entry_model(flat_decls(c.modules@)),
        infos_match(c.modules@, out.infos@),
        crate::resolve::resolution_ok(out.infos@, out.decls@, out.rows@),
        diags_match(out.diagnostics@, run_diags_model(c, out.infos@, out.rows@)),
        out.artifact is Some <==> run_emits(c, out.infos@, out.rows@),
        match out.artifact {
            Some(a) => {
                &&& out.entry@ is Some
                &&& artifact_ok(out.decls@, out.rows@, out.entry@->0, a)
                &&& a.defs@.len() >= 1
            },
            None => true,
        },
{
    let manifest_ty = c.manifest.ty;
    let ghost gc = c;
    let dec = declare_all(c.modules);
    let DeclareOutput { cache, infos, diagnostics } = dec;
    let mut diags = diagnostics;
    proof {
        lemma_infos_match_partition(gc.modules@, infos@);
    }
    let (res, mut link_diags) = link_all(&cache, &infos);
    let ghost m_front = phase_front(gc, infos@);
    proof {
        lemma_diags_match_concat(
            diags@,
            declare_model(gc.modules@),
            link_diags@,
            link_model(infos@, cache.decls@),
        );
    }
    diags.append(&mut link_diags);
    if crate::diagnostic::has_error(&diags) {
        proof {
            lemma_diags_match_gating(diags@, m_front);
        }
        return BuildOutput {
            diagnostics: diags,
            artifact: None,
            decls: Ghost(cache.decls@),
            infos: Ghost(infos@),
            rows: Ghost(res.decls@),
            entry: Ghost(cache.entry),
        };
    }
    proof {
        lemma_diags_match_gating(diags@, m_front);
    }
    // post-resolution checkpoint: an executable package must have
    // designated an entry point by now
    let have_entry = match cache.entry_point() {
        Some(_) => true,
        None => false,
    };
    if manifest_ty == PackageType::Executable && !have_entry {
        let dg = Diagnostic::error("no entry point defined".to_owned());
        let ghost prev = diags@;
        diags.push(dg);
        proof {
            lemma_diags_match_push(prev, m_front, dg, (Severity::Error, no_entry_msg(), None));
        }
        return BuildOutput {
            diagnostics: diags,
            artifact: None,
            decls: Ghost(cache.decls@),
            infos: Ghost(infos@),
            rows: Ghost(res.decls@),
            entry: Ghost(cache.entry),
        };
    }
    proof {
        lemma_resolution_shape(infos@, cache.decls@, res.decls@);
    }
    let mut tcd = typecheck_all(&cache, &res);
    let mut ld = lint_all(&cache);
    let ghost m_analysis = m_front + phase_analysis(gc, res.decls@);
    proof {
        lemma_diags_match_concat(tcd@, tc_model(cache.decls@, res.decls@), ld@, lint_model(cache.decls@));
        lemma_diags_match_concat(
            diags@,
            m_front,
            tcd@ + ld@,
            tc_model(cache.decls@, res.decls@) + lint_model(cache.decls@),
        );
        assert(m_front + (tc_model(cache.decls@, res.decls@) + lint_model(cache.decls@))
            =~= m_analysis);
    }
    diags.append(&mut tcd);
    diags.append(&mut ld);
    if crate::diagnostic::has_error(&diags) {
        proof {
            lemma_diags_match_gating(diags@, m_analysis);
        }
        return BuildOutput {
            diagnostics: diags,
            artifact: None,
            decls: Ghost(cache.decls@),
            infos: Ghost(infos@),
            rows: Ghost(res.decls@),
            entry: Ghost(cache.entry),
        };
    }
    proof {
        lemma_diags_match_gating(diags@, m_analysis);
    }
    // finalize lint: whole-program advisories over the linked table
    let mut fd = lint_finalize(&cache, &res);
    let ghost m_final = m_analysis + phase_finalize(gc, res.decls@);
    proof {
        lemma_diags_match_concat(diags@, m_analysis, fd@, phase_finalize(gc, res.decls@));
    }
    diags.append(&mut fd);
    if crate::diagnostic::has_error(&diags) {
        proof {
            // this gate can never fire: the finalize step only warns
            lemma_diags_match_gating(diags@, m_final);
            crate::lint::lemma_finalize_all_warnings(
                cache.decls@,
                res.decls@,
                entry_model(cache.decls@),
                cache.decls@.len() as int,
            );
            let i = choose|i: int| 0 <= i < m_final.len() && gates(m_final[i].0);
            if i < m_analysis.len() {
                assert(gates(m_analysis[i].0));
                assert(model_gating(m_analysis));
            } else {
                assert(m_final[i] == phase_finalize(gc, res.decls@)[i - m_analysis.len()]);
            }
            assert(false);
        }
        return BuildOutput {
            diagnostics: diags,
            artifact: None,
            decls: Ghost(cache.decls@),
            infos: Ghost(infos@),
            rows: Ghost(res.decls@),
            entry: Ghost(cache.entry),
        };
    }
    // lowering: reachability walk from the entry point, executables only
    if manifest_ty == PackageType::Executable {
        let entry = match cache.entry_point() {
            Some(e) => e,
            None => {
                proof {
                    assert(false);
                }
                0
            },
        };
        let artifact = lower(&cache, &res, entry);
        BuildOutput {
            diagnostics: diags,
            artifact: Some(artifact),
            decls: Ghost(cache.decls@),
            infos: Ghost(infos@),
            rows: Ghost(res.decls@),
            entry: Ghost(cache.entry),
        }
    } else {
        BuildOutput {
            diagnostics: diags,
            artifact: None,
            decls: Ghost(cache.decls@),
            infos: Ghost(infos@),
            rows: Ghost(res.decls@),
            entry: Ghost(cache.entry),
        }
    }
}

} // verus!
