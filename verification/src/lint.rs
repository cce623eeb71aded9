//! The linter: an independent advisory pass over the same declarations.
//! Per-declaration checks report unused parameters and unreachable code;
//! the finalize step runs whole-program checks — a top-level symbol never
//! referenced anywhere — and therefore needs the complete, fully linked
//! reference table, so it runs strictly after linking. Everything here is
//! `Warning` severity and never halts the pipeline.

use vstd::prelude::*;
use crate::ast::{DeclKind, Declaration, Expr, FunctionDecl, Stmt};
use crate::cache::Cache;
use crate::diagnostic::{
    diags_match, extends_matching, lemma_extends_matches, lemma_extends_push, lemma_extends_refl,
    DiagEntry, Diagnostic, Severity,
};
use crate::resolve::{decl_refs_to, DeclRefs, Resolution};
use crate::text::join3;

verus! {

// ------------------------------------------------------------------
// Ghost model
// ------------------------------------------------------------------

/// The expression is a reference to the name.
pub open spec fn expr_mentions(e: Expr, name: Seq<char>) -> bool {
    match e {
        Expr::Ref(n) => n@ == name,
        _ => false,
    }
}

/// The statement mentions the name in one of its expressions.
pub open spec fn stmt_mentions(s: Stmt, name: Seq<char>) -> bool {
    match s {
        Stmt::Call(_, args) => exists|j: int|
            0 <= j < args@.len() && expr_mentions(#[trigger] args@[j], name),
        Stmt::Return(eo) => match eo {
            Some(ex) => expr_mentions(ex, name),
            None => false,
        },
    }
}

/// The body mentions the name somewhere.
pub open spec fn body_mentions(body: Seq<Stmt>, name: Seq<char>) -> bool {
    exists|s: int| 0 <= s < body.len() && stmt_mentions(#[trigger] body[s], name)
}

/// Message of the unused-parameter advisory.
pub open spec fn unused_param_msg(p: Seq<char>) -> Seq<char> {
    "unused parameter `"@ + p + "`"@
}

/// Message of the unreachable-code advisory.
pub open spec fn unreachable_msg() -> Seq<char> {
    "unreachable code"@
}

/// The unused-parameter advisories of the first `j` parameters.
pub open spec fn unused_param_upto(f: FunctionDecl, span: Option<(usize, usize)>, j: int) -> Seq<
    DiagEntry,
>
    decreases j,
{
    if j <= 0 {
        Seq::empty()
    } else {
        unused_param_upto(f, span, j - 1) + (if body_mentions(f.body@, f.params@[j - 1].name@) {
            Seq::empty()
        } else {
            seq![(Severity::Warning, unused_param_msg(f.params@[j - 1].name@), span)]
        })
    }
}

/// A statement before the last is a return, so what follows it can never
/// run.
pub open spec fn has_early_return(body: Seq<Stmt>) -> bool {
    exists|s: int| 0 <= s < body.len() - 1 && (#[trigger] body[s]) is Return
}

/// The advisories one declaration's checks produce.
pub open spec fn lint_decl_diags(d: Declaration) -> Seq<DiagEntry> {
    match d.kind {
        DeclKind::Function(f) => unused_param_upto(f, d.span, f.params@.len() as int) + (if
        has_early_return(f.body@) {
            seq![(Severity::Warning, unreachable_msg(), d.span)]
        } else {
            Seq::empty()
        }),
        _ => Seq::empty(),
    }
}

/// The whole per-declaration pass's report over the first `id`
/// declarations.
pub open spec fn lint_model_upto(ds: Seq<Declaration>, id: int) -> Seq<DiagEntry>
    decreases id,
{
    if id <= 0 {
        Seq::empty()
    } else {
        lint_model_upto(ds, id - 1) + lint_decl_diags(ds[id - 1])
    }
}

/// The whole per-declaration pass's report.
pub open spec fn lint_model(ds: Seq<Declaration>) -> Seq<DiagEntry> {
    lint_model_upto(ds, ds.len() as int)
}

/// Binding `t` is referenced from somewhere in the program.
pub open spec fn used(rows: Seq<DeclRefs>, t: usize) -> bool {
    exists|a: int| 0 <= a < rows.len() && decl_refs_to(#[trigger] rows[a], t)
}

/// Message of the never-used-symbol advisory.
pub open spec fn never_used_msg(n: Seq<char>) -> Seq<char> {
    "symbol `"@ + n + "` is never used"@
}

/// The finalize step's report over the first `id` declarations: a symbol
/// that is neither the entry point nor referenced anywhere is advised on.
pub open spec fn finalize_model(
    ds: Seq<Declaration>,
    rows: Seq<DeclRefs>,
    entry: Option<usize>,
    id: int,
) -> Seq<DiagEntry>
    decreases id,
{
    if id <= 0 {
        Seq::empty()
    } else {
        finalize_model(ds, rows, entry, id - 1) + (if entry == Some((id - 1) as usize) || used(
            rows,
            (id - 1) as usize,
        ) {
            Seq::empty()
        } else {
            seq![(Severity::Warning, never_used_msg(ds[id - 1].name@), ds[id - 1].span)]
        })
    }
}

/// The finalize step only ever advises: every entry it models is a
/// warning, so it can never fire a gate.
pub proof fn lemma_finalize_all_warnings(
    ds: Seq<Declaration>,
    rows: Seq<DeclRefs>,
    entry: Option<usize>,
    id: int,
)
    ensures
        forall|i: int|
            0 <= i < finalize_model(ds, rows, entry, id).len() ==> (#[trigger] finalize_model(
                ds,
                rows,
                entry,
                id,
            )[i]).0 is Warning,
    decreases id,
{
    if id > 0 {
        lemma_finalize_all_warnings(ds, rows, entry, id - 1);
    }
}

// ------------------------------------------------------------------
// Executable linter
// ------------------------------------------------------------------

/// Whether a body mentions the name in any expression.
fn mentions_name(body: &Vec<Stmt>, name: &String) -> (r: bool)
    ensures
        r == body_mentions(body@, name@),
{
    let mut s: usize = 0;
    while s < body.len()
        invariant
            0 <= s <= body@.len(),
            forall|x: int| 0 <= x < s ==> !stmt_mentions(#[trigger] body@[x], name@),
        decreases body@.len() - s,
    {
        match &body[s] {
            Stmt::Call(_, args) => {
                let mut j: usize = 0;
                while j < args.len()
                    invariant
                        s < body@.len(),
                        body@[s as int] == Stmt::Call(
                            body@[s as int]->Call_0,
                            body@[s as int]->Call_1,
                        ),
                        args == &body@[s as int]->Call_1,
                        0 <= j <= args@.len(),
                        forall|x: int| 0 <= x < j ==> !expr_mentions(#[trigger] args@[x], name@),
                    decreases args@.len() - j,
                {
                    match &args[j] {
                        Expr::Ref(n) => {
                            if *n == *name {
                                proof {
                                    assert(expr_mentions(args@[j as int], name@));
                                    assert(stmt_mentions(body@[s as int], name@));
                                }
                                return true;
                            }
                        },
                        _ => {},
                    }
                    j += 1;
                }
            },
            Stmt::Return(eo) => {
                match eo {
                    Some(ex) => {
                        match ex {
                            Expr::Ref(n) => {
                                if *n == *name {
                                    proof {
                                        assert(stmt_mentions(body@[s as int], name@));
                                    }
                                    return true;
                                }
                            },
                            _ => {},
                        }
                    },
                    None => {},
                }
            },
        }
        s += 1;
    }
    false
}

/// The per-declaration lint pass: walks every declaration, advising on
/// parameters a body never mentions and on code after an early return.
pub fn lint_all(cache: &Cache) -> (out: Vec<Diagnostic>)
    ensures
        diags_match(out@, lint_model(cache.decls@)),
{
    let ghost ds = cache.decls@;
    let mut diags: Vec<Diagnostic> = Vec::new();
    let n = cache.decls.len();
    let mut id: usize = 0;
    while id < n
        invariant
            ds == cache.decls@,
            n == ds.len(),
            0 <= id <= n,
            diags_match(diags@, lint_model_upto(ds, id as int)),
        decreases n - id,
    {
        let d = &cache.decls[id];
        let ghost dprev = diags@;
        match &d.kind {
            DeclKind::Function(f) => {
                let mut j: usize = 0;
                proof {
                    lemma_extends_refl(diags@);
                }
                while j < f.params.len()
                    invariant
                        ds == cache.decls@,
                        id < ds.len(),
                        d == &ds[id as int],
                        ds[id as int].kind == DeclKind::Function(*f),
                        0 <= j <= f.params@.len(),
                        extends_matching(dprev, diags@, unused_param_upto(*f, d.span, j as int)),
                    decreases f.params@.len() - j,
                {
                    let ghost dmid = diags@;
                    let hit = mentions_name(&f.body, &f.params[j].name);
                    if !hit {
                        let msg = join3("unused parameter `", f.params[j].name.as_str(), "`");
                        let dg = Diagnostic::warning_at(msg, d.span);
                        diags.push(dg);
                        proof {
                            lemma_extends_push(
                                dmid,
                                dg,
                                (
                                    Severity::Warning,
                                    unused_param_msg(f.params@[j as int].name@),
                                    d.span,
                                ),
                            );
                        }
                    } else {
                        proof {
                            lemma_extends_refl(diags@);
                        }
                    }
                    proof {
                        crate::diagnostic::lemma_extends_trans(
                            dprev,
                            dmid,
                            diags@,
                            unused_param_upto(*f, d.span, j as int),
                            if body_mentions(f.body@, f.params@[j as int].name@) {
                                Seq::<DiagEntry>::empty()
                            } else {
                                seq![
                                    (
                                        Severity::Warning,
                                        unused_param_msg(f.params@[j as int].name@),
                                        d.span,
                                    ),
                                ]
                            },
                        );
                    }
                    j += 1;
                }
                let mut early = false;
                let mut s: usize = 0;
                let nb = f.body.len();
                while s < nb
                    invariant
                        nb == f.body@.len(),
                        0 <= s <= nb,
                        early == exists|x: int|
                            0 <= x < s && x < f.body@.len() - 1 && (#[trigger] f.body@[x]) is Return,
                    decreases nb - s,
                {
                    let is_ret = match &f.body[s] {
                        Stmt::Return(_) => true,
                        _ => false,
                    };
                    if is_ret && s + 1 < nb {
                        early = true;
                        proof {
                            assert(0 <= s < f.body@.len() - 1 && f.body@[s as int] is Return);
                        }
                    }
                    s += 1;
                }
                let ghost dmid2 = diags@;
                if early {
                    let dg = Diagnostic::warning_at("unreachable code".to_owned(), d.span);
                    diags.push(dg);
                    proof {
                        assert(has_early_return(f.body@));
                        lemma_extends_push(
                            dmid2,
                            dg,
                            (Severity::Warning, unreachable_msg(), d.span),
                        );
                        crate::diagnostic::lemma_extends_trans(
                            dprev,
                            dmid2,
                            diags@,
                            unused_param_upto(*f, d.span, f.params@.len() as int),
                            seq![(Severity::Warning, unreachable_msg(), d.span)],
                        );
                    }
                } else {
                    proof {
                        assert(!has_early_return(f.body@));
                        assert(unused_param_upto(*f, d.span, f.params@.len() as int)
                            + Seq::<DiagEntry>::empty() =~= unused_param_upto(
                            *f,
                            d.span,
                            f.params@.len() as int,
                        ));
                    }
                }
            },
            _ => {
                proof {
                    lemma_extends_refl(diags@);
                    assert(lint_decl_diags(ds[id as int]) =~= Seq::<DiagEntry>::empty());
                }
            },
        }
        proof {
            lemma_extends_matches(
                dprev,
                diags@,
                lint_model_upto(ds, id as int),
                lint_decl_diags(ds[id as int]),
            );
        }
        id += 1;
    }
    diags
}

/// Whether any declaration's recorded references point at binding `t`.
fn is_used(res: &Resolution, t: usize) -> (r: bool)
    ensures
        r == used(res.decls@, t),
{
    let mut a: usize = 0;
    while a < res.decls.len()
        invariant
            0 <= a <= res.decls@.len(),
            forall|x: int| 0 <= x < a ==> !decl_refs_to(#[trigger] res.decls@[x], t),
        decreases res.decls@.len() - a,
    {
        let dr = &res.decls[a];
        let mut s: usize = 0;
        while s < dr.stmts.len()
            invariant
                a < res.decls@.len(),
                dr == &res.decls@[a as int],
                0 <= s <= dr.stmts@.len(),
                forall|x: int|
                    0 <= x < s ==> !crate::resolve::stmt_refs_to(#[trigger] dr.stmts@[x], t),
            decreases dr.stmts@.len() - s,
        {
            let sr = &dr.stmts[s];
            match sr.callee {
                Some(c) => {
                    if c == t {
                        proof {
                            assert(crate::resolve::stmt_refs_to(dr.stmts@[s as int], t));
                            assert(decl_refs_to(res.decls@[a as int], t));
                        }
                        return true;
                    }
                },
                None => {},
            }
            let mut j: usize = 0;
            while j < sr.exprs.len()
                invariant
                    a < res.decls@.len(),
                    dr == &res.decls@[a as int],
                    s < dr.stmts@.len(),
                    sr == &dr.stmts@[s as int],
                    0 <= j <= sr.exprs@.len(),
                    forall|x: int| 0 <= x < j ==> (#[trigger] sr.exprs@[x]) != Some(t),
                decreases sr.exprs@.len() - j,
            {
                match sr.exprs[j] {
                    Some(c) => {
                        if c == t {
                            proof {
                                assert(crate::resolve::stmt_refs_to(dr.stmts@[s as int], t));
                                assert(decl_refs_to(res.decls@[a as int], t));
                            }
                            return true;
                        }
                    },
                    None => {},
                }
                j += 1;
            }
            proof {
                assert(!crate::resolve::stmt_refs_to(dr.stmts@[s as int], t));
            }
            s += 1;
        }
        a += 1;
    }
    false
}

/// The finalize step: whole-program advisories over the complete, fully
/// linked reference table. A top-level symbol that is neither the entry
/// point nor referenced by any recorded slot is advised on.
pub fn lint_finalize(cache: &Cache, res: &Resolution) -> (out: Vec<Diagnostic>)
    ensures
        diags_match(
            out@,
            finalize_model(cache.decls@, res.decls@, cache.entry, cache.decls@.len() as int),
        ),
{
    let ghost ds = cache.decls@;
    let ghost rows = res.decls@;
    let mut diags: Vec<Diagnostic> = Vec::new();
    let n = cache.decls.len();
    let mut id: usize = 0;
    while id < n
        invariant
            ds == cache.decls@,
            rows == res.decls@,
            n == ds.len(),
            0 <= id <= n,
            diags_match(diags@, finalize_model(ds, rows, cache.entry, id as int)),
        decreases n - id,
    {
        let is_entry = match cache.entry_point() {
            Some(e) => e == id,
            None => false,
        };
        let ghost dprev = diags@;
        if !is_entry && !is_used(res, id) {
            let msg = join3("symbol `", cache.decls[id].name.as_str(), "` is never used");
            let dg = Diagnostic::warning_at(msg, cache.decls[id].span);
            diags.push(dg);
            proof {
                lemma_extends_push(
                    dprev,
                    dg,
                    (Severity::Warning, never_used_msg(ds[id as int].name@), ds[id as int].span),
                );
                lemma_extends_matches(
                    dprev,
                    diags@,
                    finalize_model(ds, rows, cache.entry, id as int),
                    seq![
                        (
                            Severity::Warning,
                            never_used_msg(ds[id as int].name@),
                            ds[id as int].span,
                        ),
                    ],
                );
            }
        } else {
            proof {
                lemma_extends_refl(diags@);
                lemma_extends_matches(
                    dprev,
                    diags@,
                    finalize_model(ds, rows, cache.entry, id as int),
                    Seq::<DiagEntry>::empty(),
                );
            }
        }
        id += 1;
    }
    diags
}

} // verus!
