//! The type checker. Runs over the resolved declarations with read-only
//! access to the cache, assigns every expression exactly one concrete type
//! or reports a diagnostic, validates call arity and argument types, and
//! validates returns against the enclosing function's declared return
//! type. An `Error` here prevents the lowering phase from running; a
//! binding id that resolution recorded but the cache cannot produce is an
//! internal compiler defect and is reported as such.

use vstd::prelude::*;
use crate::ast::{DeclKind, Declaration, Expr, Param, Stmt, Ty};
use crate::cache::Cache;
use crate::diagnostic::{
    diags_match, extends_matching, lemma_extends_matches, lemma_extends_push, lemma_extends_refl,
    lemma_extends_trans, DiagEntry, Diagnostic, Severity,
};
use crate::resolve::{
    infos_partition, lemma_partition_covers, params_have, resolution_ok, DeclRefs, ModuleInfo,
    Resolution, StmtRefs,
};
use crate::text::join3;

verus! {

// ------------------------------------------------------------------
// Ghost model
// ------------------------------------------------------------------

/// Message of the internal defect raised by a stale binding id.
pub open spec fn internal_msg() -> Seq<char> {
    "binding id not found in cache"@
}

/// Message of a reference to a symbol that is not a value.
pub open spec fn not_value_msg(n: Seq<char>) -> Seq<char> {
    "`"@ + n + "` is not a value"@
}

/// Message of a call whose callee is not a function.
pub open spec fn not_fn_msg(c: Seq<char>) -> Seq<char> {
    "`"@ + c + "` is not a function"@
}

/// Message of a call with the wrong number of arguments.
pub open spec fn arity_msg(c: Seq<char>) -> Seq<char> {
    "wrong number of arguments in call to `"@ + c + "`"@
}

/// Message of a call argument whose type does not match the parameter.
pub open spec fn arg_mismatch_msg(c: Seq<char>) -> Seq<char> {
    "mismatched argument type in call to `"@ + c + "`"@
}

/// Message of a return that does not match the declared return type.
pub open spec fn ret_msg(fname: Seq<char>) -> Seq<char> {
    "mismatched return type in `"@ + fname + "`"@
}

/// The declared type of the first parameter with the given name, starting
/// the search at position `j`.
pub open spec fn param_ty_from(params: Seq<Param>, name: Seq<char>, j: int) -> Ty
    decreases params.len() - j,
{
    if j < 0 || j >= params.len() {
        Ty::Unit
    } else if params[j].name@ == name {
        params[j].ty
    } else {
        param_ty_from(params, name, j + 1)
    }
}

/// The declared type of the first parameter with the given name.
pub open spec fn param_ty(params: Seq<Param>, name: Seq<char>) -> Ty {
    param_ty_from(params, name, 0)
}

/// The one concrete type an expression obtains, if it obtains one:
/// literals carry their own type; a parameter reference carries the
/// parameter's declared type; a resolved reference to an external static
/// carries the static's type; everything else has none and is reported.
pub open spec fn expr_ty_model(
    ds: Seq<Declaration>,
    params: Seq<Param>,
    slot: Option<usize>,
    e: Expr,
) -> Option<Ty> {
    match e {
        Expr::UnitLit => Some(Ty::Unit),
        Expr::IntLit(_) => Some(Ty::Int),
        Expr::BoolLit(_) => Some(Ty::Bool),
        Expr::Ref(n) => if params_have(params, n@) {
            Some(param_ty(params, n@))
        } else {
            match slot {
                Some(t) => if (t as int) < ds.len() {
                    match ds[t as int].kind {
                        DeclKind::ExternStatic(ty) => Some(ty),
                        _ => None,
                    }
                } else {
                    None
                },
                None => None,
            }
        },
    }
}

/// The diagnostics typing one expression produces.
pub open spec fn tc_expr_diags(
    ds: Seq<Declaration>,
    params: Seq<Param>,
    slot: Option<usize>,
    e: Expr,
    span: Option<(usize, usize)>,
) -> Seq<DiagEntry> {
    match e {
        Expr::Ref(n) => if params_have(params, n@) {
            Seq::empty()
        } else {
            match slot {
                Some(t) => if (t as int) >= ds.len() {
                    seq![(Severity::Internal, internal_msg(), span)]
                } else {
                    match ds[t as int].kind {
                        DeclKind::ExternStatic(_) => Seq::empty(),
                        _ => seq![(Severity::Error, not_value_msg(n@), span)],
                    }
                },
                None => Seq::empty(),
            }
        },
        _ => Seq::empty(),
    }
}

/// The diagnostics typing the first `j` argument expressions produces.
pub open spec fn tc_exprs_upto(
    ds: Seq<Declaration>,
    params: Seq<Param>,
    es: Seq<Expr>,
    slots: Seq<Option<usize>>,
    span: Option<(usize, usize)>,
    j: int,
) -> Seq<DiagEntry>
    decreases j,
{
    if j <= 0 {
        Seq::empty()
    } else {
        tc_exprs_upto(ds, params, es, slots, span, j - 1) + tc_expr_diags(
            ds,
            params,
            slots[j - 1],
            es[j - 1],
            span,
        )
    }
}

/// The parameter types a callable declaration expects, if it is callable.
pub open spec fn fn_param_tys(k: DeclKind) -> Option<Seq<Ty>> {
    match k {
        DeclKind::Function(g) => Some(g.params@.map_values(|p: Param| p.ty)),
        DeclKind::ExternFunction(x) => Some(x.params@),
        _ => None,
    }
}

/// The mismatch diagnostics of the first `j` arguments against the
/// expected parameter types: an argument without a type was already
/// reported and is skipped.
pub open spec fn arg_mismatch_upto(
    ds: Seq<Declaration>,
    params: Seq<Param>,
    c: Seq<char>,
    es: Seq<Expr>,
    slots: Seq<Option<usize>>,
    tys: Seq<Ty>,
    span: Option<(usize, usize)>,
    j: int,
) -> Seq<DiagEntry>
    decreases j,
{
    if j <= 0 {
        Seq::empty()
    } else {
        arg_mismatch_upto(ds, params, c, es, slots, tys, span, j - 1) + (match expr_ty_model(
            ds,
            params,
            slots[j - 1],
            es[j - 1],
        ) {
            Some(ty) => if ty != tys[j - 1] {
                seq![(Severity::Error, arg_mismatch_msg(c), span)]
            } else {
                Seq::empty()
            },
            None => Seq::empty(),
        })
    }
}

/// The diagnostics validating one call against its callee's signature.
pub open spec fn call_sig_diags(
    ds: Seq<Declaration>,
    params: Seq<Param>,
    c: Seq<char>,
    es: Seq<Expr>,
    sr: StmtRefs,
    span: Option<(usize, usize)>,
) -> Seq<DiagEntry> {
    match sr.callee {
        None => Seq::empty(),
        Some(t) => if (t as int) >= ds.len() {
            seq![(Severity::Internal, internal_msg(), span)]
        } else {
            match fn_param_tys(ds[t as int].kind) {
                None => seq![(Severity::Error, not_fn_msg(c), span)],
                Some(tys) => if es.len() != tys.len() {
                    seq![(Severity::Error, arity_msg(c), span)]
                } else {
                    arg_mismatch_upto(ds, params, c, es, sr.exprs@, tys, span, es.len() as int)
                },
            }
        },
    }
}

/// The diagnostics checking one statement produces: first each argument
/// expression is typed, then the call is validated against the callee's
/// signature, or the return against the declared return type.
pub open spec fn tc_stmt_diags(
    ds: Seq<Declaration>,
    fname: Seq<char>,
    params: Seq<Param>,
    return_ty: Ty,
    s: Stmt,
    sr: StmtRefs,
    span: Option<(usize, usize)>,
) -> Seq<DiagEntry> {
    match s {
        Stmt::Call(c, args) => tc_exprs_upto(ds, params, args@, sr.exprs@, span, args@.len() as int)
            + call_sig_diags(ds, params, c@, args@, sr, span),
        Stmt::Return(eo) => match eo {
            Some(ex) => tc_expr_diags(ds, params, sr.exprs@[0], ex, span) + (match expr_ty_model(
                ds,
                params,
                sr.exprs@[0],
                ex,
            ) {
                Some(ty) => if ty != return_ty {
                    seq![(Severity::Error, ret_msg(fname), span)]
                } else {
                    Seq::empty()
                },
                None => Seq::empty(),
            }),
            None => if return_ty != Ty::Unit {
                seq![(Severity::Error, ret_msg(fname), span)]
            } else {
                Seq::empty()
            },
        },
    }
}

/// The diagnostics checking the first `s` statements of a body produces.
pub open spec fn tc_stmts_upto(
    ds: Seq<Declaration>,
    fname: Seq<char>,
    params: Seq<Param>,
    return_ty: Ty,
    body: Seq<Stmt>,
    srs: Seq<StmtRefs>,
    span: Option<(usize, usize)>,
    s: int,
) -> Seq<DiagEntry>
    decreases s,
{
    if s <= 0 {
        Seq::empty()
    } else {
        tc_stmts_upto(ds, fname, params, return_ty, body, srs, span, s - 1) + tc_stmt_diags(
            ds,
            fname,
            params,
            return_ty,
            body[s - 1],
            srs[s - 1],
            span,
        )
    }
}

/// The diagnostics checking one declaration produces: only functions hold
/// checkable bodies.
pub open spec fn tc_decl_diags(ds: Seq<Declaration>, d: Declaration, dr: crate::resolve::DeclRefs) -> Seq<
    DiagEntry,
> {
    match d.kind {
        DeclKind::Function(f) => tc_stmts_upto(
            ds,
            d.name@,
            f.params@,
            f.return_ty,
            f.body@,
            dr.stmts@,
            d.span,
            f.body@.len() as int,
        ),
        _ => Seq::empty(),
    }
}

/// The whole checking pass's report over the first `id` declarations.
pub open spec fn tc_model_upto(
    ds: Seq<Declaration>,
    rows: Seq<crate::resolve::DeclRefs>,
    id: int,
) -> Seq<DiagEntry>
    decreases id,
{
    if id <= 0 {
        Seq::empty()
    } else {
        tc_model_upto(ds, rows, id - 1) + tc_decl_diags(ds, ds[id - 1], rows[id - 1])
    }
}

/// The whole checking pass's report, declaration by declaration.
pub open spec fn tc_model(ds: Seq<Declaration>, rows: Seq<crate::resolve::DeclRefs>) -> Seq<
    DiagEntry,
> {
    tc_model_upto(ds, rows, ds.len() as int)
}

// ------------------------------------------------------------------
// Shape of a resolution table
// ------------------------------------------------------------------

/// The slots recorded for a statement have the statement's shape.
pub open spec fn stmt_shape_ok(s: Stmt, sr: StmtRefs) -> bool {
    match s {
        Stmt::Call(_, args) => sr.exprs@.len() == args@.len(),
        Stmt::Return(eo) => sr.callee is None && sr.exprs@.len() == (match eo {
            Some(_) => 1int,
            None => 0int,
        }),
    }
}

/// The rows recorded for a declaration have the declaration's shape.
pub open spec fn decl_shape_ok(d: Declaration, dr: crate::resolve::DeclRefs) -> bool {
    match d.kind {
        DeclKind::Function(f) => dr.stmts@.len() == f.body@.len() && forall|s: int|
            0 <= s < f.body@.len() ==> stmt_shape_ok(f.body@[s], #[trigger] dr.stmts@[s]),
        _ => true,
    }
}

/// The whole table has the declarations' shape.
pub open spec fn refs_shape_ok(ds: Seq<Declaration>, rows: Seq<crate::resolve::DeclRefs>) -> bool {
    &&& rows.len() == ds.len()
    &&& forall|id: int| 0 <= id < ds.len() ==> decl_shape_ok(ds[id], #[trigger] rows[id])
}

/// A table the linking pass wrote has the declarations' shape.
pub proof fn lemma_resolution_shape(
    infos: Seq<ModuleInfo>,
    ds: Seq<Declaration>,
    rows: Seq<DeclRefs>,
)
    requires
        infos_partition(infos, ds.len() as nat),
        resolution_ok(infos, ds, rows),
    ensures
        refs_shape_ok(ds, rows),
{
    assert forall|id: int| 0 <= id < ds.len() implies decl_shape_ok(
        ds[id],
        #[trigger] rows[id],
    ) by {
        lemma_partition_covers(infos, ds.len() as nat, id);
        let i = choose|i: int|
            0 <= i < infos.len() && (#[trigger] infos[i]).first_id <= id && id < infos[i].first_id
                + infos[i].n_decls;
        let k = id - infos[i].first_id;
        assert(infos[i].first_id + k == id);
        assert(crate::resolve::decl_refs_ok(
            infos,
            i,
            ds[infos[i].first_id + k],
            rows[infos[i].first_id + k],
        ));
        assert(crate::resolve::decl_refs_ok(infos, i, ds[id], rows[id]));
        match ds[id].kind {
            DeclKind::Function(f) => {
                assert forall|s: int| 0 <= s < f.body@.len() implies stmt_shape_ok(
                    f.body@[s],
                    #[trigger] rows[id].stmts@[s],
                ) by {
                    assert(crate::resolve::stmt_refs_ok(
                        infos,
                        i,
                        f.params@,
                        f.body@[s],
                        rows[id].stmts@[s],
                    ));
                }
            },
            _ => {},
        }
    }
}

// ------------------------------------------------------------------
// Executable checker
// ------------------------------------------------------------------

/// The declared type of the first parameter with the given name.
fn param_ty_of(params: &Vec<Param>, name: &String) -> (t: Ty)
    requires
        params_have(params@, name@),
    ensures
        t == param_ty(params@, name@),
{
    let mut j: usize = 0;
    while j < params.len()
        invariant
            0 <= j <= params@.len(),
            params_have(params@, name@),
            param_ty(params@, name@) == param_ty_from(params@, name@, j as int),
            exists|x: int| j <= x < params@.len() && (#[trigger] params@[x]).name@ == name@,
        decreases params@.len() - j,
    {
        if params[j].name == *name {
            return params[j].ty;
        }
        proof {
            let x = choose|x: int|
                j <= x < params@.len() && (#[trigger] params@[x]).name@ == name@;
            assert(x >= j + 1 && params@[x].name@ == name@);
        }
        j += 1;
    }
    proof {
        assert(false);
    }
    Ty::Unit
}

/// Types one expression, reporting a reference that names something other
/// than a value, or a stale binding id (an internal defect).
fn check_expr(
    cache: &Cache,
    params: &Vec<Param>,
    slot: Option<usize>,
    e: &Expr,
    span: Option<(usize, usize)>,
    diags: &mut Vec<Diagnostic>,
) -> (t: Option<Ty>)
    ensures
        t == expr_ty_model(cache.decls@, params@, slot, *e),
        extends_matching(
            old(diags)@,
            final(diags)@,
            tc_expr_diags(cache.decls@, params@, slot, *e, span),
        ),
{
    match e {
        Expr::UnitLit => {
            proof {
                lemma_extends_refl(diags@);
            }
            Some(Ty::Unit)
        },
        Expr::IntLit(_) => {
            proof {
                lemma_extends_refl(diags@);
            }
            Some(Ty::Int)
        },
        Expr::BoolLit(_) => {
            proof {
                lemma_extends_refl(diags@);
            }
            Some(Ty::Bool)
        },
        Expr::Ref(n) => {
            if crate::resolve::params_contain(params, n) {
                proof {
                    lemma_extends_refl(diags@);
                }
                Some(param_ty_of(params, n))
            } else {
                match slot {
                    Some(t) => {
                        match cache.lookup(t) {
                            Some(d) => {
                                match &d.kind {
                                    DeclKind::ExternStatic(ty) => {
                                        proof {
                                            lemma_extends_refl(diags@);
                                        }
                                        Some(*ty)
                                    },
                                    _ => {
                                        let msg = join3("`", n.as_str(), "` is not a value");
                                        let dg = Diagnostic::error_at(msg, span);
                                        let ghost prev = diags@;
                                        diags.push(dg);
                                        proof {
                                            lemma_extends_push(
                                                prev,
                                                dg,
                                                (Severity::Error, not_value_msg(n@), span),
                                            );
                                        }
                                        None
                                    },
                                }
                            },
                            None => {
                                let dg = Diagnostic::internal_at(
                                    "binding id not found in cache".to_owned(),
                                    span,
                                );
                                let ghost prev = diags@;
                                diags.push(dg);
                                proof {
                                    lemma_extends_push(
                                        prev,
                                        dg,
                                        (Severity::Internal, internal_msg(), span),
                                    );
                                }
                                None
                            },
                        }
                    },
                    None => {
                        proof {
                            lemma_extends_refl(diags@);
                        }
                        None
                    },
                }
            }
        },
    }
}

/// Checks one statement: types every argument, then validates the call
/// against the callee's signature, or the return against the declared
/// return type.
fn check_stmt(
    cache: &Cache,
    fname: &String,
    params: &Vec<Param>,
    return_ty: Ty,
    s: &Stmt,
    sr: &StmtRefs,
    span: Option<(usize, usize)>,
    diags: &mut Vec<Diagnostic>,
)
    requires
        stmt_shape_ok(*s, *sr),
    ensures
        extends_matching(
            old(diags)@,
            final(diags)@,
            tc_stmt_diags(cache.decls@, fname@, params@, return_ty, *s, *sr, span),
        ),
{
    let ghost ds = cache.decls@;
    match s {
        Stmt::Call(c, args) => {
            let ghost d0 = diags@;
            let mut tys: Vec<Option<Ty>> = Vec::new();
            let mut j: usize = 0;
            proof {
                lemma_extends_refl(diags@);
            }
            while j < args.len()
                invariant
                    ds == cache.decls@,
                    stmt_shape_ok(*s, *sr),
                    s == &Stmt::Call(*c, *args),
                    0 <= j <= args@.len(),
                    sr.exprs@.len() == args@.len(),
                    tys@.len() == j,
                    forall|x: int|
                        0 <= x < j ==> (#[trigger] tys@[x]) == expr_ty_model(
                            ds,
                            params@,
                            sr.exprs@[x],
                            args@[x],
                        ),
                    extends_matching(
                        d0,
                        diags@,
                        tc_exprs_upto(ds, params@, args@, sr.exprs@, span, j as int),
                    ),
                decreases args@.len() - j,
            {
                let ghost dprev = diags@;
                let slot = sr.exprs[j];
                let t = check_expr(cache, params, slot, &args[j], span, diags);
                tys.push(t);
                proof {
                    lemma_extends_trans(
                        d0,
                        dprev,
                        diags@,
                        tc_exprs_upto(ds, params@, args@, sr.exprs@, span, j as int),
                        tc_expr_diags(ds, params@, sr.exprs@[j as int], args@[j as int], span),
                    );
                }
                j += 1;
            }
            let ghost dmid = diags@;
            let ghost exprs_model = tc_exprs_upto(
                ds,
                params@,
                args@,
                sr.exprs@,
                span,
                args@.len() as int,
            );
            match sr.callee {
                None => {
                    proof {
                        lemma_extends_refl(diags@);
                        assert(exprs_model + call_sig_diags(ds, params@, c@, args@, *sr, span)
                            =~= exprs_model);
                    }
                },
                Some(t) => {
                    match cache.lookup(t) {
                        None => {
                            let dg = Diagnostic::internal_at(
                                "binding id not found in cache".to_owned(),
                                span,
                            );
                            let ghost prev = diags@;
                            diags.push(dg);
                            proof {
                                lemma_extends_push(
                                    prev,
                                    dg,
                                    (Severity::Internal, internal_msg(), span),
                                );
                                lemma_extends_trans(
                                    d0,
                                    dmid,
                                    diags@,
                                    exprs_model,
                                    call_sig_diags(ds, params@, c@, args@, *sr, span),
                                );
                            }
                        },
                        Some(d) => {
                            let callable = match &d.kind {
                                DeclKind::Function(_) => true,
                                DeclKind::ExternFunction(_) => true,
                                _ => false,
                            };
                            if !callable {
                                let msg = join3("`", c.as_str(), "` is not a function");
                                let dg = Diagnostic::error_at(msg, span);
                                let ghost prev = diags@;
                                diags.push(dg);
                                proof {
                                    lemma_extends_push(
                                        prev,
                                        dg,
                                        (Severity::Error, not_fn_msg(c@), span),
                                    );
                                    lemma_extends_trans(
                                        d0,
                                        dmid,
                                        diags@,
                                        exprs_model,
                                        call_sig_diags(ds, params@, c@, args@, *sr, span),
                                    );
                                }
                            } else {
                                let n_params = match &d.kind {
                                    DeclKind::Function(g) => g.params.len(),
                                    DeclKind::ExternFunction(x) => x.params.len(),
                                    _ => 0,
                                };
                                let ghost tys_model = fn_param_tys(ds[t as int].kind)->Some_0;
                                proof {
                                    assert(tys_model.len() == n_params);
                                }
                                if args.len() != n_params {
                                    let msg = join3(
                                        "wrong number of arguments in call to `",
                                        c.as_str(),
                                        "`",
                                    );
                                    let dg = Diagnostic::error_at(msg, span);
                                    let ghost prev = diags@;
                                    diags.push(dg);
                                    proof {
                                        lemma_extends_push(
                                            prev,
                                            dg,
                                            (Severity::Error, arity_msg(c@), span),
                                        );
                                        lemma_extends_trans(
                                            d0,
                                            dmid,
                                            diags@,
                                            exprs_model,
                                            call_sig_diags(ds, params@, c@, args@, *sr, span),
                                        );
                                    }
                                } else {
                                    let mut jj: usize = 0;
                                    proof {
                                        lemma_extends_refl(diags@);
                                    }
                                    while jj < args.len()
                                        invariant
                                            ds == cache.decls@,
                                            0 <= jj <= args@.len(),
                                            sr.exprs@.len() == args@.len(),
                                            sr.callee == Some(t),
                                            (t as int) < ds.len(),
                                            d == &ds[t as int],
                                            tys_model == fn_param_tys(ds[t as int].kind)->Some_0,
                                            fn_param_tys(ds[t as int].kind) is Some,
                                            tys_model.len() == args@.len(),
                                            tys@.len() == args@.len(),
                                            forall|x: int|
                                                0 <= x < args@.len() ==> (#[trigger] tys@[x])
                                                    == expr_ty_model(
                                                    ds,
                                                    params@,
                                                    sr.exprs@[x],
                                                    args@[x],
                                                ),
                                            extends_matching(
                                                dmid,
                                                diags@,
                                                arg_mismatch_upto(
                                                    ds,
                                                    params@,
                                                    c@,
                                                    args@,
                                                    sr.exprs@,
                                                    tys_model,
                                                    span,
                                                    jj as int,
                                                ),
                                            ),
                                        decreases args@.len() - jj,
                                    {
                                        let expected: Ty = match &d.kind {
                                            DeclKind::Function(g) => g.params[jj].ty,
                                            DeclKind::ExternFunction(x) => x.params[jj],
                                            _ => Ty::Unit,
                                        };
                                        proof {
                                            assert(expected == tys_model[jj as int]);
                                        }
                                        let ghost dprev = diags@;
                                        match tys[jj] {
                                            Some(ty) => {
                                                if ty != expected {
                                                    let msg = join3(
                                                        "mismatched argument type in call to `",
                                                        c.as_str(),
                                                        "`",
                                                    );
                                                    let dg = Diagnostic::error_at(msg, span);
                                                    diags.push(dg);
                                                    proof {
                                                        lemma_extends_push(
                                                            dprev,
                                                            dg,
                                                            (
                                                                Severity::Error,
                                                                arg_mismatch_msg(c@),
                                                                span,
                                                            ),
                                                        );
                                                    }
                                                } else {
                                                    proof {
                                                        lemma_extends_refl(diags@);
                                                    }
                                                }
                                            },
                                            None => {
                                                proof {
                                                    lemma_extends_refl(diags@);
                                                }
                                            },
                                        }
                                        proof {
                                            let stepm = (match expr_ty_model(
                                                ds,
                                                params@,
                                                sr.exprs@[jj as int],
                                                args@[jj as int],
                                            ) {
                                                Some(ty2) => if ty2 != tys_model[jj as int] {
                                                    seq![
                                                        (Severity::Error, arg_mismatch_msg(c@), span),
                                                    ]
                                                } else {
                                                    Seq::<DiagEntry>::empty()
                                                },
                                                None => Seq::<DiagEntry>::empty(),
                                            });
                                            assert(extends_matching(dprev, diags@, stepm));
                                            lemma_extends_trans(
                                                dmid,
                                                dprev,
                                                diags@,
                                                arg_mismatch_upto(
                                                    ds,
                                                    params@,
                                                    c@,
                                                    args@,
                                                    sr.exprs@,
                                                    tys_model,
                                                    span,
                                                    jj as int,
                                                ),
                                                stepm,
                                            );
                                        }
                                        jj += 1;
                                    }
                                    proof {
                                        lemma_extends_trans(
                                            d0,
                                            dmid,
                                            diags@,
                                            exprs_model,
                                            arg_mismatch_upto(
                                                ds,
                                                params@,
                                                c@,
                                                args@,
                                                sr.exprs@,
                                                tys_model,
                                                span,
                                                args@.len() as int,
                                            ),
                                        );
                                    }
                                }
                            }
                        },
                    }
                },
            }
        },
        Stmt::Return(eo) => {
            match eo {
                Some(ex) => {
                    let ghost d0 = diags@;
                    let slot = sr.exprs[0];
                    let t = check_expr(cache, params, slot, ex, span, diags);
                    let ghost dmid = diags@;
                    match t {
                        Some(ty) => {
                            if ty != return_ty {
                                let msg = join3("mismatched return type in `", fname.as_str(), "`");
                                let dg = Diagnostic::error_at(msg, span);
                                let ghost prev = diags@;
                                diags.push(dg);
                                proof {
                                    lemma_extends_push(
                                        prev,
                                        dg,
                                        (Severity::Error, ret_msg(fname@), span),
                                    );
                                    lemma_extends_trans(
                                        d0,
                                        dmid,
                                        diags@,
                                        tc_expr_diags(ds, params@, sr.exprs@[0], *ex, span),
                                        seq![(Severity::Error, ret_msg(fname@), span)],
                                    );
                                }
                            } else {
                                proof {
                                    assert(tc_expr_diags(ds, params@, sr.exprs@[0], *ex, span)
                                        + Seq::<DiagEntry>::empty() =~= tc_expr_diags(
                                        ds,
                                        params@,
                                        sr.exprs@[0],
                                        *ex,
                                        span,
                                    ));
                                }
                            }
                        },
                        None => {
                            proof {
                                assert(tc_expr_diags(ds, params@, sr.exprs@[0], *ex, span)
                                    + Seq::<DiagEntry>::empty() =~= tc_expr_diags(
                                    ds,
                                    params@,
                                    sr.exprs@[0],
                                    *ex,
                                    span,
                                ));
                            }
                        },
                    }
                },
                None => {
                    if return_ty != Ty::Unit {
                        let msg = join3("mismatched return type in `", fname.as_str(), "`");
                        let dg = Diagnostic::error_at(msg, span);
                        let ghost prev = diags@;
                        diags.push(dg);
                        proof {
                            lemma_extends_push(prev, dg, (Severity::Error, ret_msg(fname@), span));
                        }
                    } else {
                        proof {
                            lemma_extends_refl(diags@);
                        }
                    }
                },
            }
        },
    }
}

/// The checking pass: walks every declaration in binding-id order with
/// read-only access to the cache and collects every diagnostic; no error
/// stops the walk.
pub fn typecheck_all(cache: &Cache, res: &Resolution) -> (out: Vec<Diagnostic>)
    requires
        refs_shape_ok(cache.decls@, res.decls@),
    ensures
        diags_match(out@, tc_model(cache.decls@, res.decls@)),
{
    let ghost ds = cache.decls@;
    let ghost rows = res.decls@;
    let mut diags: Vec<Diagnostic> = Vec::new();
    let n = cache.decls.len();
    let mut id: usize = 0;
    while id < n
        invariant
            ds == cache.decls@,
            rows == res.decls@,
            n == ds.len(),
            refs_shape_ok(ds, rows),
            0 <= id <= n,
            diags_match(diags@, tc_model_upto(ds, rows, id as int)),
        decreases n - id,
    {
        let d = &cache.decls[id];
        let dr = &res.decls[id];
        let ghost dprev = diags@;
        match &d.kind {
            DeclKind::Function(f) => {
                let mut s: usize = 0;
                proof {
                    lemma_extends_refl(diags@);
                }
                while s < f.body.len()
                    invariant
                        ds == cache.decls@,
                        rows == res.decls@,
                        id < ds.len(),
                        d == &ds[id as int],
                        dr == &rows[id as int],
                        decl_shape_ok(ds[id as int], rows[id as int]),
                        ds[id as int].kind == DeclKind::Function(*f),
                        dr.stmts@.len() == f.body@.len(),
                        0 <= s <= f.body@.len(),
                        extends_matching(
                            dprev,
                            diags@,
                            tc_stmts_upto(
                                ds,
                                d.name@,
                                f.params@,
                                f.return_ty,
                                f.body@,
                                dr.stmts@,
                                d.span,
                                s as int,
                            ),
                        ),
                    decreases f.body@.len() - s,
                {
                    let ghost dmid = diags@;
                    check_stmt(
                        cache,
                        &d.name,
                        &f.params,
                        f.return_ty,
                        &f.body[s],
                        &dr.stmts[s],
                        d.span,
                        &mut diags,
                    );
                    proof {
                        lemma_extends_trans(
                            dprev,
                            dmid,
                            diags@,
                            tc_stmts_upto(
                                ds,
                                d.name@,
                                f.params@,
                                f.return_ty,
                                f.body@,
                                dr.stmts@,
                                d.span,
                                s as int,
                            ),
                            tc_stmt_diags(
                                ds,
                                d.name@,
                                f.params@,
                                f.return_ty,
                                f.body@[s as int],
                                dr.stmts@[s as int],
                                d.span,
                            ),
                        );
                    }
                    s += 1;
                }
            },
            _ => {
                proof {
                    lemma_extends_refl(diags@);
                    assert(tc_decl_diags(ds, ds[id as int], rows[id as int])
                        =~= Seq::<DiagEntry>::empty());
                }
            },
        }
        proof {
            lemma_extends_matches(
                dprev,
                diags@,
                tc_model_upto(ds, rows, id as int),
                tc_decl_diags(ds, ds[id as int], rows[id as int]),
            );
        }
        id += 1;
    }
    diags
}

} // verus!
