//! End-to-end runs of the compilation pipeline through the driver.

use grip::ast::{
    Compilation, DeclKind, Declaration, Expr, ExternFunctionDecl, FunctionDecl, Param, Qualifier,
    SourceModule, Stmt, Ty,
};
use grip::diagnostic::Severity;
use grip::driver::run;
use grip::package::{Manifest, PackageType};

fn qual(p: &str, m: &str) -> Qualifier {
    Qualifier { package_name: p.to_string(), module_name: m.to_string() }
}

fn func(name: &str, params: Vec<Param>, return_ty: Ty, body: Vec<Stmt>) -> Declaration {
    Declaration {
        name: name.to_string(),
        kind: DeclKind::Function(FunctionDecl { params, return_ty, body }),
        span: None,
    }
}

fn param(name: &str, ty: Ty) -> Param {
    Param { name: name.to_string(), ty }
}

fn call(callee: &str, args: Vec<Expr>) -> Stmt {
    Stmt::Call(callee.to_string(), args)
}

fn exe_manifest(name: &str) -> Manifest {
    Manifest {
        name: name.to_string(),
        ty: PackageType::Executable,
        version: "0.0.1".to_string(),
        dependencies: Vec::new(),
    }
}

fn one_module(decls: Vec<Declaration>) -> Compilation {
    Compilation {
        manifest: exe_manifest("demo"),
        modules: vec![SourceModule { qualifier: qual("demo", "main"), imports: vec![], decls }],
    }
}

fn errors(out: &grip::driver::BuildOutput) -> Vec<String> {
    out.diagnostics
        .iter()
        .filter(|d| d.severity == Severity::Error || d.severity == Severity::Internal)
        .map(|d| d.message.clone())
        .collect()
}

#[test]
fn entry_point_missing_is_exactly_one_error() {
    let c = one_module(vec![func("helper", vec![], Ty::Unit, vec![Stmt::Return(None)])]);
    let out = run(c);
    // one diagnostic in total: warnings never precede the checkpoint
    let errs = errors(&out);
    assert_eq!(errs.len(), 1);
    assert_eq!(errs[0], "no entry point defined");
    assert!(out.artifact.is_none());
}

#[test]
fn library_package_needs_no_entry_point() {
    let mut c = one_module(vec![func("helper", vec![], Ty::Unit, vec![Stmt::Return(None)])]);
    c.manifest.ty = PackageType::Library;
    let out = run(c);
    assert!(errors(&out).is_empty());
    // libraries are never lowered: lowering starts from an entry point
    assert!(out.artifact.is_none());
}

#[test]
fn late_declaration_still_resolves() {
    // module `a` is parsed first and calls a symbol declared only in
    // module `b`, parsed after it: the declare-before-link barrier holds
    let c = Compilation {
        manifest: exe_manifest("demo"),
        modules: vec![
            SourceModule {
                qualifier: qual("demo", "a"),
                imports: vec![qual("demo", "b")],
                decls: vec![func("main", vec![], Ty::Unit, vec![call("helper", vec![])])],
            },
            SourceModule {
                qualifier: qual("demo", "b"),
                imports: vec![],
                decls: vec![func("helper", vec![], Ty::Unit, vec![Stmt::Return(None)])],
            },
        ],
    };
    let out = run(c);
    assert!(errors(&out).is_empty());
    let artifact = out.artifact.expect("a clean executable build emits IR");
    assert!(artifact.defs.iter().any(|d| d.symbol == "helper"));
}

#[test]
fn function_called_twice_is_lowered_once() {
    let c = one_module(vec![
        func("main", vec![], Ty::Unit, vec![call("f", vec![]), call("f", vec![])]),
        func("f", vec![], Ty::Unit, vec![Stmt::Return(None)]),
    ]);
    let out = run(c);
    assert!(errors(&out).is_empty());
    let artifact = out.artifact.expect("clean build emits IR");
    assert_eq!(artifact.defs.iter().filter(|d| d.symbol == "f").count(), 1);
    assert_eq!(artifact.defs.len(), 2);
}

#[test]
fn no_ir_after_type_error() {
    // gate monotonicity: the failed analysis phase stops the pipeline, so
    // lowering never runs
    let c = one_module(vec![
        func("main", vec![], Ty::Unit, vec![call("f", vec![Expr::BoolLit(true)])]),
        func("f", vec![param("x", Ty::Int)], Ty::Unit, vec![Stmt::Return(None)]),
    ]);
    let out = run(c);
    assert_eq!(errors(&out), vec!["mismatched argument type in call to `f`".to_string()]);
    assert!(out.artifact.is_none());
}

#[test]
fn clean_build_round_trip() {
    let c = one_module(vec![func("main", vec![], Ty::Unit, vec![Stmt::Return(None)])]);
    let out = run(c);
    assert!(errors(&out).is_empty());
    let artifact = out.artifact.expect("clean executable build emits IR");
    assert!(!artifact.defs.is_empty());
    assert_eq!(artifact.defs[0].symbol, "main");
    assert_eq!(artifact.defs[0].code, vec!["ret".to_string()]);
}

#[test]
fn unresolved_identifier_scenario() {
    // manifest {name: demo, kind: executable, dependencies: []}, one file
    // whose entry point calls an undeclared `foo`
    let c = one_module(vec![func("main", vec![], Ty::Unit, vec![call("foo", vec![])])]);
    let out = run(c);
    assert_eq!(out.diagnostics.len(), 1);
    assert_eq!(out.diagnostics[0].severity, Severity::Error);
    assert_eq!(out.diagnostics[0].message, "unresolved identifier `foo`");
    assert!(out.artifact.is_none());
}

#[test]
fn duplicate_definition_reported() {
    let c = one_module(vec![
        func("main", vec![], Ty::Unit, vec![Stmt::Return(None)]),
        func("twice", vec![], Ty::Unit, vec![Stmt::Return(None)]),
        func("twice", vec![], Ty::Int, vec![Stmt::Return(Some(Expr::IntLit(1)))]),
    ]);
    let out = run(c);
    assert_eq!(errors(&out), vec!["duplicate definition of `twice`".to_string()]);
    assert!(out.artifact.is_none());
}

#[test]
fn ambiguous_import_reported() {
    let c = Compilation {
        manifest: exe_manifest("demo"),
        modules: vec![
            SourceModule {
                qualifier: qual("demo", "main"),
                imports: vec![qual("demo", "m1"), qual("demo", "m2")],
                decls: vec![func("main", vec![], Ty::Unit, vec![call("x", vec![])])],
            },
            SourceModule {
                qualifier: qual("demo", "m1"),
                imports: vec![],
                decls: vec![func("x", vec![], Ty::Unit, vec![Stmt::Return(None)])],
            },
            SourceModule {
                qualifier: qual("demo", "m2"),
                imports: vec![],
                decls: vec![func("x", vec![], Ty::Unit, vec![Stmt::Return(None)])],
            },
        ],
    };
    let out = run(c);
    assert_eq!(
        errors(&out),
        vec!["ambiguous identifier `x`: found in `demo::m1` and `demo::m2`".to_string()],
    );
    assert!(out.artifact.is_none());
}

#[test]
fn arity_mismatch_reported() {
    let c = one_module(vec![
        func("main", vec![], Ty::Unit, vec![call("f", vec![])]),
        func("f", vec![param("x", Ty::Int)], Ty::Unit, vec![Stmt::Return(None)]),
    ]);
    let out = run(c);
    assert_eq!(errors(&out), vec!["wrong number of arguments in call to `f`".to_string()]);
}

#[test]
fn return_type_mismatch_reported() {
    let c = one_module(vec![func(
        "main",
        vec![],
        Ty::Unit,
        vec![Stmt::Return(Some(Expr::IntLit(3)))],
    )]);
    let out = run(c);
    assert_eq!(errors(&out), vec!["mismatched return type in `main`".to_string()]);
}

#[test]
fn calling_a_type_reported() {
    let mut decls = vec![func("main", vec![], Ty::Unit, vec![call("color", vec![])])];
    decls.push(Declaration {
        name: "color".to_string(),
        kind: DeclKind::Enum(vec!["red".to_string(), "blue".to_string()]),
        span: None,
    });
    let out = run(one_module(decls));
    assert_eq!(errors(&out), vec!["`color` is not a function".to_string()]);
}

#[test]
fn function_used_as_value_reported() {
    let c = one_module(vec![
        func("main", vec![], Ty::Unit, vec![call("f", vec![Expr::Ref("g".to_string())])]),
        func("f", vec![param("x", Ty::Int)], Ty::Unit, vec![Stmt::Return(None)]),
        func("g", vec![], Ty::Unit, vec![Stmt::Return(None)]),
    ]);
    let out = run(c);
    assert_eq!(errors(&out), vec!["`g` is not a value".to_string()]);
}

#[test]
fn extern_references_stay_linkage_only() {
    let mut decls = vec![func(
        "main",
        vec![],
        Ty::Unit,
        vec![call("put", vec![Expr::Ref("answer".to_string())]), Stmt::Return(None)],
    )];
    decls.push(Declaration {
        name: "put".to_string(),
        kind: DeclKind::ExternFunction(ExternFunctionDecl {
            params: vec![Ty::Int],
            return_ty: Ty::Unit,
        }),
        span: None,
    });
    decls.push(Declaration {
        name: "answer".to_string(),
        kind: DeclKind::ExternStatic(Ty::Int),
        span: None,
    });
    let out = run(one_module(decls));
    assert!(errors(&out).is_empty());
    let artifact = out.artifact.expect("clean build emits IR");
    // externs describe linkage, not bodies: no definition is emitted for
    // them, and the call site references the symbol directly
    assert_eq!(artifact.defs.len(), 1);
    assert_eq!(artifact.defs[0].symbol, "main");
    assert_eq!(artifact.defs[0].code, vec!["call @put".to_string(), "ret".to_string()]);
}

#[test]
fn lint_warns_without_halting() {
    let c = one_module(vec![func(
        "main",
        vec![param("unused", Ty::Int)],
        Ty::Unit,
        vec![Stmt::Return(None), Stmt::Return(None)],
    )]);
    let out = run(c);
    let warnings: Vec<String> = out
        .diagnostics
        .iter()
        .filter(|d| d.severity == Severity::Warning)
        .map(|d| d.message.clone())
        .collect();
    assert!(warnings.contains(&"unused parameter `unused`".to_string()));
    assert!(warnings.contains(&"unreachable code".to_string()));
    assert!(errors(&out).is_empty());
    assert!(out.artifact.is_some());
}

#[test]
fn unused_symbol_warned_and_not_lowered() {
    let c = one_module(vec![
        func("main", vec![], Ty::Unit, vec![Stmt::Return(None)]),
        func("dead", vec![], Ty::Unit, vec![Stmt::Return(None)]),
    ]);
    let out = run(c);
    let warnings: Vec<String> = out
        .diagnostics
        .iter()
        .filter(|d| d.severity == Severity::Warning)
        .map(|d| d.message.clone())
        .collect();
    assert_eq!(warnings, vec!["symbol `dead` is never used".to_string()]);
    let artifact = out.artifact.expect("warnings never halt the pipeline");
    // declarations the entry point never reaches are not lowered
    assert_eq!(artifact.defs.len(), 1);
    assert_eq!(artifact.defs[0].symbol, "main");
}

#[test]
fn parameters_shadow_top_level_symbols() {
    let c = one_module(vec![
        func(
            "main",
            vec![],
            Ty::Unit,
            vec![call("f", vec![Expr::IntLit(1)]), Stmt::Return(None)],
        ),
        func(
            "f",
            vec![param("answer", Ty::Int)],
            Ty::Unit,
            vec![call("put", vec![Expr::Ref("answer".to_string())]), Stmt::Return(None)],
        ),
        Declaration {
            name: "answer".to_string(),
            kind: DeclKind::ExternStatic(Ty::Bool),
            span: None,
        },
        Declaration {
            name: "put".to_string(),
            kind: DeclKind::ExternFunction(ExternFunctionDecl {
                params: vec![Ty::Int],
                return_ty: Ty::Unit,
            }),
            span: None,
        },
    ]);
    let out = run(c);
    // the parameter `answer: Int` wins over the Bool extern static, so the
    // call to `put` is well-typed
    assert!(errors(&out).is_empty());
    assert!(out.artifact.is_some());
}
