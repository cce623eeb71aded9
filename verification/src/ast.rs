//! The abstract syntax the external front end hands the pipeline: top-level
//! declarations grouped into modules, each module addressed by a
//! `(package, module)` qualifier. The lexer and parser are external
//! collaborators; the pipeline starts from these plain values.

use vstd::prelude::*;
use crate::package::Manifest;

verus! {

/// The concrete types of the language's closed type system.
#[derive(Clone, Copy, Debug, PartialEq, Eq, Structural)]
pub enum Ty {
    Unit,
    Int,
    Bool,
}

/// One formal parameter of a function signature.
pub struct Param {
    pub name: String,
    pub ty: Ty,
}

/// An atomic expression.
pub enum Expr {
    UnitLit,
    IntLit(u64),
    BoolLit(bool),
    /// A named reference: a parameter of the enclosing function, or a
    /// top-level symbol that the linking pass resolves.
    Ref(String),
}

/// One statement of a function body.
pub enum Stmt {
    /// Call a top-level function by name, discarding its result.
    Call(String, Vec<Expr>),
    /// Return from the enclosing function; `None` returns the unit value.
    Return(Option<Expr>),
}

/// Body and signature of a function definition.
pub struct FunctionDecl {
    pub params: Vec<Param>,
    pub return_ty: Ty,
    pub body: Vec<Stmt>,
}

/// Signature of an externally defined function: linkage, not a body.
pub struct ExternFunctionDecl {
    pub params: Vec<Ty>,
    pub return_ty: Ty,
}

/// The closed variant set of top-level declarations. Each phase matches on
/// it exhaustively, so adding a variant breaks every phase at compile time.
pub enum DeclKind {
    Function(FunctionDecl),
    Enum(Vec<String>),
    StructType(Vec<Param>),
    TypeAlias(Ty),
    ExternFunction(ExternFunctionDecl),
    ExternStatic(Ty),
}

/// One top-level declaration: a name and a kind-specific payload, plus an
/// optional source span for diagnostics. Its binding id is the index the
/// cache assigns when the declaration pass registers it.
pub struct Declaration {
    pub name: String,
    pub kind: DeclKind,
    pub span: Option<(usize, usize)>,
}

/// A declaration of the reserved entry-point name, `main`, with a body.
pub open spec fn decl_is_entry(d: Declaration) -> bool {
    d.kind is Function && d.name@ == "main"@
}

impl Declaration {
    /// Whether this declaration is a function named `main`, the reserved
    /// entry-point identifier reachability-based lowering starts from.
    pub fn is_entry(&self) -> (r: bool)
        ensures
            r == decl_is_entry(*self),
    {
        match &self.kind {
            DeclKind::Function(_) => {
                let entry: String = "main".to_owned();
                self.name == entry
            },
            _ => false,
        }
    }
}

/// The `(package, module)` pair forming a declaration's namespace.
pub struct Qualifier {
    pub package_name: String,
    pub module_name: String,
}

/// The two qualifiers address the same namespace.
pub open spec fn same_qualifier(a: Qualifier, b: Qualifier) -> bool {
    a.package_name@ == b.package_name@ && a.module_name@ == b.module_name@
}

impl Qualifier {
    /// Namespace equality, component by component.
    pub fn same(&self, other: &Qualifier) -> (r: bool)
        ensures
            r == same_qualifier(*self, *other),
    {
        self.package_name == other.package_name && self.module_name == other.module_name
    }
}

impl Clone for Qualifier {
    fn clone(&self) -> (r: Self)
        ensures
            same_qualifier(r, *self),
    {
        Qualifier {
            package_name: self.package_name.clone(),
            module_name: self.module_name.clone(),
        }
    }
}

/// One parsed source file: its own namespace, the namespaces it imports,
/// and its top-level declarations in parse order.
pub struct SourceModule {
    pub qualifier: Qualifier,
    pub imports: Vec<Qualifier>,
    pub decls: Vec<Declaration>,
}

/// A whole compilation unit: the root package manifest plus every parsed
/// module of the build, in file order.
pub struct Compilation {
    pub manifest: Manifest,
    pub modules: Vec<SourceModule>,
}

} // verus!
