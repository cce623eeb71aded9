//! Package manifests and the model of the on-disk dependency layout.
//!
//! Manifest file parsing and serialization are external collaborators: the
//! caller reads `grip.toml` files from their conventional locations
//! (`dependencies/<name>/grip.toml` for a dependency) and hands the core
//! plain `Manifest` values, collected in a `ManifestStore`.

use vstd::prelude::*;
use vstd::hash_map::StringHashMap;
use crate::text::join3;

verus! {

/// Whether a package builds to a library or to an application. Only the
/// root package of a build may be `Executable`; a dependency manifest
/// declared `Executable` is a build error.
#[derive(Clone, Copy, Debug, PartialEq, Eq, Structural)]
pub enum PackageType {
    Library,
    Executable,
}

/// One package manifest: `{name, kind, version, dependencies}`.
#[verifier::ext_equal]
pub struct Manifest {
    pub name: String,
    pub ty: PackageType,
    pub version: String,
    pub dependencies: Vec<String>,
}

/// Two manifests carry the same contents, field by field.
pub open spec fn same_manifest(a: Manifest, b: Manifest) -> bool {
    &&& a.name@ == b.name@
    &&& a.ty == b.ty
    &&& a.version@ == b.version@
    &&& a.dependencies@ == b.dependencies@
}

/// An element-wise copy of a vector of strings.
pub fn clone_names(v: &Vec<String>) -> (r: Vec<String>)
    ensures
        r@ == v@,
{
    let mut r: Vec<String> = Vec::new();
    let mut i: usize = 0;
    while i < v.len()
        invariant
            0 <= i <= v.len(),
            r@ == v@.take(i as int),
        decreases v.len() - i,
    {
        r.push(v[i].clone());
        proof {
            assert(v@.take(i + 1 as int) =~= v@.take(i as int).push(v@[i as int]));
        }
        i += 1;
    }
    proof {
        assert(v@.take(v@.len() as int) =~= v@);
    }
    r
}

impl Clone for Manifest {
    fn clone(&self) -> (r: Self)
        ensures
            same_manifest(r, *self),
    {
        Manifest {
            name: self.name.clone(),
            ty: self.ty,
            version: self.version.clone(),
            dependencies: clone_names(&self.dependencies),
        }
    }
}

/// The per-project lock file contents: the dependencies already built.
#[verifier::ext_equal]
pub struct PackageLock {
    pub built_dependencies: Vec<String>,
}

/// The manifest `init` writes for a fresh package: the given name, kind
/// `Executable`, version `0.0.1` and no dependencies.
pub fn default_manifest(name: String) -> (m: Manifest)
    ensures
        m.name == name,
        m.ty is Executable,
        m.version@ == "0.0.1"@,
        m.dependencies@ == Seq::<String>::empty(),
{
    Manifest {
        name,
        ty: PackageType::Executable,
        version: "0.0.1".to_owned(),
        dependencies: Vec::new(),
    }
}

/// The lock file contents a fresh project starts from: nothing built yet.
pub fn default_package_lock() -> (l: PackageLock)
    ensures
        l.built_dependencies@ == Seq::<String>::empty(),
{
    PackageLock { built_dependencies: Vec::new() }
}

/// The conventional location of a dependency's manifest file.
pub fn dependency_manifest_path(name: &str) -> (r: String)
    ensures
        r@ == "dependencies/"@ + name@ + "/grip.toml"@,
{
    join3("dependencies/", name, "/grip.toml")
}

/// The core's model of the on-disk `dependencies/` directory: for each
/// dependency package name, the manifest read from its conventional
/// location. The caller performs the file I/O and fills the store before
/// the dependency graph is built; the core only looks names up in it.
pub struct ManifestStore {
    pub names: Vec<String>,
    pub map: StringHashMap<Manifest>,
}

impl ManifestStore {
    /// Well-formed: the name list carries each stored key exactly once.
    pub open spec fn wf(self) -> bool {
        &&& forall|i: int, j: int|
            0 <= i < j < self.names@.len() ==> self.names@[i]@ != self.names@[j]@
        &&& forall|i: int|
            0 <= i < self.names@.len() ==> #[trigger] self.map@.contains_key(self.names@[i]@)
        &&& forall|n: Seq<char>|
            self.map@.contains_key(n) ==> exists|i: int|
                0 <= i < self.names@.len() && #[trigger] self.names@[i]@ == n
    }

    /// An empty store.
    pub fn new() -> (s: ManifestStore)
        ensures
            s.wf(),
            s.map@ == Map::<Seq<char>, Manifest>::empty(),
            s.names@.len() == 0,
    {
        ManifestStore { names: Vec::new(), map: StringHashMap::new() }
    }

    /// Whether a manifest is stored under the given package name.
    pub fn contains(&self, name: &str) -> (r: bool)
        ensures
            r == self.map@.contains_key(name@),
    {
        self.map.contains_key(name)
    }

    /// Records the manifest read for one dependency package.
    pub fn insert(&mut self, name: String, m: Manifest)
        requires
            old(self).wf(),
            !old(self).map@.contains_key(name@),
        ensures
            final(self).wf(),
            final(self).map@ == old(self).map@.insert(name@, m),
            final(self).names@ == old(self).names@.push(name),
    {
        let ghost n = name@;
        self.names.push(name.clone());
        self.map.insert(name, m);
        proof {
            assert forall|k: Seq<char>| self.map@.contains_key(k) implies exists|i: int|
                0 <= i < self.names@.len() && #[trigger] self.names@[i]@ == k by {
                if k == n {
                    assert(self.names@[self.names@.len() - 1]@ == k);
                } else {
                    let i = choose|i: int|
                        0 <= i < old(self).names@.len() && #[trigger] old(self).names@[i]@ == k;
                    assert(self.names@[i]@ == k);
                }
            }
        }
    }
}

/// The manifest of one dependency, as the store read it from the
/// conventional on-disk location; a package absent from the store is
/// reported as a failed manifest read.
pub fn fetch_dependency_manifest(store: &ManifestStore, name: &str) -> (r: Result<
    Manifest,
    String,
>)
    ensures
        r is Ok <==> store.map@.contains_key(name@),
        r is Ok ==> same_manifest(r->Ok_0, store.map@[name@]),
        r is Err ==> r->Err_0@ == "failed to read package manifest file: `"@ + name@ + "`"@,
{
    match store.map.get(name) {
        Some(m) => Ok(m.clone()),
        None => Err(join3("failed to read package manifest file: `", name, "`")),
    }
}

} // verus!
