//! The cache: the process-scoped symbol store. It owns every top-level
//! declaration, indexed by binding id, and tracks the designated
//! entry-point binding. Binding ids are assigned at registration as the
//! next free index, so every id handed out is unique by construction.

use vstd::prelude::*;
use crate::ast::{decl_is_entry, Declaration};

verus! {

/// The arena of registered declarations plus the optional entry point.
/// The binding id of a declaration is its index in `decls`.
pub struct Cache {
    pub decls: Vec<Declaration>,
    pub entry: Option<usize>,
}

impl Cache {
    /// The registered entry point, if any, is a valid binding id naming a
    /// function called `main`.
    pub open spec fn wf(self) -> bool {
        match self.entry {
            Some(e) => e < self.decls@.len() && decl_is_entry(self.decls@[e as int]),
            None => true,
        }
    }

    /// An empty cache with no entry point.
    pub fn new() -> (c: Cache)
        ensures
            c.decls@ == Seq::<Declaration>::empty(),
            c.entry is None,
            c.wf(),
    {
        Cache { decls: Vec::new(), entry: None }
    }

    /// Stores a declaration and assigns it the next free binding id. Ids
    /// grow one by one, so no id is ever assigned twice.
    pub fn register(&mut self, d: Declaration) -> (id: usize)
        requires
            old(self).decls@.len() < usize::MAX,
        ensures
            id == old(self).decls@.len(),
            final(self).decls@ == old(self).decls@.push(d),
            final(self).entry == old(self).entry,
            old(self).wf() ==> final(self).wf(),
    {
        let id = self.decls.len();
        self.decls.push(d);
        id
    }

    /// Looks a binding id up. A stale or unknown id fails explicitly with
    /// `None`; it never silently yields a default declaration.
    pub fn lookup(&self, id: usize) -> (r: Option<&Declaration>)
        ensures
            id < self.decls@.len() ==> r == Some(&self.decls@[id as int]),
            id >= self.decls@.len() ==> r is None,
    {
        if id < self.decls.len() {
            Some(&self.decls[id])
        } else {
            None
        }
    }

    /// The number of registered declarations; every id below it is valid.
    pub fn len(&self) -> (n: usize)
        ensures
            n == self.decls@.len(),
    {
        self.decls.len()
    }

    /// Designates the entry point. Accepts only a `Function`-kind binding
    /// named with the reserved entry-point identifier.
    pub fn set_entry_point(&mut self, id: usize)
        requires
            id < old(self).decls@.len(),
            decl_is_entry(old(self).decls@[id as int]),
        ensures
            final(self).decls@ == old(self).decls@,
            final(self).entry == Some(id),
            final(self).wf(),
    {
        self.entry = Some(id);
    }

    /// The designated entry-point binding id, if one was ever set.
    pub fn entry_point(&self) -> (r: Option<usize>)
        ensures
            r == self.entry,
    {
        self.entry
    }
}

} // verus!
