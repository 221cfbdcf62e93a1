//! The abstract schema: raw type declarations as handed over by the surface
//! parser, and the errors that schema resolution can report.

use vstd::prelude::*;

verus! {

/// One field declared directly on a type: name, type text and visibility
/// marker, all opaque to resolution and passed through unchanged.
pub struct FieldDecl {
    pub name: String,
    pub ty: String,
    pub vis: String,
}

impl FieldDecl {
    /// Copies the field declaration value for value.
    pub fn duplicate(&self) -> (r: FieldDecl)
        ensures
            r == *self,
    {
        FieldDecl { name: self.name.clone(), ty: self.ty.clone(), vis: self.vis.clone() }
    }
}

/// Copies a field list value for value.
pub fn duplicate_fields(fields: &Vec<FieldDecl>) -> (r: Vec<FieldDecl>)
    ensures
        r@ == fields@,
{
    let mut r: Vec<FieldDecl> = Vec::new();
    let mut k: usize = 0;
    while k < fields.len()
        invariant
            k <= fields@.len(),
            r@ =~= fields@.subrange(0, k as int),
        decreases fields@.len() - k,
    {
        r.push(fields[k].duplicate());
        k += 1;
    }
    proof {
        assert(r@ =~= fields@);
    }
    r
}

/// One raw type declaration: a unique name, an optional parent name, and the
/// fields declared directly on this type (not inherited ones).
pub struct Decl {
    pub vis: String,
    pub name: String,
    pub parent: Option<String>,
    pub fields: Vec<FieldDecl>,
}

/// The fatal, build-time errors of schema resolution. Each aborts the whole
/// compilation; there is no partial output.
pub enum SchemaError {
    /// Two declarations share this name.
    DuplicateName(String),
    /// The first name declares a parent of the second name, but no
    /// declaration has that name.
    UnknownParent(String, String),
    /// This node lies on a parent chain that never reaches a root.
    CyclicInheritance(String),
    /// This root's tree holds no concrete (leaf) node.
    NoConcreteSubclass(String),
    /// This node has neither parent nor children, so it could never take
    /// part in an upcast or downcast.
    IsolatedNode(String),
}

} // verus!
