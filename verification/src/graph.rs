//! Building the linked schema graph: a name-indexed arena of nodes with
//! resolved parent links. Detects duplicate names and unresolved parent
//! references; on success every declared parent points at an existing node.

use vstd::prelude::*;

use crate::schema::{duplicate_fields, Decl, FieldDecl, SchemaError};

verus! {

/// One resolved node of the schema graph. `parent` is the arena index of the
/// node named by `parent_name`, fixed by `build`.
pub struct Node {
    pub vis: String,
    pub name: String,
    pub parent_name: Option<String>,
    pub fields: Vec<FieldDecl>,
    pub parent: Option<usize>,
}

/// The fully linked node set: nodes in declaration order, parent pointers
/// resolved to arena indices.
pub struct SchemaGraph {
    pub nodes: Vec<Node>,
}

/// Declaration `i` repeats a name that an earlier declaration already uses.
pub open spec fn dup_at(decls: Seq<Decl>, i: int) -> bool {
    exists|j: int| 0 <= j < i && decls[j].name@ == decls[i].name@
}

pub open spec fn has_dup(decls: Seq<Decl>) -> bool {
    exists|i: int| 0 <= i < decls.len() && dup_at(decls, i)
}

/// Some declaration carries this name.
pub open spec fn resolves(decls: Seq<Decl>, name: Seq<char>) -> bool {
    exists|j: int| 0 <= j < decls.len() && decls[j].name@ == name
}

/// Declaration `i` declares a parent that no declaration names.
pub open spec fn unknown_at(decls: Seq<Decl>, i: int) -> bool {
    decls[i].parent is Some && !resolves(decls, decls[i].parent->Some_0@)
}

pub open spec fn has_unknown(decls: Seq<Decl>) -> bool {
    exists|i: int| 0 <= i < decls.len() && unknown_at(decls, i)
}

/// `build` succeeds exactly when no name repeats and every declared parent
/// resolves.
pub open spec fn build_accepts(decls: Seq<Decl>) -> bool {
    !has_dup(decls) && !has_unknown(decls)
}

/// Node `c` is a direct child of node `a`.
pub open spec fn is_child(ns: Seq<Node>, c: int, a: int) -> bool {
    0 <= c < ns.len() && ns[c].parent == Some(a as usize)
}

pub open spec fn has_child(ns: Seq<Node>, a: int) -> bool {
    exists|c: int| is_child(ns, c, a)
}

/// A node is concrete (a leaf, instantiable) exactly when nothing declares it
/// as its parent.
pub open spec fn concrete(ns: Seq<Node>, a: int) -> bool {
    !has_child(ns, a)
}

/// Node `i` of the graph faithfully mirrors declaration `i`, with its parent
/// link resolved to the index of the declaration carrying the parent name.
pub open spec fn node_matches(decls: Seq<Decl>, ns: Seq<Node>, i: int) -> bool {
    &&& ns[i].name@ == decls[i].name@
    &&& ns[i].vis@ == decls[i].vis@
    &&& ns[i].parent_name == decls[i].parent
    &&& ns[i].fields@ == decls[i].fields@
    &&& (decls[i].parent is Some ==> ns[i].parent is Some
        && ns[i].parent->Some_0 < decls.len()
        && decls[ns[i].parent->Some_0 as int].name@ == decls[i].parent->Some_0@)
    &&& (decls[i].parent is None ==> ns[i].parent is None)
}

/// The whole arena faithfully mirrors the declarations.
pub open spec fn graph_matches(decls: Seq<Decl>, ns: Seq<Node>) -> bool {
    ns.len() == decls.len() && (forall|i: int| 0 <= i < decls.len() ==> node_matches(decls, ns, i))
}

impl SchemaGraph {
    /// Internal consistency: names are pairwise distinct, and every parent
    /// link points into the arena, at the node carrying the parent name.
    pub open spec fn wf(self) -> bool {
        let ns = self.nodes@;
        &&& (forall|i: int, j: int|
            0 <= i < ns.len() && 0 <= j < ns.len() && i != j
                ==> #[trigger] ns[i].name@ != #[trigger] ns[j].name@)
        &&& (forall|i: int|
            0 <= i < ns.len() ==> ((#[trigger] ns[i].parent) is Some <==> ns[i].parent_name is Some))
        &&& (forall|i: int|
            0 <= i < ns.len() && (#[trigger] ns[i].parent) is Some
                ==> ns[i].parent->Some_0 < ns.len()
                && ns[ns[i].parent->Some_0 as int].name@ == ns[i].parent_name->Some_0@)
    }

    /// The derived `children` set of node `a`: every node whose parent is
    /// `a`, in increasing index order.
    pub fn children_of(&self, a: usize) -> (r: Vec<usize>)
        requires
            a < self.nodes@.len(),
        ensures
            forall|c: usize| r@.contains(c) <==> is_child(self.nodes@, c as int, a as int),
            forall|k1: int, k2: int| 0 <= k1 < k2 < r@.len() ==> r@[k1] < r@[k2],
    {
        let ns = &self.nodes;
        let mut r: Vec<usize> = Vec::new();
        let mut c: usize = 0;
        while c < ns.len()
            invariant
                c <= ns.len(),
                ns == &self.nodes,
                forall|x: usize| r@.contains(x) <==> (x < c && is_child(ns@, x as int, a as int)),
                forall|k1: int, k2: int| 0 <= k1 < k2 < r@.len() ==> r@[k1] < r@[k2],
                forall|k: int| 0 <= k < r@.len() ==> r@[k] < c,
            decreases ns.len() - c,
        {
            let is_ch = match ns[c].parent {
                Some(p) => p == a,
                None => false,
            };
            let ghost prev = r@;
            if is_ch {
                r.push(c);
            }
            proof {
                assert forall|x: usize| r@.contains(x) implies (x < c + 1 && is_child(
                    ns@,
                    x as int,
                    a as int,
                )) by {
                    let k = choose|k: int| 0 <= k < r@.len() && r@[k] == x;
                    if k < prev.len() {
                        assert(prev.contains(x));
                    } else {
                        assert(r@[k] == c);
                    }
                }
                assert forall|x: usize| x < c + 1 && is_child(ns@, x as int, a as int) implies r@
                    .contains(x) by {
                    if x < c {
                        assert(prev.contains(x));
                        let k = choose|k: int| 0 <= k < prev.len() && prev[k] == x;
                        assert(r@[k] == x);
                    } else {
                        assert(x == c);
                        assert(r@[r@.len() - 1] == x);
                    }
                }
            }
            c += 1;
        }
        r
    }

    /// Whether node `a` is concrete: no node of the graph declares `a` as
    /// its parent.
    pub fn is_concrete(&self, a: usize) -> (r: bool)
        requires
            a < self.nodes@.len(),
        ensures
            r == concrete(self.nodes@, a as int),
    {
        let ns = &self.nodes;
        let mut c: usize = 0;
        while c < ns.len()
            invariant
                c <= ns.len(),
                ns == &self.nodes,
                forall|x: int| 0 <= x < c ==> !is_child(ns@, x, a as int),
            decreases ns.len() - c,
        {
            let is_ch = match ns[c].parent {
                Some(p) => p == a,
                None => false,
            };
            if is_ch {
                assert(is_child(ns@, c as int, a as int));
                return false;
            }
            c += 1;
        }
        true
    }
}

/// Finds the declaration carrying `name`, if any.
fn find_decl(decls: &Vec<Decl>, name: &String) -> (r: Option<usize>)
    ensures
        r is Some <==> resolves(decls@, name@),
        r is Some ==> r->Some_0 < decls@.len() && decls@[r->Some_0 as int].name@ == name@,
{
    let mut j: usize = 0;
    while j < decls.len()
        invariant
            j <= decls@.len(),
            forall|k: int| 0 <= k < j ==> decls@[k].name@ != name@,
        decreases decls@.len() - j,
    {
        if decls[j].name == *name {
            return Some(j);
        }
        j += 1;
    }
    None
}

/// Builds the linked graph from the raw declarations.
///
/// Fails with `DuplicateName` if a name repeats (reporting the first
/// repeated occurrence), else with `UnknownParent` if some declared parent
/// resolves to no declaration (reporting the first such declaration and its
/// parent name). On success, node `i` mirrors declaration `i` with its
/// parent link resolved.
pub fn build(decls: &Vec<Decl>) -> (r: Result<SchemaGraph, SchemaError>)
    ensures
        r is Ok <==> build_accepts(decls@),
        r is Ok ==> r->Ok_0.wf() && graph_matches(decls@, r->Ok_0.nodes@),
        r is Err && has_dup(decls@) ==> (exists|i: int|
            0 <= i < decls@.len() && #[trigger] dup_at(decls@, i)
                && (forall|k: int| 0 <= k < i ==> !dup_at(decls@, k))
                && r->Err_0 == SchemaError::DuplicateName(decls@[i].name)),
        r is Err && !has_dup(decls@) ==> (exists|i: int|
            0 <= i < decls@.len() && #[trigger] unknown_at(decls@, i)
                && (forall|k: int| 0 <= k < i ==> !unknown_at(decls@, k))
                && r->Err_0 == SchemaError::UnknownParent(decls@[i].name, decls@[i].parent->Some_0)),
{
    let n = decls.len();

    // Duplicate-name detection: the first declaration repeating an earlier
    // name is reported.
    let mut i: usize = 0;
    while i < n
        invariant
            n == decls@.len(),
            i <= n,
            forall|k: int| 0 <= k < i ==> !dup_at(decls@, k),
        decreases n - i,
    {
        let mut j: usize = 0;
        while j < i
            invariant
                n == decls@.len(),
                i < n,
                j <= i,
                forall|k: int| 0 <= k < i ==> !dup_at(decls@, k),
                forall|l: int| 0 <= l < j ==> decls@[l].name@ != decls@[i as int].name@,
            decreases i - j,
        {
            if decls[j].name == decls[i].name {
                let e = SchemaError::DuplicateName(decls[i].name.clone());
                proof {
                    let wi = i as int;
                    assert(dup_at(decls@, wi));
                    assert(0 <= wi < decls@.len() && dup_at(decls@, wi)
                        && (forall|k: int| 0 <= k < wi ==> !dup_at(decls@, k))
                        && e == SchemaError::DuplicateName(decls@[wi].name));
                }
                return Err(e);
            }
            j += 1;
        }
        proof {
            assert(!dup_at(decls@, i as int));
        }
        i += 1;
    }
    assert(!has_dup(decls@));

    // Parent resolution: wire each node to the index of its parent's
    // declaration; the first unresolved parent is reported.
    let mut nodes: Vec<Node> = Vec::new();
    let mut i: usize = 0;
    while i < n
        invariant
            n == decls@.len(),
            i <= n,
            !has_dup(decls@),
            nodes@.len() == i,
            forall|k: int| 0 <= k < i ==> node_matches(decls@, nodes@, k),
            forall|k: int| 0 <= k < i ==> !unknown_at(decls@, k),
        decreases n - i,
    {
        let d = &decls[i];
        let parent_idx: Option<usize>;
        let parent_name: Option<String>;
        match &d.parent {
            Some(p) => {
                match find_decl(decls, p) {
                    Some(pj) => {
                        parent_idx = Some(pj);
                        parent_name = Some(p.clone());
                    },
                    None => {
                        let e = SchemaError::UnknownParent(d.name.clone(), p.clone());
                        proof {
                            let wi = i as int;
                            assert(unknown_at(decls@, wi));
                            assert(0 <= wi < decls@.len() && unknown_at(decls@, wi)
                                && (forall|k: int| 0 <= k < wi ==> !unknown_at(decls@, k))
                                && e == SchemaError::UnknownParent(
                                decls@[wi].name,
                                decls@[wi].parent->Some_0,
                            ));
                        }
                        return Err(e);
                    },
                }
            },
            None => {
                parent_idx = None;
                parent_name = None;
            },
        }
        let node = Node {
            vis: d.vis.clone(),
            name: d.name.clone(),
            parent_name,
            fields: duplicate_fields(&d.fields),
            parent: parent_idx,
        };
        let ghost prev = nodes@;
        nodes.push(node);
        proof {
            let ii = i as int;
            assert(nodes@[ii] == node);
            assert(node_matches(decls@, nodes@, ii));
            assert forall|k: int| 0 <= k < ii implies node_matches(decls@, nodes@, k) by {
                assert(node_matches(decls@, prev, k));
                assert(nodes@[k] == prev[k]);
            }
        }
        i += 1;
    }
    assert(!has_unknown(decls@));

    let g = SchemaGraph { nodes };
    proof {
        let ns = g.nodes@;
        assert forall|a: int, b: int|
            0 <= a < ns.len() && 0 <= b < ns.len() && a != b implies #[trigger] ns[a].name@
            != #[trigger] ns[b].name@ by {
            assert(node_matches(decls@, ns, a));
            assert(node_matches(decls@, ns, b));
            if ns[a].name@ == ns[b].name@ {
                if a < b {
                    assert(decls@[a].name@ == decls@[b].name@);
                    assert(dup_at(decls@, b));
                } else {
                    assert(decls@[b].name@ == decls@[a].name@);
                    assert(dup_at(decls@, a));
                }
            }
        }
        assert forall|x: int|
            0 <= x < ns.len() implies ((#[trigger] ns[x].parent) is Some <==> ns[x].parent_name
            is Some) by {
            assert(node_matches(decls@, ns, x));
        }
        assert forall|x: int| 0 <= x < ns.len() && (#[trigger] ns[x].parent) is Some implies ns[x]
            .parent->Some_0 < ns.len() && ns[ns[x].parent->Some_0 as int].name@
            == ns[x].parent_name->Some_0@ by {
            assert(node_matches(decls@, ns, x));
            let p = ns[x].parent->Some_0 as int;
            assert(node_matches(decls@, ns, p));
        }
    }
    Ok(g)
}

} // verus!
