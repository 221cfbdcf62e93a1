//! Acyclicity of the parent relation. On success, every node's parent chain
//! terminates at a root (a node with no parent), which is the forest
//! property the later stages rely on.

use vstd::prelude::*;

use crate::graph::{Node, SchemaGraph};
use crate::schema::SchemaError;

verus! {

/// The parent chain from node `i` reaches a root (a node without a parent)
/// within `fuel` upward steps.
pub open spec fn reaches_root(ns: Seq<Node>, i: int, fuel: nat) -> bool
    decreases fuel,
{
    match ns[i].parent {
        None => true,
        Some(p) => fuel > 0 && reaches_root(ns, p as int, (fuel - 1) as nat),
    }
}

/// The parent relation is a forest: every chain reaches a root within
/// `ns.len()` steps. The bound loses no generality: the parent of a node is
/// unique, so a chain that runs for more steps than there are nodes revisits
/// one and from there repeats forever.
pub open spec fn forest(ns: Seq<Node>) -> bool {
    forall|i: int| 0 <= i < ns.len() ==> reaches_root(ns, i, ns.len() as nat)
}

/// Walks the parent chain upward from `i`, deciding whether it reaches a
/// root within `n` steps.
fn walks_to_root(g: &SchemaGraph, i: usize) -> (r: bool)
    requires
        g.wf(),
        i < g.nodes@.len(),
    ensures
        r == reaches_root(g.nodes@, i as int, g.nodes@.len() as nat),
{
    let n = g.nodes.len();
    let mut cur: usize = i;
    let mut fuel: usize = n;
    loop
        invariant
            g.wf(),
            n == g.nodes@.len(),
            cur < n,
            fuel <= n,
            reaches_root(g.nodes@, i as int, n as nat) == reaches_root(
                g.nodes@,
                cur as int,
                fuel as nat,
            ),
        decreases fuel,
    {
        match g.nodes[cur].parent {
            None => {
                return true;
            },
            Some(p) => {
                if fuel == 0 {
                    return false;
                }
                cur = p;
                fuel = fuel - 1;
            },
        }
    }
}

/// Verifies that the parent relation is acyclic. On failure, names the
/// first node (in declaration order) whose parent chain never reaches a
/// root: such a node either lies on a cycle or points into one.
pub fn check_acyclic(g: &SchemaGraph) -> (r: Result<(), SchemaError>)
    requires
        g.wf(),
    ensures
        r is Ok <==> forest(g.nodes@),
        r is Err ==> (exists|i: int|
            0 <= i < g.nodes@.len() && !#[trigger] reaches_root(
                g.nodes@,
                i,
                g.nodes@.len() as nat,
            ) && (forall|k: int| 0 <= k < i ==> reaches_root(g.nodes@, k, g.nodes@.len() as nat))
                && r->Err_0 == SchemaError::CyclicInheritance(g.nodes@[i].name)),
{
    let n = g.nodes.len();
    let mut i: usize = 0;
    while i < n
        invariant
            g.wf(),
            n == g.nodes@.len(),
            i <= n,
            forall|k: int| 0 <= k < i ==> reaches_root(g.nodes@, k, g.nodes@.len() as nat),
        decreases n - i,
    {
        if !walks_to_root(g, i) {
            let e = SchemaError::CyclicInheritance(g.nodes[i].name.clone());
            proof {
                let wi = i as int;
                assert(0 <= wi < g.nodes@.len() && !reaches_root(g.nodes@, wi, g.nodes@.len() as nat)
                    && (forall|k: int| 0 <= k < wi ==> reaches_root(g.nodes@, k, g.nodes@.len() as nat))
                    && e == SchemaError::CyclicInheritance(g.nodes@[wi].name));
            }
            return Err(e);
        }
        i += 1;
    }
    Ok(())
}

} // verus!
