//! Discriminant and descendant-set resolution. Partitions every tree's
//! nodes into concrete leaves and abstract internal nodes, assigns each
//! concrete leaf a discriminant that is contiguous within its tree, and
//! computes every node's concrete and abstract descendant sets.

use vstd::prelude::*;

use crate::cycle::{forest, reaches_root};
use crate::graph::{
    concrete, dup_at, graph_matches, has_child, has_dup, is_child, node_matches, Node, SchemaGraph,
};
use crate::schema::{Decl, SchemaError};

verus! {

/// The root of the tree containing `i`: the end of the parent chain,
/// followed for at most `fuel` steps.
pub open spec fn root_within(ns: Seq<Node>, i: int, fuel: nat) -> int
    decreases fuel,
{
    match ns[i].parent {
        None => i,
        Some(p) => if fuel > 0 {
            root_within(ns, p as int, (fuel - 1) as nat)
        } else {
            i
        },
    }
}

/// The root of the tree containing `i`. Meaningful under `forest`, where
/// `ns.len()` steps always suffice.
pub open spec fn root_of(ns: Seq<Node>, i: int) -> int {
    root_within(ns, i, ns.len() as nat)
}

/// `a` is a proper ancestor of `j`: the parent chain from `j` passes
/// through `a`, within `fuel` steps.
pub open spec fn anc_within(ns: Seq<Node>, a: int, j: int, fuel: nat) -> bool
    decreases fuel,
{
    match ns[j].parent {
        None => false,
        Some(p) => p as int == a || (fuel > 0 && anc_within(ns, a, p as int, (fuel - 1) as nat)),
    }
}

/// `a` is a proper ancestor of `j`. Meaningful under `forest`, where
/// `ns.len()` steps always suffice.
pub open spec fn is_ancestor(ns: Seq<Node>, a: int, j: int) -> bool {
    anc_within(ns, a, j, ns.len() as nat)
}

/// Once the chain reaches a root within the budget, a larger budget finds
/// the same root.
pub proof fn lemma_root_fuel(ns: Seq<Node>, i: int, f1: nat, f2: nat)
    requires
        reaches_root(ns, i, f1),
        f1 <= f2,
    ensures
        root_within(ns, i, f2) == root_within(ns, i, f1),
    decreases f1,
{
    match ns[i].parent {
        None => {},
        Some(p) => {
            lemma_root_fuel(ns, p as int, (f1 - 1) as nat, (f2 - 1) as nat);
        },
    }
}

/// The root of a node in a well-formed forest lies in the arena, has no
/// parent, and is its own root.
pub proof fn lemma_root_props(ns: Seq<Node>, i: int, fuel: nat)
    requires
        reaches_root(ns, i, fuel),
        forall|k: int|
            0 <= k < ns.len() && (#[trigger] ns[k].parent) is Some ==> ns[k].parent->Some_0
                < ns.len(),
        0 <= i < ns.len(),
    ensures
        0 <= root_within(ns, i, fuel) < ns.len(),
        ns[root_within(ns, i, fuel)].parent is None,
        root_within(ns, root_within(ns, i, fuel), fuel) == root_within(ns, i, fuel),
    decreases fuel,
{
    match ns[i].parent {
        None => {},
        Some(p) => {
            lemma_root_props(ns, p as int, (fuel - 1) as nat);
            lemma_root_fuel(ns, root_within(ns, p as int, (fuel - 1) as nat), (fuel - 1) as nat, fuel);
        },
    }
}

/// An ancestor found with ample fuel is found with any budget that reaches
/// a root.
pub proof fn lemma_anc_fuel(ns: Seq<Node>, a: int, j: int, f1: nat, f2: nat)
    requires
        anc_within(ns, a, j, f1),
        reaches_root(ns, j, f2),
    ensures
        anc_within(ns, a, j, f2),
    decreases f1,
{
    match ns[j].parent {
        None => {},
        Some(p) => {
            if p as int != a {
                lemma_anc_fuel(ns, a, p as int, (f1 - 1) as nat, (f2 - 1) as nat);
            }
        },
    }
}

/// An ancestor of a node's parent is an ancestor of the node.
pub proof fn lemma_anc_extend_down(ns: Seq<Node>, a: int, p: int, j: int)
    requires
        forest(ns),
        0 <= j < ns.len(),
        ns[j].parent is Some,
        ns[j].parent->Some_0 as int == p,
        is_ancestor(ns, a, p),
    ensures
        is_ancestor(ns, a, j),
{
    let n = ns.len() as nat;
    assert(reaches_root(ns, j, n));
    assert(reaches_root(ns, p, (n - 1) as nat));
    lemma_anc_fuel(ns, a, p, n, (n - 1) as nat);
    assert(anc_within(ns, a, p, (n - 1) as nat));
    assert(anc_within(ns, a, j, n));
}

/// An ancestor of a node's parent relation lifts one level: if `t`'s parent
/// is `p`, anything `t` is an ancestor of, `p` is too.
pub proof fn lemma_anc_lift(ns: Seq<Node>, p: int, t: int, j: int, fuel: nat)
    requires
        forest(ns),
        parents_in_range(ns),
        0 <= t < ns.len(),
        0 <= j < ns.len(),
        ns[t].parent is Some,
        ns[t].parent->Some_0 as int == p,
        anc_within(ns, t, j, fuel),
    ensures
        is_ancestor(ns, p, j),
    decreases fuel,
{
    let n = ns.len() as nat;
    match ns[j].parent {
        None => {},
        Some(q) => {
            if q as int == t {
                assert(anc_within(ns, p, t, (n - 1) as nat));
                assert(anc_within(ns, p, j, n));
            } else {
                lemma_anc_lift(ns, p, t, q as int, (fuel - 1) as nat);
                lemma_anc_extend_down(ns, p, q as int, j);
            }
        },
    }
}

/// The number of parent steps from `i` to its root, within `fuel`.
pub open spec fn chain_len(ns: Seq<Node>, i: int, fuel: nat) -> nat
    decreases fuel,
{
    match ns[i].parent {
        None => 0,
        Some(p) => if fuel > 0 {
            1 + chain_len(ns, p as int, (fuel - 1) as nat)
        } else {
            0
        },
    }
}

proof fn lemma_chain_len_le(ns: Seq<Node>, i: int, fuel: nat)
    ensures
        chain_len(ns, i, fuel) <= fuel,
    decreases fuel,
{
    match ns[i].parent {
        None => {},
        Some(p) => {
            if fuel > 0 {
                lemma_chain_len_le(ns, p as int, (fuel - 1) as nat);
            }
        },
    }
}

proof fn lemma_chain_len_fuel(ns: Seq<Node>, i: int, f1: nat, f2: nat)
    requires
        reaches_root(ns, i, f1),
        f1 <= f2,
    ensures
        chain_len(ns, i, f2) == chain_len(ns, i, f1),
    decreases f1,
{
    match ns[i].parent {
        None => {},
        Some(p) => {
            lemma_chain_len_fuel(ns, p as int, (f1 - 1) as nat, (f2 - 1) as nat);
        },
    }
}

/// Every node sits above a concrete one: itself if it is a leaf, else a
/// concrete descendant found by walking down children. The descent
/// terminates because each step moves one level further from the root and
/// no chain in a forest is longer than the arena.
pub proof fn lemma_find_leaf(ns: Seq<Node>, j: int)
    requires
        forest(ns),
        parents_in_range(ns),
        0 <= j < ns.len(),
        ns.len() <= usize::MAX,
    ensures
        exists|k: int|
            0 <= k < ns.len() && #[trigger] concrete(ns, k) && (k == j || is_ancestor(ns, j, k)),
    decreases ns.len() + 1 - chain_len(ns, j, ns.len() as nat),
{
    let n = ns.len() as nat;
    if concrete(ns, j) {
        assert(0 <= j < ns.len() && concrete(ns, j) && (j == j || is_ancestor(ns, j, j)));
    } else {
        let c = choose|c: int| is_child(ns, c, j);
        assert(ns[c].parent == Some(j as usize));
        assert(reaches_root(ns, c, n));
        assert(reaches_root(ns, j, (n - 1) as nat));
        lemma_chain_len_fuel(ns, j, (n - 1) as nat, n);
        lemma_chain_len_le(ns, j, n);
        assert(chain_len(ns, c, n) == 1 + chain_len(ns, j, n));
        lemma_find_leaf(ns, c);
        let k = choose|k: int|
            0 <= k < ns.len() && #[trigger] concrete(ns, k) && (k == c || is_ancestor(ns, c, k));
        if k == c {
            assert(anc_within(ns, j, c, n));
        } else {
            lemma_anc_lift(ns, j, c, k, n);
        }
        assert(0 <= k < ns.len() && concrete(ns, k) && (k == j || is_ancestor(ns, j, k)));
    }
}

proof fn lemma_root_of_descendant(ns: Seq<Node>, a: int, k: int, fuel: nat)
    requires
        forest(ns),
        parents_in_range(ns),
        0 <= a < ns.len(),
        0 <= k < ns.len(),
        ns.len() <= usize::MAX,
        ns[a].parent is None,
        anc_within(ns, a, k, fuel),
    ensures
        root_of(ns, k) == a,
    decreases fuel,
{
    let n = ns.len() as nat;
    match ns[k].parent {
        None => {},
        Some(p) => {
            assert(reaches_root(ns, k, n));
            assert(reaches_root(ns, p as int, (n - 1) as nat));
            lemma_root_fuel(ns, p as int, (n - 1) as nat, n);
            assert(root_of(ns, k) == root_of(ns, p as int));
            if p as int == a {
                assert(root_of(ns, a) == a);
            } else {
                lemma_root_of_descendant(ns, a, p as int, (fuel - 1) as nat);
            }
        },
    }
}

/// A root can only fail by isolation: in a well-formed forest, a parentless
/// node with children always has a concrete descendant in its tree, so a
/// tree entirely without concrete leaves cannot arise.
pub proof fn lemma_root_fails_only_isolated(ns: Seq<Node>, r: int)
    requires
        forest(ns),
        parents_in_range(ns),
        0 <= r < ns.len(),
        ns.len() <= usize::MAX,
    ensures
        root_fails(ns, r) == isolated(ns, r),
{
    if ns[r].parent is None && !concrete(ns, r) {
        lemma_find_leaf(ns, r);
        let k = choose|k: int|
            0 <= k < ns.len() && #[trigger] concrete(ns, k) && (k == r || is_ancestor(ns, r, k));
        assert(k != r);
        lemma_root_of_descendant(ns, r, k, ns.len() as nat);
        assert(root_of(ns, k) == r);
        assert(tree_has_concrete(ns, r));
    }
}

/// A concrete node (no children) is the ancestor of nothing.
pub proof fn lemma_concrete_no_descendant(ns: Seq<Node>, a: int, j: int, fuel: nat)
    requires
        concrete(ns, a),
        0 <= j < ns.len(),
        forall|k: int|
            0 <= k < ns.len() && (#[trigger] ns[k].parent) is Some ==> ns[k].parent->Some_0
                < ns.len(),
    ensures
        !anc_within(ns, a, j, fuel),
    decreases fuel,
{
    match ns[j].parent {
        None => {},
        Some(p) => {
            if p as int == a {
                assert(is_child(ns, j, a));
                assert(has_child(ns, a));
            } else {
                if fuel > 0 {
                    lemma_concrete_no_descendant(ns, a, p as int, (fuel - 1) as nat);
                }
            }
        },
    }
}

/// Finds the root of the tree containing `i`.
pub fn root_exec(g: &SchemaGraph, i: usize) -> (r: usize)
    requires
        g.wf(),
        forest(g.nodes@),
        i < g.nodes@.len(),
    ensures
        r as int == root_of(g.nodes@, i as int),
        r < g.nodes@.len(),
        g.nodes@[r as int].parent is None,
{
    let ghost ns = g.nodes@;
    let n = g.nodes.len();
    let mut cur: usize = i;
    let mut fuel: usize = n;
    proof {
        assert(reaches_root(ns, i as int, n as nat));
    }
    loop
        invariant
            g.wf(),
            ns == g.nodes@,
            n == ns.len(),
            cur < n,
            fuel <= n,
            reaches_root(ns, cur as int, fuel as nat),
            root_of(ns, i as int) == root_within(ns, cur as int, fuel as nat),
        decreases fuel,
    {
        match g.nodes[cur].parent {
            None => {
                return cur;
            },
            Some(p) => {
                cur = p;
                fuel = fuel - 1;
            },
        }
    }
}

/// Number of concrete nodes whose tree root is `r` among indices `0..m`.
pub open spec fn concrete_count_below(ns: Seq<Node>, r: int, m: int) -> nat
    decreases m,
{
    if m <= 0 {
        0
    } else {
        concrete_count_below(ns, r, m - 1) + (if concrete(ns, m - 1) && root_of(ns, m - 1) == r {
            1nat
        } else {
            0nat
        })
    }
}

/// The discriminant of concrete node `j`: its rank, in index order, among
/// the concrete nodes of its tree. Discriminants restart at 0 in every tree.
pub open spec fn disc_of(ns: Seq<Node>, j: int) -> nat {
    concrete_count_below(ns, root_of(ns, j), j)
}

/// Number of concrete leaves in the whole tree rooted at `r`.
pub open spec fn tree_concrete_count(ns: Seq<Node>, r: int) -> nat {
    concrete_count_below(ns, r, ns.len() as int)
}

/// The count over a prefix never exceeds the prefix length.
pub proof fn lemma_count_le(ns: Seq<Node>, r: int, m: int)
    requires
        m >= 0,
    ensures
        concrete_count_below(ns, r, m) <= m,
    decreases m,
{
    if m > 0 {
        lemma_count_le(ns, r, m - 1);
    }
}

/// The count grows with the prefix.
pub proof fn lemma_count_monotone(ns: Seq<Node>, r: int, m1: int, m2: int)
    requires
        m1 <= m2,
    ensures
        concrete_count_below(ns, r, m1) <= concrete_count_below(ns, r, m2),
    decreases m2,
{
    if m1 < m2 && m2 > 0 {
        lemma_count_monotone(ns, r, m1, m2 - 1);
    }
}

/// The count of a prefix is zero exactly when the prefix holds no concrete
/// node of tree `r`.
pub proof fn lemma_count_zero_iff(ns: Seq<Node>, r: int, m: int)
    ensures
        (concrete_count_below(ns, r, m) == 0) <==> (forall|j: int|
            0 <= j < m ==> !(#[trigger] concrete(ns, j) && root_of(ns, j) == r)),
    decreases m,
{
    if m > 0 {
        lemma_count_zero_iff(ns, r, m - 1);
    }
}

/// Discriminant law, upper bound: a concrete node's discriminant lies below
/// the number of concrete leaves of its tree, so all of a tree's
/// discriminants fall in `{0, …, k-1}`.
pub proof fn lemma_disc_bound(ns: Seq<Node>, j: int)
    requires
        0 <= j < ns.len(),
        concrete(ns, j),
    ensures
        disc_of(ns, j) < tree_concrete_count(ns, root_of(ns, j)),
{
    let r = root_of(ns, j);
    assert(concrete_count_below(ns, r, j + 1) == disc_of(ns, j) + 1);
    lemma_count_monotone(ns, r, j + 1, ns.len() as int);
}

/// Discriminant law, no repeats: two distinct concrete nodes of the same
/// tree never share a discriminant.
pub proof fn lemma_disc_injective(ns: Seq<Node>, j1: int, j2: int)
    requires
        0 <= j1 < ns.len(),
        0 <= j2 < ns.len(),
        j1 != j2,
        concrete(ns, j1),
        concrete(ns, j2),
        root_of(ns, j1) == root_of(ns, j2),
    ensures
        disc_of(ns, j1) != disc_of(ns, j2),
{
    let r = root_of(ns, j1);
    if j1 < j2 {
        assert(concrete_count_below(ns, r, j1 + 1) == disc_of(ns, j1) + 1);
        lemma_count_monotone(ns, r, j1 + 1, j2);
    } else {
        assert(concrete_count_below(ns, r, j2 + 1) == disc_of(ns, j2) + 1);
        lemma_count_monotone(ns, r, j2 + 1, j1);
    }
}

proof fn lemma_disc_hit(ns: Seq<Node>, r: int, d: int, m: int)
    requires
        0 <= d < concrete_count_below(ns, r, m),
    ensures
        exists|j: int|
            0 <= j < m && #[trigger] concrete(ns, j) && root_of(ns, j) == r && disc_of(ns, j) == d,
    decreases m,
{
    if m <= 0 {
        assert(concrete_count_below(ns, r, m) == 0);
    } else {
        if d < concrete_count_below(ns, r, m - 1) {
            lemma_disc_hit(ns, r, d, m - 1);
        } else {
            assert(concrete(ns, m - 1) && root_of(ns, m - 1) == r);
            assert(disc_of(ns, m - 1) == d);
        }
    }
}

/// Discriminant law, no gaps: every value below a tree's concrete-leaf
/// count is the discriminant of some concrete node of that tree. Together
/// with the bound and the injectivity, the discriminants within one tree
/// are exactly `{0, …, k-1}`.
pub proof fn lemma_disc_complete(ns: Seq<Node>, r: int, d: int)
    requires
        0 <= d < tree_concrete_count(ns, r),
    ensures
        exists|j: int|
            0 <= j < ns.len() && #[trigger] concrete(ns, j) && root_of(ns, j) == r && disc_of(
                ns,
                j,
            ) == d,
{
    lemma_disc_hit(ns, r, d, ns.len() as int);
}

/// A root whose node is both parentless and childless: it could never take
/// part in a tagged union.
pub open spec fn isolated(ns: Seq<Node>, r: int) -> bool {
    ns[r].parent is None && concrete(ns, r)
}

/// Some concrete node lives in the tree rooted at `r`.
pub open spec fn tree_has_concrete(ns: Seq<Node>, r: int) -> bool {
    exists|j: int| 0 <= j < ns.len() && #[trigger] concrete(ns, j) && root_of(ns, j) == r
}

/// Why resolution rejects a root: it is isolated, or (otherwise) its tree
/// holds no concrete node at all.
pub open spec fn root_fails(ns: Seq<Node>, r: int) -> bool {
    ns[r].parent is None && (isolated(ns, r) || !tree_has_concrete(ns, r))
}

/// `resolve` succeeds exactly when no root fails.
pub open spec fn resolve_accepts(ns: Seq<Node>) -> bool {
    forall|r: int| 0 <= r < ns.len() ==> !(#[trigger] root_fails(ns, r))
}

/// `y` is a descendant of `a` with the given concreteness, among indices
/// `0..bound`.
pub open spec fn desc_elem(ns: Seq<Node>, a: int, bound: int, want_concrete: bool, y: usize) -> bool {
    (y as int) < bound && concrete(ns, y as int) == want_concrete && is_ancestor(ns, a, y as int)
}

/// `v` is exactly the ordered set of descendants of `a` with the given
/// concreteness, in increasing index order.
pub open spec fn desc_vec_ok(ns: Seq<Node>, a: int, v: Seq<usize>, want_concrete: bool) -> bool {
    &&& (forall|x: usize| v.contains(x) <==> desc_elem(ns, a, ns.len() as int, want_concrete, x))
    &&& (forall|k1: int, k2: int| 0 <= k1 < k2 < v.len() ==> v[k1] < v[k2])
}

/// The resolved graph: the linked node arena plus, per node, its tree root,
/// its discriminant (concrete nodes only), and its concrete and abstract
/// descendant sets. Frozen after resolution; the runtime model is derived
/// from it read-only.
pub struct Resolved {
    pub graph: SchemaGraph,
    pub root: Vec<usize>,
    pub disc: Vec<Option<usize>>,
    pub concrete_desc: Vec<Vec<usize>>,
    pub abstract_desc: Vec<Vec<usize>>,
}

impl Resolved {
    /// The underlying node arena.
    pub open spec fn ns(self) -> Seq<Node> {
        self.graph.nodes@
    }

    pub open spec fn n(self) -> int {
        self.graph.nodes@.len() as int
    }

    /// Everything resolution guarantees: a well-formed forest that every
    /// stage below relies on, roots and discriminants as specified, and
    /// descendant sets that are exactly the ancestor relation restricted to
    /// the respective concreteness.
    pub open spec fn wf(self) -> bool {
        &&& self.graph.wf()
        &&& forest(self.ns())
        &&& resolve_accepts(self.ns())
        &&& self.root@.len() == self.n()
        &&& self.disc@.len() == self.n()
        &&& self.concrete_desc@.len() == self.n()
        &&& self.abstract_desc@.len() == self.n()
        &&& (forall|j: int|
            0 <= j < self.n() ==> (#[trigger] self.root@[j]) as int == root_of(self.ns(), j))
        &&& (forall|j: int|
            0 <= j < self.n() ==> #[trigger] self.disc@[j] == (if concrete(self.ns(), j) {
                Some(disc_of(self.ns(), j) as usize)
            } else {
                None::<usize>
            }))
        &&& (forall|a: int|
            0 <= a < self.n() ==> desc_vec_ok(self.ns(), a, (#[trigger] self.concrete_desc@[a])@, true))
        &&& (forall|a: int|
            0 <= a < self.n() ==> desc_vec_ok(self.ns(), a, (#[trigger] self.abstract_desc@[a])@, false))
    }
}

/// Decides whether `a` is a proper ancestor of `j`.
pub fn ancestor_exec(g: &SchemaGraph, a: usize, j: usize) -> (r: bool)
    requires
        g.wf(),
        forest(g.nodes@),
        a < g.nodes@.len(),
        j < g.nodes@.len(),
    ensures
        r == is_ancestor(g.nodes@, a as int, j as int),
{
    let ghost ns = g.nodes@;
    let n = g.nodes.len();
    let mut cur: usize = j;
    let mut fuel: usize = n;
    proof {
        assert(reaches_root(ns, j as int, n as nat));
    }
    loop
        invariant
            g.wf(),
            ns == g.nodes@,
            n == ns.len(),
            cur < n,
            fuel <= n,
            reaches_root(ns, cur as int, fuel as nat),
            is_ancestor(ns, a as int, j as int) == anc_within(ns, a as int, cur as int, fuel as nat),
        decreases fuel,
    {
        match g.nodes[cur].parent {
            None => {
                return false;
            },
            Some(p) => {
                if p == a {
                    return true;
                }
                cur = p;
                fuel = fuel - 1;
            },
        }
    }
}

/// Two node arenas of equal length with the same parent pointers. All of
/// acyclicity, concreteness, roots, discriminants and root acceptance read
/// only the parent pointers, so they agree on such arenas.
pub open spec fn same_parents(ns1: Seq<Node>, ns2: Seq<Node>) -> bool {
    ns1.len() == ns2.len() && (forall|i: int|
        0 <= i < ns1.len() ==> (#[trigger] ns1[i].parent) == ns2[i].parent)
}

/// Every parent pointer of the arena lies inside it.
pub open spec fn parents_in_range(ns: Seq<Node>) -> bool {
    forall|k: int|
        0 <= k < ns.len() && (#[trigger] ns[k].parent) is Some ==> ns[k].parent->Some_0 < ns.len()
}

proof fn lemma_reaches_root_same(ns1: Seq<Node>, ns2: Seq<Node>, i: int, fuel: nat)
    requires
        same_parents(ns1, ns2),
        parents_in_range(ns1),
        0 <= i < ns1.len(),
    ensures
        reaches_root(ns1, i, fuel) == reaches_root(ns2, i, fuel),
    decreases fuel,
{
    match ns1[i].parent {
        None => {},
        Some(p) => {
            if fuel > 0 {
                lemma_reaches_root_same(ns1, ns2, p as int, (fuel - 1) as nat);
            }
        },
    }
}

proof fn lemma_root_within_same(ns1: Seq<Node>, ns2: Seq<Node>, i: int, fuel: nat)
    requires
        same_parents(ns1, ns2),
        parents_in_range(ns1),
        0 <= i < ns1.len(),
    ensures
        root_within(ns1, i, fuel) == root_within(ns2, i, fuel),
    decreases fuel,
{
    match ns1[i].parent {
        None => {},
        Some(p) => {
            if fuel > 0 {
                lemma_root_within_same(ns1, ns2, p as int, (fuel - 1) as nat);
            }
        },
    }
}

proof fn lemma_concrete_same(ns1: Seq<Node>, ns2: Seq<Node>, a: int)
    requires
        same_parents(ns1, ns2),
    ensures
        concrete(ns1, a) == concrete(ns2, a),
{
    if has_child(ns1, a) {
        let c = choose|c: int| is_child(ns1, c, a);
        assert(is_child(ns2, c, a));
    }
    if has_child(ns2, a) {
        let c = choose|c: int| is_child(ns2, c, a);
        assert(is_child(ns1, c, a));
    }
}

proof fn lemma_count_same(ns1: Seq<Node>, ns2: Seq<Node>, r: int, m: int)
    requires
        same_parents(ns1, ns2),
        parents_in_range(ns1),
        m <= ns1.len(),
    ensures
        concrete_count_below(ns1, r, m) == concrete_count_below(ns2, r, m),
    decreases m,
{
    if m > 0 {
        lemma_count_same(ns1, ns2, r, m - 1);
        lemma_concrete_same(ns1, ns2, m - 1);
        lemma_root_within_same(ns1, ns2, m - 1, ns1.len() as nat);
    }
}

proof fn lemma_root_fails_same(ns1: Seq<Node>, ns2: Seq<Node>, r: int)
    requires
        same_parents(ns1, ns2),
        parents_in_range(ns1),
        0 <= r < ns1.len(),
    ensures
        root_fails(ns1, r) == root_fails(ns2, r),
{
    lemma_concrete_same(ns1, ns2, r);
    if tree_has_concrete(ns1, r) {
        let j = choose|j: int|
            0 <= j < ns1.len() && #[trigger] concrete(ns1, j) && root_of(ns1, j) == r;
        lemma_concrete_same(ns1, ns2, j);
        lemma_root_within_same(ns1, ns2, j, ns1.len() as nat);
        assert(concrete(ns2, j) && root_of(ns2, j) == r);
    }
    if tree_has_concrete(ns2, r) {
        let j = choose|j: int|
            0 <= j < ns2.len() && #[trigger] concrete(ns2, j) && root_of(ns2, j) == r;
        lemma_concrete_same(ns1, ns2, j);
        lemma_root_within_same(ns1, ns2, j, ns1.len() as nat);
        assert(concrete(ns1, j) && root_of(ns1, j) == r);
    }
}

/// With no duplicate names, the declarations determine every node's parent
/// pointer: two arenas that both mirror them have the same parent structure.
pub proof fn lemma_graph_determined(decls: Seq<Decl>, ns1: Seq<Node>, ns2: Seq<Node>)
    requires
        !has_dup(decls),
        graph_matches(decls, ns1),
        graph_matches(decls, ns2),
    ensures
        same_parents(ns1, ns2),
{
    assert forall|i: int| 0 <= i < ns1.len() implies (#[trigger] ns1[i].parent)
        == ns2[i].parent by {
        assert(node_matches(decls, ns1, i));
        assert(node_matches(decls, ns2, i));
        match decls[i].parent {
            None => {},
            Some(_) => {
                let j1 = ns1[i].parent->Some_0 as int;
                let j2 = ns2[i].parent->Some_0 as int;
                if j1 != j2 {
                    assert(decls[j1].name@ == decls[i].parent->Some_0@);
                    assert(decls[j2].name@ == decls[i].parent->Some_0@);
                    if j1 < j2 {
                        assert(dup_at(decls, j2));
                    } else {
                        assert(dup_at(decls, j1));
                    }
                }
            },
        }
    }
}

/// The schema determines resolution's outcome: any two linked graphs that
/// mirror the same duplicate-free declarations agree on acyclicity and on
/// whether every root is accepted.
pub proof fn lemma_resolution_determined(decls: Seq<Decl>, ns1: Seq<Node>, ns2: Seq<Node>)
    requires
        !has_dup(decls),
        graph_matches(decls, ns1),
        graph_matches(decls, ns2),
    ensures
        forest(ns1) == forest(ns2),
        resolve_accepts(ns1) == resolve_accepts(ns2),
{
    lemma_graph_determined(decls, ns1, ns2);
    assert(parents_in_range(ns1)) by {
        assert forall|k: int|
            0 <= k < ns1.len() && (#[trigger] ns1[k].parent) is Some implies ns1[k].parent->Some_0
            < ns1.len() by {
            assert(node_matches(decls, ns1, k));
        }
    }
    if forest(ns1) {
        assert forall|i: int| 0 <= i < ns2.len() implies #[trigger] reaches_root(
            ns2,
            i,
            ns2.len() as nat,
        ) by {
            lemma_reaches_root_same(ns1, ns2, i, ns1.len() as nat);
        }
        assert(forest(ns2));
    }
    if forest(ns2) {
        assert forall|i: int| 0 <= i < ns1.len() implies #[trigger] reaches_root(
            ns1,
            i,
            ns1.len() as nat,
        ) by {
            lemma_reaches_root_same(ns1, ns2, i, ns1.len() as nat);
        }
        assert(forest(ns1));
    }
    if resolve_accepts(ns1) {
        assert forall|r: int| 0 <= r < ns2.len() implies !(#[trigger] root_fails(ns2, r)) by {
            lemma_root_fails_same(ns1, ns2, r);
            assert(!root_fails(ns1, r));
        }
    }
    if resolve_accepts(ns2) {
        assert forall|r: int| 0 <= r < ns1.len() implies !(#[trigger] root_fails(ns1, r)) by {
            lemma_root_fails_same(ns1, ns2, r);
            assert(!root_fails(ns2, r));
        }
    }
}

/// Collects the concrete and abstract descendant sets of node `a`, each in
/// increasing index order.
fn collect_desc(g: &SchemaGraph, a: usize) -> (r: (Vec<usize>, Vec<usize>))
    requires
        g.wf(),
        forest(g.nodes@),
        a < g.nodes@.len(),
    ensures
        desc_vec_ok(g.nodes@, a as int, r.0@, true),
        desc_vec_ok(g.nodes@, a as int, r.1@, false),
{
    let ghost ns = g.nodes@;
    let n = g.nodes.len();
    let mut cd: Vec<usize> = Vec::new();
    let mut ad: Vec<usize> = Vec::new();
    let mut x: usize = 0;
    while x < n
        invariant
            g.wf(),
            forest(ns),
            ns == g.nodes@,
            n == ns.len(),
            a < n,
            x <= n,
            forall|y: usize| cd@.contains(y) <==> desc_elem(ns, a as int, x as int, true, y),
            forall|y: usize| ad@.contains(y) <==> desc_elem(ns, a as int, x as int, false, y),
            forall|k1: int, k2: int| 0 <= k1 < k2 < cd@.len() ==> cd@[k1] < cd@[k2],
            forall|k1: int, k2: int| 0 <= k1 < k2 < ad@.len() ==> ad@[k1] < ad@[k2],
            forall|k: int| 0 <= k < cd@.len() ==> cd@[k] < x,
            forall|k: int| 0 <= k < ad@.len() ==> ad@[k] < x,
        decreases n - x,
    {
        let ghost prev_cd = cd@;
        let ghost prev_ad = ad@;
        let anc = ancestor_exec(g, a, x);
        let conc = g.is_concrete(x);
        if anc {
            if conc {
                cd.push(x);
            } else {
                ad.push(x);
            }
        }
        proof {
            let b = x as int + 1;
            assert forall|y: usize| cd@.contains(y) implies desc_elem(ns, a as int, b, true, y) by {
                let k = choose|k: int| 0 <= k < cd@.len() && cd@[k] == y;
                if k < prev_cd.len() {
                    assert(prev_cd.contains(y));
                    assert(desc_elem(ns, a as int, x as int, true, y));
                } else {
                    assert(cd@[k] == x);
                }
            }
            assert forall|y: usize| desc_elem(ns, a as int, b, true, y) implies cd@.contains(y) by {
                if y < x {
                    assert(desc_elem(ns, a as int, x as int, true, y));
                    assert(prev_cd.contains(y));
                    let k = choose|k: int| 0 <= k < prev_cd.len() && prev_cd[k] == y;
                    assert(cd@[k] == y);
                } else {
                    assert(y == x);
                    assert(cd@[cd@.len() - 1] == y);
                }
            }
            assert forall|y: usize| ad@.contains(y) implies desc_elem(ns, a as int, b, false, y) by {
                let k = choose|k: int| 0 <= k < ad@.len() && ad@[k] == y;
                if k < prev_ad.len() {
                    assert(prev_ad.contains(y));
                    assert(desc_elem(ns, a as int, x as int, false, y));
                } else {
                    assert(ad@[k] == x);
                }
            }
            assert forall|y: usize| desc_elem(ns, a as int, b, false, y) implies ad@.contains(y) by {
                if y < x {
                    assert(desc_elem(ns, a as int, x as int, false, y));
                    assert(prev_ad.contains(y));
                    let k = choose|k: int| 0 <= k < prev_ad.len() && prev_ad[k] == y;
                    assert(ad@[k] == y);
                } else {
                    assert(y == x);
                    assert(ad@[ad@.len() - 1] == y);
                }
            }
        }
        x += 1;
    }
    (cd, ad)
}

/// Resolves a well-formed, acyclic graph: assigns discriminants and
/// descendant sets, and rejects isolated nodes and trees without a concrete
/// leaf, reporting the first failing root in declaration order.
pub fn resolve(g: SchemaGraph) -> (r: Result<Resolved, SchemaError>)
    requires
        g.wf(),
        forest(g.nodes@),
    ensures
        r is Ok <==> resolve_accepts(g.nodes@),
        r is Ok ==> r->Ok_0.wf() && r->Ok_0.graph == g,
        r is Err ==> (exists|i: int|
            0 <= i < g.nodes@.len() && #[trigger] root_fails(g.nodes@, i) && (forall|k: int|
                0 <= k < i ==> !root_fails(g.nodes@, k)) && r->Err_0 == (if isolated(g.nodes@, i) {
                SchemaError::IsolatedNode(g.nodes@[i].name)
            } else {
                SchemaError::NoConcreteSubclass(g.nodes@[i].name)
            })),
{
    let ghost ns = g.nodes@;
    let n = g.nodes.len();

    // The tree root of every node.
    let mut root: Vec<usize> = Vec::new();
    let mut j: usize = 0;
    while j < n
        invariant
            g.wf(),
            forest(ns),
            ns == g.nodes@,
            n == ns.len(),
            j <= n,
            root@.len() == j,
            forall|k: int| 0 <= k < j ==> (#[trigger] root@[k]) as int == root_of(ns, k),
        decreases n - j,
    {
        root.push(root_exec(&g, j));
        j += 1;
    }

    // Discriminants: every concrete node gets the per-tree counter value,
    // counting in declaration order.
    let mut counts: Vec<usize> = Vec::new();
    let mut j: usize = 0;
    while j < n
        invariant
            j <= n,
            counts@.len() == j,
            forall|k: int| 0 <= k < j ==> (#[trigger] counts@[k]) == 0,
        decreases n - j,
    {
        counts.push(0);
        j += 1;
    }
    let mut disc: Vec<Option<usize>> = Vec::new();
    let mut j: usize = 0;
    while j < n
        invariant
            g.wf(),
            forest(ns),
            ns == g.nodes@,
            n == ns.len(),
            j <= n,
            root@.len() == n,
            forall|k: int| 0 <= k < n ==> (#[trigger] root@[k]) as int == root_of(ns, k),
            counts@.len() == n,
            disc@.len() == j,
            forall|t: int|
                0 <= t < n ==> (#[trigger] counts@[t]) as nat == concrete_count_below(ns, t, j as int),
            forall|k: int|
                0 <= k < j ==> #[trigger] disc@[k] == (if concrete(ns, k) {
                    Some(disc_of(ns, k) as usize)
                } else {
                    None::<usize>
                }),
        decreases n - j,
    {
        let ghost prev_counts = counts@;
        if g.is_concrete(j) {
            let rr = root[j];
            proof {
                lemma_root_props(ns, j as int, ns.len() as nat);
            }
            let c = counts[rr];
            proof {
                lemma_count_le(ns, rr as int, j as int);
            }
            disc.push(Some(c));
            counts.set(rr, c + 1);
            proof {
                assert forall|t: int| 0 <= t < n implies (#[trigger] counts@[t]) as nat
                    == concrete_count_below(ns, t, j as int + 1) by {
                    assert(concrete_count_below(ns, t, j as int + 1) == concrete_count_below(
                        ns,
                        t,
                        j as int,
                    ) + (if concrete(ns, j as int) && root_of(ns, j as int) == t {
                        1nat
                    } else {
                        0nat
                    }));
                    if t == rr as int {
                        assert(counts@[t] == c + 1);
                    } else {
                        assert(counts@[t] == prev_counts[t]);
                    }
                }
                assert(disc@[j as int] == Some(disc_of(ns, j as int) as usize));
            }
        } else {
            disc.push(None);
            proof {
                assert forall|t: int| 0 <= t < n implies (#[trigger] counts@[t]) as nat
                    == concrete_count_below(ns, t, j as int + 1) by {
                    assert(concrete_count_below(ns, t, j as int + 1) == concrete_count_below(
                        ns,
                        t,
                        j as int,
                    ));
                }
            }
        }
        j += 1;
    }

    // Descendant sets.
    let mut concrete_desc: Vec<Vec<usize>> = Vec::new();
    let mut abstract_desc: Vec<Vec<usize>> = Vec::new();
    let mut a: usize = 0;
    while a < n
        invariant
            g.wf(),
            forest(ns),
            ns == g.nodes@,
            n == ns.len(),
            a <= n,
            concrete_desc@.len() == a,
            abstract_desc@.len() == a,
            forall|b: int|
                0 <= b < a ==> desc_vec_ok(ns, b, (#[trigger] concrete_desc@[b])@, true),
            forall|b: int|
                0 <= b < a ==> desc_vec_ok(ns, b, (#[trigger] abstract_desc@[b])@, false),
        decreases n - a,
    {
        let (cd, ad) = collect_desc(&g, a);
        concrete_desc.push(cd);
        abstract_desc.push(ad);
        a += 1;
    }

    // Validation: reject the first failing root. A failing root is either
    // isolated (childless and parentless) or heads a tree without a single
    // concrete leaf.
    let mut i: usize = 0;
    while i < n
        invariant
            g.wf(),
            forest(ns),
            ns == g.nodes@,
            n == ns.len(),
            i <= n,
            counts@.len() == n,
            forall|t: int|
                0 <= t < n ==> (#[trigger] counts@[t]) as nat == concrete_count_below(ns, t, n as int),
            forall|k: int| 0 <= k < i ==> !(#[trigger] root_fails(ns, k)),
        decreases n - i,
    {
        let is_root = match g.nodes[i].parent {
            None => true,
            Some(_) => false,
        };
        if is_root {
            if g.is_concrete(i) {
                let e = SchemaError::IsolatedNode(g.nodes[i].name.clone());
                proof {
                    let wi = i as int;
                    assert(isolated(ns, wi));
                    assert(root_fails(ns, wi));
                    assert(0 <= wi < ns.len() && root_fails(ns, wi) && (forall|k: int|
                        0 <= k < wi ==> !root_fails(ns, k)) && e == SchemaError::IsolatedNode(
                        ns[wi].name,
                    ));
                }
                return Err(e);
            }
            if counts[i] == 0 {
                let e = SchemaError::NoConcreteSubclass(g.nodes[i].name.clone());
                proof {
                    let wi = i as int;
                    lemma_count_zero_iff(ns, wi, n as int);
                    assert(!tree_has_concrete(ns, wi));
                    assert(root_fails(ns, wi));
                    assert(0 <= wi < ns.len() && root_fails(ns, wi) && (forall|k: int|
                        0 <= k < wi ==> !root_fails(ns, k)) && !isolated(ns, wi)
                        && e == SchemaError::NoConcreteSubclass(ns[wi].name));
                }
                return Err(e);
            }
            proof {
                let wi = i as int;
                lemma_count_zero_iff(ns, wi, n as int);
                assert(tree_has_concrete(ns, wi));
                assert(!root_fails(ns, wi));
            }
        }
        i += 1;
    }

    let res = Resolved { graph: g, root, disc, concrete_desc, abstract_desc };
    proof {
        assert(res.wf());
    }
    Ok(res)
}

} // verus!
