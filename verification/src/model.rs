//! The runtime model derived from a resolved graph: per node, the generated
//! record and tagged-union declarations, and the semantics of the generated
//! values — constructors, cost-free upcasts, and checked downcasts driven by
//! a per-type membership set that only the resolver computes.
//!
//! Values here carry a genuine tag, and every operation re-wraps rather than
//! reinterprets memory, so the one hazard of the generated code — writing a
//! tag/payload pairing through a view obtained by upcasting and downcasting
//! to a different sibling — cannot arise: mutation through a matched view
//! (`Value::set_payload`) leaves the tag untouched.

use vstd::prelude::*;
use vstd::string::StringExecFns;

use crate::cycle::{check_acyclic, forest, reaches_root};
use crate::graph::{
    build, build_accepts, concrete, dup_at, graph_matches, has_dup, is_child, unknown_at, Node,
};
use crate::resolve::{
    anc_within, desc_elem, disc_of, is_ancestor, isolated, lemma_anc_extend_down, lemma_anc_lift,
    lemma_concrete_no_descendant, lemma_count_le, lemma_find_leaf, lemma_resolution_determined,
    resolve, resolve_accepts, root_fails, root_of, Resolved,
};
use crate::schema::{duplicate_fields, Decl, FieldDecl, SchemaError};

verus! {

/// Node `j` is a variant of node `t`'s tagged union: either `t` itself (for
/// a concrete node, whose union wraps just its own record) or a concrete
/// descendant of `t`.
pub open spec fn in_variant_set(ns: Seq<Node>, t: int, j: int) -> bool {
    0 <= j < ns.len() && concrete(ns, j) && (j == t || is_ancestor(ns, t, j))
}

/// A checked downcast to node `t` accepts exactly the discriminants of
/// `t`'s variant set.
pub open spec fn downcast_allows(ns: Seq<Node>, t: int, d: int) -> bool {
    exists|j: int| #[trigger] in_variant_set(ns, t, j) && disc_of(ns, j) == d
}

/// Variant sets propagate upward: every discriminant a union accepts, its
/// parent's union accepts too. This is why an upcast needs no check and can
/// never fail or lose a value.
pub proof fn lemma_membership_upward(ns: Seq<Node>, t: int, p: int, d: int)
    requires
        forest(ns),
        forall|k: int|
            0 <= k < ns.len() && (#[trigger] ns[k].parent) is Some ==> ns[k].parent->Some_0
                < ns.len(),
        0 <= t < ns.len(),
        ns[t].parent is Some,
        ns[t].parent->Some_0 as int == p,
        downcast_allows(ns, t, d),
    ensures
        downcast_allows(ns, p, d),
{
    let n = ns.len() as nat;
    let j = choose|j: int| #[trigger] in_variant_set(ns, t, j) && disc_of(ns, j) == d;
    if j == t {
        assert(anc_within(ns, p, j, n));
        assert(in_variant_set(ns, p, j));
    } else {
        lemma_anc_lift(ns, p, t, j, n);
        assert(in_variant_set(ns, p, j));
    }
}

/// Decomposition of the ancestor relation through direct children: `a` is
/// an ancestor of `j` exactly when some direct child of `a` is `j` itself
/// or an ancestor of `j`.
pub proof fn lemma_ancestor_children(ns: Seq<Node>, a: int, j: int)
    requires
        forest(ns),
        forall|k: int|
            0 <= k < ns.len() && (#[trigger] ns[k].parent) is Some ==> ns[k].parent->Some_0
                < ns.len(),
        0 <= a < ns.len(),
        0 <= j < ns.len(),
        ns.len() <= usize::MAX,
    ensures
        is_ancestor(ns, a, j) <==> (exists|c: int|
            #[trigger] is_child(ns, c, a) && (c == j || is_ancestor(ns, c, j))),
{
    let n = ns.len() as nat;
    if is_ancestor(ns, a, j) {
        lemma_ancestor_children_fwd(ns, a, j, n);
    }
    if exists|c: int| #[trigger] is_child(ns, c, a) && (c == j || is_ancestor(ns, c, j)) {
        let c = choose|c: int| #[trigger] is_child(ns, c, a) && (c == j || is_ancestor(ns, c, j));
        assert((a as usize) as int == a);
        assert(ns[c].parent is Some && ns[c].parent->Some_0 as int == a);
        if c == j {
            assert(anc_within(ns, a, j, n));
        } else {
            lemma_anc_lift(ns, a, c, j, n);
        }
    }
}

proof fn lemma_ancestor_children_fwd(ns: Seq<Node>, a: int, j: int, fuel: nat)
    requires
        forest(ns),
        forall|k: int|
            0 <= k < ns.len() && (#[trigger] ns[k].parent) is Some ==> ns[k].parent->Some_0
                < ns.len(),
        0 <= a < ns.len(),
        0 <= j < ns.len(),
        anc_within(ns, a, j, fuel),
    ensures
        exists|c: int| #[trigger] is_child(ns, c, a) && (c == j || is_ancestor(ns, c, j)),
    decreases fuel,
{
    let n = ns.len() as nat;
    match ns[j].parent {
        None => {},
        Some(p) => {
            if p as int == a {
                assert(is_child(ns, j, a) && (j == j || is_ancestor(ns, j, j)));
            } else {
                lemma_ancestor_children_fwd(ns, a, p as int, (fuel - 1) as nat);
                let c = choose|c: int|
                    #[trigger] is_child(ns, c, a) && (c == p as int || is_ancestor(ns, c, p as int));
                if c == p as int {
                    assert(anc_within(ns, c, j, n));
                    assert(is_child(ns, c, a) && (c == j || is_ancestor(ns, c, j)));
                } else {
                    lemma_anc_extend_down(ns, c, p as int, j);
                    assert(is_child(ns, c, a) && (c == j || is_ancestor(ns, c, j)));
                }
            }
        },
    }
}

/// The concrete-descendant sets of a resolved graph satisfy the union law:
/// node `a`'s set holds exactly `a`'s concrete direct children together
/// with the members of each direct child's own set.
pub proof fn lemma_concrete_descendants_union(res: Resolved, a: int, y: usize)
    requires
        res.wf(),
        0 <= a < res.n(),
    ensures
        res.concrete_desc@[a]@.contains(y) <==> (exists|c: int|
            #[trigger] is_child(res.ns(), c, a) && ((c == y as int && concrete(res.ns(), c))
                || res.concrete_desc@[c]@.contains(y))),
{
    let ns = res.ns();
    let n = res.n();
    assert(ns.len() <= usize::MAX) by {
        assert(ns.len() == res.graph.nodes.len());
    }
    if res.concrete_desc@[a]@.contains(y) {
        assert(desc_elem(ns, a, n, true, y));
        lemma_ancestor_children(ns, a, y as int);
        let c = choose|c: int|
            #[trigger] is_child(ns, c, a) && (c == y as int || is_ancestor(ns, c, y as int));
        if c == y as int {
            assert(is_child(ns, c, a) && (c == y as int && concrete(ns, c)));
        } else {
            assert(desc_elem(ns, c, n, true, y));
            assert(res.concrete_desc@[c]@.contains(y));
            assert(is_child(ns, c, a) && ((c == y as int && concrete(ns, c))
                || res.concrete_desc@[c]@.contains(y)));
        }
    }
    if exists|c: int|
        #[trigger] is_child(res.ns(), c, a) && ((c == y as int && concrete(res.ns(), c))
            || res.concrete_desc@[c]@.contains(y)) {
        let c = choose|c: int|
            #[trigger] is_child(res.ns(), c, a) && ((c == y as int && concrete(res.ns(), c))
                || res.concrete_desc@[c]@.contains(y));
        if c == y as int && concrete(ns, c) {
            assert(anc_within(ns, a, y as int, ns.len() as nat));
            assert(desc_elem(ns, a, n, true, y));
        } else {
            assert(res.concrete_desc@[c]@.contains(y));
            assert(desc_elem(ns, c, n, true, y));
            lemma_ancestor_children(ns, a, y as int);
            assert(is_child(ns, c, a) && (c == y as int || is_ancestor(ns, c, y as int)));
        }
        assert(desc_elem(ns, a, n, true, y));
    }
}

/// In an accepted forest every concrete node has a parent: a parentless
/// concrete node would be isolated, and resolution rejects those.
pub proof fn lemma_concrete_has_parent(res: Resolved, i: int)
    requires
        res.wf(),
        0 <= i < res.n(),
        concrete(res.ns(), i),
    ensures
        res.ns()[i].parent is Some,
{
    if res.ns()[i].parent is None {
        assert(isolated(res.ns(), i));
        assert(root_fails(res.ns(), i));
    }
}

/// The identifier of the tagged union generated for node `i`: a concrete
/// node's single-variant union is named after the node followed by its
/// parent; an abstract node's union is named `Generic` followed by the node.
pub open spec fn union_name_of(ns: Seq<Node>, i: int) -> Seq<char> {
    if concrete(ns, i) {
        ns[i].name@ + ns[i].parent_name->Some_0@
    } else {
        "Generic"@ + ns[i].name@
    }
}

/// The variants of the union generated for node `i`, in order: a concrete
/// node wraps only itself; an abstract node carries its concrete
/// descendants.
pub open spec fn variant_nodes(res: Resolved, i: int) -> Seq<usize> {
    if concrete(res.ns(), i) {
        seq![i as usize]
    } else {
        res.concrete_desc@[i]@
    }
}

/// One variant of a generated tagged union: the concrete node it wraps and
/// the discriminant tagging it.
pub struct VariantDecl {
    pub node: usize,
    pub name: String,
    pub discriminant: usize,
}

/// The plain record generated for a node: the parent's record embedded as a
/// prefix (`base`), then the node's own fields.
pub struct RecordDecl {
    pub vis: String,
    pub name: String,
    pub base: Option<String>,
    pub fields: Vec<FieldDecl>,
}

/// Everything generated for one node: its record, its tagged union (name
/// and variants), the sealed membership set its checked downcast tests, and
/// its upcast target.
pub struct NodeModel {
    pub record: RecordDecl,
    pub union_name: String,
    pub variants: Vec<VariantDecl>,
    pub membership: Vec<usize>,
    pub parent: Option<usize>,
}

/// Node model `m` is the correct generated declaration set for node `i`.
pub open spec fn node_model_ok(res: Resolved, i: int, m: NodeModel) -> bool {
    let ns = res.ns();
    &&& m.parent == ns[i].parent
    &&& m.record.name@ == ns[i].name@
    &&& m.record.vis@ == ns[i].vis@
    &&& m.record.base == ns[i].parent_name
    &&& m.record.fields@ == ns[i].fields@
    &&& m.union_name@ == union_name_of(ns, i)
    &&& m.variants@.len() == variant_nodes(res, i).len()
    &&& (forall|k: int|
        0 <= k < m.variants@.len() ==> (#[trigger] m.variants@[k]).node == variant_nodes(res, i)[k]
            && m.variants@[k].name@ == ns[variant_nodes(res, i)[k] as int].name@
            && m.variants@[k].discriminant as nat == disc_of(ns, variant_nodes(res, i)[k] as int))
    &&& m.membership@.len() == m.variants@.len()
    &&& (forall|k: int|
        0 <= k < m.membership@.len() ==> (#[trigger] m.membership@[k])
            == m.variants@[k].discriminant)
    &&& (forall|d: usize|
        (#[trigger] m.membership@.contains(d)) <==> downcast_allows(ns, i, d as int))
}

/// The full runtime model: the frozen resolved graph and, per node, its
/// generated declarations.
pub struct RuntimeModel {
    pub resolved: Resolved,
    pub nodes: Vec<NodeModel>,
}

/// A membership list that carries, in order, the discriminants of node
/// `i`'s variants accepts exactly the discriminants of `i`'s variant set.
proof fn lemma_membership_iff(res: Resolved, i: int, mem: Seq<usize>)
    requires
        res.wf(),
        0 <= i < res.n(),
        mem.len() == variant_nodes(res, i).len(),
        forall|k: int|
            0 <= k < mem.len() ==> (#[trigger] mem[k]) as nat == disc_of(
                res.ns(),
                variant_nodes(res, i)[k] as int,
            ),
    ensures
        forall|d: usize| (#[trigger] mem.contains(d)) <==> downcast_allows(res.ns(), i, d as int),
{
    let ns = res.ns();
    let n = res.n();
    assert(ns.len() <= usize::MAX) by {
        assert(ns.len() == res.graph.nodes.len());
    }
    assert forall|d: usize| (#[trigger] mem.contains(d)) implies downcast_allows(
        ns,
        i,
        d as int,
    ) by {
        let k = choose|k: int| 0 <= k < mem.len() && mem[k] == d;
        let vn = variant_nodes(res, i)[k];
        if concrete(ns, i) {
            assert(vn == i as usize);
            assert(in_variant_set(ns, i, i));
            assert(in_variant_set(ns, i, i) && disc_of(ns, i) == d as int);
        } else {
            assert(res.concrete_desc@[i]@.contains(vn));
            assert(desc_elem(ns, i, n, true, vn));
            assert(in_variant_set(ns, i, vn as int) && disc_of(ns, vn as int) == d as int);
        }
    }
    assert forall|d: usize| downcast_allows(ns, i, d as int) implies (#[trigger] mem.contains(
        d,
    )) by {
        let j = choose|j: int| #[trigger] in_variant_set(ns, i, j) && disc_of(ns, j) == d as int;
        if concrete(ns, i) {
            if j != i {
                lemma_concrete_no_descendant(ns, i, j, ns.len() as nat);
                assert(false);
            }
            assert(mem[0] == d);
        } else {
            assert(j != i);
            assert(desc_elem(ns, i, n, true, j as usize));
            assert(res.concrete_desc@[i]@.contains(j as usize));
            let k = choose|k: int|
                0 <= k < res.concrete_desc@[i]@.len() && res.concrete_desc@[i]@[k] == j as usize;
            assert(mem[k] == d);
        }
    }
}

/// Copies a vector of machine values.
fn copy_vec<T: Copy>(v: &Vec<T>) -> (r: Vec<T>)
    ensures
        r@ == v@,
{
    let mut r: Vec<T> = Vec::new();
    let mut k: usize = 0;
    while k < v.len()
        invariant
            k <= v@.len(),
            r@ =~= v@.subrange(0, k as int),
        decreases v@.len() - k,
    {
        r.push(v[k]);
        k += 1;
    }
    proof {
        assert(r@ =~= v@);
    }
    r
}

impl RuntimeModel {
    /// The underlying node arena.
    pub open spec fn ns(self) -> Seq<Node> {
        self.resolved.ns()
    }

    pub open spec fn n(self) -> int {
        self.resolved.n()
    }

    /// The resolved graph is well-formed and every node's generated
    /// declarations are correct for it.
    pub open spec fn wf(self) -> bool {
        &&& self.resolved.wf()
        &&& self.nodes@.len() == self.n()
        &&& (forall|i: int|
            0 <= i < self.n() ==> node_model_ok(self.resolved, i, #[trigger] self.nodes@[i]))
    }
}

/// Derives the runtime model from the resolved graph: per node, the record
/// declaration (parent embedding plus own fields), the tagged union (its
/// identifier and its variants with their discriminants), the sealed
/// membership set of its checked downcast, and its upcast target.
pub fn build_model(res: Resolved) -> (m: RuntimeModel)
    requires
        res.wf(),
    ensures
        m.wf(),
        m.resolved == res,
{
    let ghost ns = res.ns();
    let n = res.graph.nodes.len();
    let mut nodes: Vec<NodeModel> = Vec::new();
    let mut i: usize = 0;
    while i < n
        invariant
            res.wf(),
            ns == res.ns(),
            n == ns.len(),
            i <= n,
            nodes@.len() == i,
            forall|k: int| 0 <= k < i ==> node_model_ok(res, k, #[trigger] nodes@[k]),
        decreases n - i,
    {
        let conc = res.graph.is_concrete(i);
        let nd = &res.graph.nodes[i];

        let union_name: String = if conc {
            match &nd.parent_name {
                Some(p) => nd.name.clone().concat(p.as_str()),
                None => {
                    proof {
                        lemma_concrete_has_parent(res, i as int);
                    }
                    vstd::pervasive::unreached()
                },
            }
        } else {
            String::from_str("Generic").concat(nd.name.as_str())
        };

        // Variant list: the node itself for a concrete node, else its
        // concrete descendants.
        let vnodes: Vec<usize> = if conc {
            vec![i]
        } else {
            copy_vec(&res.concrete_desc[i])
        };
        proof {
            assert(vnodes@ == variant_nodes(res, i as int));
        }
        let mut variants: Vec<VariantDecl> = Vec::new();
        let mut membership: Vec<usize> = Vec::new();
        let mut k: usize = 0;
        while k < vnodes.len()
            invariant
                res.wf(),
                ns == res.ns(),
                n == ns.len(),
                i < n,
                vnodes@ == variant_nodes(res, i as int),
                k <= vnodes@.len(),
                variants@.len() == k,
                membership@.len() == k,
                forall|l: int|
                    0 <= l < k ==> (#[trigger] variants@[l]).node == vnodes@[l]
                        && variants@[l].name@ == ns[vnodes@[l] as int].name@
                        && variants@[l].discriminant as nat == disc_of(ns, vnodes@[l] as int),
                forall|l: int|
                    0 <= l < k ==> (#[trigger] membership@[l]) == variants@[l].discriminant,
            decreases vnodes@.len() - k,
        {
            let vn = vnodes[k];
            proof {
                if !concrete(ns, i as int) {
                    assert(res.concrete_desc@[i as int]@.contains(vn));
                    assert(desc_elem(ns, i as int, n as int, true, vn));
                }
                assert(vn < n && concrete(ns, vn as int));
                lemma_count_le(ns, root_of(ns, vn as int), vn as int);
                assert(disc_of(ns, vn as int) <= vn as int);
                assert(res.disc@[vn as int] == Some(disc_of(ns, vn as int) as usize));
            }
            let o = res.disc[vn];
            let d = o.unwrap();
            proof {
                assert(d as nat == disc_of(ns, vn as int));
            }
            variants.push(VariantDecl { node: vn, name: res.graph.nodes[vn].name.clone(), discriminant: d });
            membership.push(d);
            proof {
                assert(variants@[k as int].node == vn);
                assert(variants@[k as int].name@ == ns[vn as int].name@);
                assert(variants@[k as int].discriminant as nat == disc_of(ns, vn as int));
                assert(membership@[k as int] == d);
            }
            k += 1;
        }

        let record = RecordDecl {
            vis: nd.vis.clone(),
            name: nd.name.clone(),
            base: match &nd.parent_name {
                Some(p) => Some(p.clone()),
                None => None,
            },
            fields: duplicate_fields(&nd.fields),
        };
        let nm = NodeModel {
            record,
            union_name,
            variants,
            membership,
            parent: nd.parent,
        };
        proof {
            lemma_membership_iff(res, i as int, nm.membership@);
            assert(node_model_ok(res, i as int, nm));
        }
        let ghost prev = nodes@;
        nodes.push(nm);
        proof {
            assert forall|k2: int| 0 <= k2 < i + 1 implies node_model_ok(
                res,
                k2,
                #[trigger] nodes@[k2],
            ) by {
                if k2 < i {
                    assert(nodes@[k2] == prev[k2]);
                    assert(node_model_ok(res, k2, prev[k2]));
                }
            }
        }
        i += 1;
    }
    RuntimeModel { resolved: res, nodes }
}

/// A runtime value as the generated code represents it: the static union
/// type it is currently viewed as, the discriminant tag of its concrete
/// type, and the opaque field payload.
pub struct Value {
    pub ty: usize,
    pub disc: usize,
    pub payload: Vec<u64>,
}

impl Value {
    /// The tag is one that the value's static type accepts: the pairing of
    /// discriminant and union type is consistent.
    pub open spec fn wf(self, res: Resolved) -> bool {
        (self.ty as int) < res.n() && downcast_allows(res.ns(), self.ty as int, self.disc as int)
    }

    /// Observational identity: same static type, same tag, same payload.
    pub open spec fn obs_eq(self, other: Value) -> bool {
        self.ty == other.ty && self.disc == other.disc && self.payload@ == other.payload@
    }

    /// Writes one payload slot in place: the mutation path a correctly
    /// matched mutable downcast exposes. The tag and the static type are
    /// untouched, so the discriminant/payload pairing stays consistent and
    /// well-formedness is preserved.
    pub fn set_payload(&mut self, k: usize, x: u64)
        requires
            k < old(self).payload@.len(),
        ensures
            final(self).payload@ == old(self).payload@.update(k as int, x),
            final(self).ty == old(self).ty,
            final(self).disc == old(self).disc,
    {
        self.payload.set(k, x);
    }
}

/// What an upcast returns: the same tag and payload, viewed as the parent's
/// union type.
pub open spec fn upcast_spec(ns: Seq<Node>, v: Value) -> Value {
    Value { ty: ns[v.ty as int].parent->Some_0, disc: v.disc, payload: v.payload }
}

/// What a downcast to node `t` returns: the same tag and payload viewed as
/// `t`'s union type when the tag is in `t`'s variant set, nothing otherwise.
pub open spec fn downcast_spec(ns: Seq<Node>, v: Value, t: usize) -> Option<Value> {
    if downcast_allows(ns, t as int, v.disc as int) {
        Some(Value { ty: t, disc: v.disc, payload: v.payload })
    } else {
        None
    }
}

impl RuntimeModel {
    /// The generated constructor of concrete node `node`: wraps the payload
    /// in the node's single-variant union, tagged with its discriminant.
    pub fn make(&self, node: usize, payload: Vec<u64>) -> (v: Value)
        requires
            self.wf(),
            (node as int) < self.n(),
            concrete(self.ns(), node as int),
        ensures
            v.ty == node,
            v.disc as nat == disc_of(self.ns(), node as int),
            v.payload == payload,
            v.wf(self.resolved),
    {
        proof {
            lemma_count_le(self.ns(), root_of(self.ns(), node as int), node as int);
            assert(self.resolved.disc@[node as int] == Some(
                disc_of(self.ns(), node as int) as usize,
            ));
        }
        let o = self.resolved.disc[node];
        let d = o.unwrap();
        let v = Value { ty: node, disc: d, payload };
        proof {
            assert(in_variant_set(self.ns(), node as int, node as int) && disc_of(
                self.ns(),
                node as int,
            ) == v.disc as int);
        }
        v
    }

    /// The generated upcast: a widening reinterpretation to the parent's
    /// union type. It never fails and needs no runtime check: every variant
    /// of the union is, by construction, a variant of the parent's union.
    pub fn upcast(&self, v: &Value) -> (r: Value)
        requires
            self.wf(),
            v.wf(self.resolved),
            self.ns()[v.ty as int].parent is Some,
        ensures
            r.obs_eq(upcast_spec(self.ns(), *v)),
            r.ty == self.ns()[v.ty as int].parent->Some_0,
            r.disc == v.disc,
            r.payload@ == v.payload@,
            r.wf(self.resolved),
    {
        let o = self.resolved.graph.nodes[v.ty].parent;
        let p = o.unwrap();
        let r = Value { ty: p, disc: v.disc, payload: copy_vec(&v.payload) };
        proof {
            lemma_membership_upward(self.ns(), v.ty as int, p as int, v.disc as int);
        }
        r
    }

    /// The generated checked downcast to node `t`'s union type: reads the
    /// tag and tests membership in `t`'s variant-set discriminants. It
    /// succeeds exactly when the tag belongs to a concrete descendant of
    /// `t` (or to `t` itself when `t` is concrete); `t` may be any type in
    /// the tree of the value's root type.
    pub fn downcast(&self, v: &Value, t: usize) -> (r: Option<Value>)
        requires
            self.wf(),
            v.wf(self.resolved),
            (t as int) < self.n(),
            root_of(self.ns(), t as int) == root_of(self.ns(), v.ty as int),
        ensures
            r is Some <==> downcast_allows(self.ns(), t as int, v.disc as int),
            r is Some ==> r->Some_0.obs_eq(downcast_spec(self.ns(), *v, t)->Some_0)
                && r->Some_0.wf(self.resolved),
            r is None <==> downcast_spec(self.ns(), *v, t) is None,
    {
        let mem = &self.nodes[t].membership;
        let ghost ms = mem@;
        let m_len = mem.len();
        let mut k: usize = 0;
        while k < m_len
            invariant
                self.wf(),
                v.wf(self.resolved),
                (t as int) < self.n(),
                ms == mem@,
                mem == &self.nodes@[t as int].membership,
                m_len == ms.len(),
                k <= m_len,
                forall|l: int| 0 <= l < k ==> ms[l] != v.disc,
            decreases m_len - k,
        {
            if mem[k] == v.disc {
                proof {
                    assert(ms.contains(v.disc));
                    assert(node_model_ok(self.resolved, t as int, self.nodes@[t as int]));
                }
                return Some(Value { ty: t, disc: v.disc, payload: copy_vec(&v.payload) });
            }
            k += 1;
        }
        proof {
            assert(!ms.contains(v.disc));
            assert(node_model_ok(self.resolved, t as int, self.nodes@[t as int]));
        }
        None
    }
}

/// Every generated abstract union has at least one variant: resolution
/// guarantees every abstract node an instantiable concrete descendant.
pub proof fn lemma_abstract_union_nonempty(m: RuntimeModel, i: int)
    requires
        m.wf(),
        0 <= i < m.n(),
        !concrete(m.ns(), i),
    ensures
        m.nodes@[i].variants@.len() > 0,
{
    let ns = m.ns();
    let n = m.n();
    assert(ns.len() <= usize::MAX) by {
        assert(ns.len() == m.resolved.graph.nodes.len());
    }
    lemma_find_leaf(ns, i);
    let k = choose|k: int|
        0 <= k < ns.len() && #[trigger] concrete(ns, k) && (k == i || is_ancestor(ns, i, k));
    assert(k != i);
    assert(desc_elem(ns, i, n, true, k as usize));
    assert(m.resolved.concrete_desc@[i]@.contains(k as usize));
    assert(node_model_ok(m.resolved, i, m.nodes@[i]));
}

/// The round-trip law: upcasting a value of concrete union type and
/// immediately downcasting to that original concrete type succeeds and
/// yields an observationally identical value. It holds for every concrete
/// node of every resolved forest.
pub proof fn lemma_upcast_downcast_roundtrip(res: Resolved, v: Value)
    requires
        res.wf(),
        v.wf(res),
        concrete(res.ns(), v.ty as int),
    ensures
        res.ns()[v.ty as int].parent is Some,
        downcast_spec(res.ns(), upcast_spec(res.ns(), v), v.ty) is Some,
        v.obs_eq(downcast_spec(res.ns(), upcast_spec(res.ns(), v), v.ty)->Some_0),
{
    lemma_concrete_has_parent(res, v.ty as int);
    let u = upcast_spec(res.ns(), v);
    assert(u.disc == v.disc);
    assert(downcast_allows(res.ns(), v.ty as int, u.disc as int));
}

/// Runs the whole pipeline on a raw schema: link the graph, check
/// acyclicity, resolve discriminants and descendant sets, and derive the
/// runtime model. Fails fast with the first stage's error; there is no
/// partial output.
pub fn compile(decls: &Vec<Decl>) -> (r: Result<RuntimeModel, SchemaError>)
    ensures
        r is Ok <==> (build_accepts(decls@) && (forall|ns: Seq<Node>|
            #[trigger] graph_matches(decls@, ns) ==> forest(ns) && resolve_accepts(ns))),
        r is Ok ==> r->Ok_0.wf() && graph_matches(decls@, r->Ok_0.ns()),
        r is Err && has_dup(decls@) ==> (exists|i: int|
            0 <= i < decls@.len() && #[trigger] dup_at(decls@, i) && (forall|k: int|
                0 <= k < i ==> !dup_at(decls@, k)) && r->Err_0
                == SchemaError::DuplicateName(decls@[i].name)),
        r is Err && !has_dup(decls@) && !build_accepts(decls@) ==> (exists|i: int|
            0 <= i < decls@.len() && #[trigger] unknown_at(decls@, i) && (forall|
                k: int,
            |
                0 <= k < i ==> !unknown_at(decls@, k)) && r->Err_0
                == SchemaError::UnknownParent(decls@[i].name, decls@[i].parent->Some_0)),
        r is Err && build_accepts(decls@) ==> (exists|ns: Seq<Node>|
            #[trigger] graph_matches(decls@, ns) && ((!forest(ns) && (exists|i: int|
                0 <= i < ns.len() && !#[trigger] reaches_root(ns, i, ns.len() as nat)
                    && r->Err_0 == SchemaError::CyclicInheritance(ns[i].name))) || (forest(ns) && (
            exists|i: int|
                0 <= i < ns.len() && #[trigger] root_fails(ns, i) && r->Err_0 == (if isolated(
                    ns,
                    i,
                ) {
                    SchemaError::IsolatedNode(ns[i].name)
                } else {
                    SchemaError::NoConcreteSubclass(ns[i].name)
                }))))),
{
    let g = match build(decls) {
        Ok(g) => g,
        Err(e) => {
            return Err(e);
        },
    };
    let ghost gns = g.nodes@;
    match check_acyclic(&g) {
        Ok(()) => (),
        Err(e) => {
            proof {
                assert(graph_matches(decls@, gns) && !forest(gns));
            }
            return Err(e);
        },
    }
    let res = match resolve(g) {
        Ok(res) => res,
        Err(e) => {
            proof {
                assert(graph_matches(decls@, gns) && forest(gns) && !resolve_accepts(gns));
            }
            return Err(e);
        },
    };
    proof {
        assert(graph_matches(decls@, gns) && forest(gns) && resolve_accepts(gns));
        assert forall|ns: Seq<Node>| #[trigger] graph_matches(decls@, ns) implies forest(ns)
            && resolve_accepts(ns) by {
            lemma_resolution_determined(decls@, ns, gns);
        }
    }
    Ok(build_model(res))
}

} // verus!
