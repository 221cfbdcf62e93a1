use enum_ident::model::{self, RuntimeModel};
use enum_ident::schema::{Decl, FieldDecl};

fn decl(name: &str, parent: Option<&str>) -> Decl {
    Decl {
        vis: String::from("pub"),
        name: String::from(name),
        parent: parent.map(String::from),
        fields: Vec::new(),
    }
}

/// The scenario forest: Shape <- Circle <- {CircleA, CircleB},
/// Shape <- Rect <- RectX <- RectY, Shape <- Triangle.
/// Indices: Shape 0, Circle 1, CircleA 2, CircleB 3, Rect 4, RectX 5,
/// RectY 6, Triangle 7.
fn shapes() -> RuntimeModel {
    let decls = vec![
        decl("Shape", None),
        decl("Circle", Some("Shape")),
        decl("CircleA", Some("Circle")),
        decl("CircleB", Some("Circle")),
        decl("Rect", Some("Shape")),
        decl("RectX", Some("Rect")),
        decl("RectY", Some("RectX")),
        decl("Triangle", Some("Shape")),
    ];
    match model::compile(&decls) {
        Ok(m) => m,
        Err(_) => panic!("scenario schema must resolve"),
    }
}

#[test]
fn discriminants_are_a_permutation() {
    let m = shapes();
    let leaves = [2usize, 3, 6, 7];
    let mut discs: Vec<usize> = leaves
        .iter()
        .map(|&i| m.resolved.disc[i].expect("leaf has a discriminant"))
        .collect();
    discs.sort();
    assert_eq!(discs, vec![0, 1, 2, 3]);
    for &i in &[0usize, 1, 4, 5] {
        assert!(m.resolved.disc[i].is_none());
    }
}

#[test]
fn discriminants_follow_declaration_order() {
    // The resolver ranks a tree's concrete leaves in declaration order.
    let m = shapes();
    assert_eq!(m.resolved.disc[2], Some(0)); // CircleA
    assert_eq!(m.resolved.disc[3], Some(1)); // CircleB
    assert_eq!(m.resolved.disc[6], Some(2)); // RectY
    assert_eq!(m.resolved.disc[7], Some(3)); // Triangle
    assert_eq!(m.nodes[0].record.vis, "pub");
    for i in 0..8 {
        assert_eq!(m.resolved.root[i], 0);
    }
}

#[test]
fn discriminants_restart_per_tree() {
    let decls = vec![
        decl("R1", None),
        decl("L1", Some("R1")),
        decl("R2", None),
        decl("L2", Some("R2")),
    ];
    let m = match model::compile(&decls) {
        Ok(m) => m,
        Err(_) => panic!("schema must resolve"),
    };
    assert_eq!(m.resolved.disc[1], Some(0));
    assert_eq!(m.resolved.disc[3], Some(0));
}

#[test]
fn generic_circle_variant_set() {
    let m = shapes();
    let circle = &m.nodes[1];
    assert_eq!(circle.union_name, "GenericCircle");
    let names: Vec<&str> = circle.variants.iter().map(|v| v.name.as_str()).collect();
    assert_eq!(names, vec!["CircleA", "CircleB"]);
}

#[test]
fn concrete_descendants_union_of_children() {
    let m = shapes();
    // Shape's children are Circle, Rect and Triangle; its concrete
    // descendants are its concrete child plus the children's own sets.
    let shape_cd = &m.resolved.concrete_desc[0];
    assert_eq!(shape_cd, &vec![2usize, 3, 6, 7]);
    let mut union: Vec<usize> = Vec::new();
    union.extend(m.resolved.concrete_desc[1].iter()); // Circle's set
    union.extend(m.resolved.concrete_desc[4].iter()); // Rect's set
    union.push(7); // Triangle, a concrete child of Shape
    union.sort();
    assert_eq!(&union, shape_cd);
}

#[test]
fn abstract_descendants() {
    let m = shapes();
    assert_eq!(m.resolved.abstract_desc[0], vec![1usize, 4, 5]);
    assert_eq!(m.resolved.abstract_desc[4], vec![5usize]);
    assert!(m.resolved.abstract_desc[1].is_empty());
}

#[test]
fn children_are_derived_from_parents() {
    let m = shapes();
    assert_eq!(m.resolved.graph.children_of(0), vec![1usize, 4, 7]);
    assert_eq!(m.resolved.graph.children_of(1), vec![2usize, 3]);
    assert!(m.resolved.graph.children_of(2).is_empty());
    assert!(m.resolved.graph.is_concrete(2));
    assert!(!m.resolved.graph.is_concrete(0));
}

#[test]
fn union_names_and_records() {
    let m = shapes();
    assert_eq!(m.nodes[0].union_name, "GenericShape");
    assert_eq!(m.nodes[2].union_name, "CircleACircle");
    assert_eq!(m.nodes[6].union_name, "RectYRectX");
    assert_eq!(m.nodes[1].record.name, "Circle");
    assert_eq!(m.nodes[1].record.base.as_deref(), Some("Shape"));
    assert_eq!(m.nodes[0].record.base, None);
    assert_eq!(m.nodes[0].parent, None);
    assert_eq!(m.nodes[2].parent, Some(1));
}

#[test]
fn fields_pass_through() {
    let decls = vec![
        decl("Base", None),
        Decl {
            vis: String::from("pub"),
            name: String::from("Leaf"),
            parent: Some(String::from("Base")),
            fields: vec![FieldDecl {
                name: String::from("radius"),
                ty: String::from("u32"),
                vis: String::from("pub"),
            }],
        },
    ];
    let m = match model::compile(&decls) {
        Ok(m) => m,
        Err(_) => panic!("schema must resolve"),
    };
    assert_eq!(m.nodes[1].record.fields.len(), 1);
    assert_eq!(m.nodes[1].record.fields[0].name, "radius");
    assert_eq!(m.nodes[1].record.fields[0].ty, "u32");
}

#[test]
fn downcast_succeeds_iff_member() {
    let m = shapes();
    // A CircleA-tagged value viewed as GenericShape.
    let circle_a = m.make(2, vec![11, 22]);
    let as_circle = m.upcast(&circle_a);
    assert_eq!(as_circle.ty, 1);
    let as_shape = m.upcast(&as_circle);
    assert_eq!(as_shape.ty, 0);

    // GenericShape.downcast::<GenericCircle>() succeeds for CircleA.
    let back = m.downcast(&as_shape, 1);
    assert!(back.is_some());
    // ... and fails for a Triangle-tagged value.
    let triangle = m.make(7, vec![5]);
    let tri_shape = m.upcast(&triangle);
    assert!(m.downcast(&tri_shape, 1).is_none());

    // GenericShape.downcast::<Triangle>() fails for a RectY-tagged value.
    let rect_y = m.make(6, vec![9]);
    let ry_shape = m.upcast(&m.upcast(&m.upcast(&rect_y)));
    assert_eq!(ry_shape.ty, 0);
    assert!(m.downcast(&ry_shape, 7).is_none());
    // ... and succeeds for the Triangle-tagged value itself.
    assert!(m.downcast(&tri_shape, 7).is_some());
}

#[test]
fn downcast_to_sibling_subtree_fails() {
    let m = shapes();
    let circle_a = m.make(2, vec![1]);
    let as_shape = m.upcast(&m.upcast(&circle_a));
    // GenericShape.downcast::<GenericRect>() fails for a CircleA-tagged value.
    assert!(m.downcast(&as_shape, 4).is_none());
    // ... and succeeds for a RectY-tagged one.
    let rect_y = m.make(6, vec![2]);
    let ry_shape = m.upcast(&m.upcast(&m.upcast(&rect_y)));
    let as_rect = match m.downcast(&ry_shape, 4) {
        Some(v) => v,
        None => panic!("RectY is a Rect"),
    };
    assert_eq!(as_rect.ty, 4);
    assert_eq!(as_rect.disc, rect_y.disc);
}

#[test]
fn mutation_through_matched_view_keeps_tag() {
    let m = shapes();
    let v = m.make(2, vec![10, 20]);
    let up = m.upcast(&v);
    let mut back = match m.downcast(&up, 2) {
        Some(b) => b,
        None => panic!("round trip must succeed"),
    };
    back.set_payload(1, 99);
    assert_eq!(back.payload, vec![10, 99]);
    assert_eq!(back.disc, v.disc);
    assert_eq!(back.ty, 2);
}

#[test]
fn upcast_downcast_round_trip() {
    let m = shapes();
    for &leaf in &[2usize, 3, 6, 7] {
        let v = m.make(leaf, vec![1, 2, 3]);
        let up = m.upcast(&v);
        let back = match m.downcast(&up, leaf) {
            Some(b) => b,
            None => panic!("round trip must succeed"),
        };
        assert_eq!(back.ty, v.ty);
        assert_eq!(back.disc, v.disc);
        assert_eq!(back.payload, v.payload);
    }
}

#[test]
fn membership_sets_match_descendant_discriminants() {
    let m = shapes();
    // GenericShape accepts every discriminant of the tree.
    let mut shape_mem = m.nodes[0].membership.clone();
    shape_mem.sort();
    assert_eq!(shape_mem, vec![0, 1, 2, 3]);
    // GenericCircle accepts exactly its two leaves' discriminants.
    let circle_mem = &m.nodes[1].membership;
    let d_a = m.resolved.disc[2].unwrap();
    let d_b = m.resolved.disc[3].unwrap();
    assert_eq!(circle_mem, &vec![d_a, d_b]);
    // A concrete node accepts exactly its own discriminant.
    assert_eq!(m.nodes[7].membership, vec![m.resolved.disc[7].unwrap()]);
}
