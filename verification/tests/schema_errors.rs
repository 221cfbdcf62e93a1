use enum_ident::model;
use enum_ident::schema::{Decl, SchemaError};

fn decl(name: &str, parent: Option<&str>) -> Decl {
    Decl {
        vis: String::from("pub"),
        name: String::from(name),
        parent: parent.map(String::from),
        fields: Vec::new(),
    }
}

#[test]
fn duplicate_name_fails() {
    let decls = vec![decl("A", None), decl("A", None)];
    match model::compile(&decls) {
        Err(SchemaError::DuplicateName(n)) => assert_eq!(n, "A"),
        _ => panic!("expected DuplicateName"),
    }
}

#[test]
fn duplicate_name_fails_before_any_resolution() {
    // The same schema also holds a parent cycle; the duplicate is reported
    // first, before any resolution step runs.
    let decls = vec![
        decl("B", Some("C")),
        decl("C", Some("B")),
        decl("A", None),
        decl("A", None),
    ];
    match model::compile(&decls) {
        Err(SchemaError::DuplicateName(n)) => assert_eq!(n, "A"),
        _ => panic!("expected DuplicateName"),
    }
}

#[test]
fn unknown_parent_fails() {
    let decls = vec![decl("B", Some("C"))];
    match model::compile(&decls) {
        Err(SchemaError::UnknownParent(child, parent)) => {
            assert_eq!(child, "B");
            assert_eq!(parent, "C");
        },
        _ => panic!("expected UnknownParent"),
    }
}

#[test]
fn cyclic_inheritance_fails() {
    let decls = vec![decl("B", Some("C")), decl("C", Some("B"))];
    match model::compile(&decls) {
        Err(SchemaError::CyclicInheritance(n)) => {
            assert!(n == "B" || n == "C");
        },
        _ => panic!("expected CyclicInheritance"),
    }
}

#[test]
fn self_parent_fails_as_cycle() {
    let decls = vec![decl("A", Some("A"))];
    match model::compile(&decls) {
        Err(SchemaError::CyclicInheritance(n)) => assert_eq!(n, "A"),
        _ => panic!("expected CyclicInheritance"),
    }
}

#[test]
fn isolated_node_fails() {
    // A node with zero children and zero parent cannot take part in any
    // tagged union.
    let decls = vec![decl("A", None)];
    match model::compile(&decls) {
        Err(SchemaError::IsolatedNode(n)) => assert_eq!(n, "A"),
        _ => panic!("expected IsolatedNode"),
    }
}

#[test]
fn isolated_node_fails_among_valid_trees() {
    let decls = vec![decl("Shape", None), decl("Circle", Some("Shape")), decl("Lone", None)];
    match model::compile(&decls) {
        Err(SchemaError::IsolatedNode(n)) => assert_eq!(n, "Lone"),
        _ => panic!("expected IsolatedNode"),
    }
}

#[test]
fn error_aborts_whole_compilation() {
    // No partial output: a failing schema yields an error, never a model.
    let decls = vec![decl("Root", None), decl("Leaf", Some("Root")), decl("Leaf", Some("Root"))];
    assert!(model::compile(&decls).is_err());
}
