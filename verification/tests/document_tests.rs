use sxd_document::{Error, NodeKind, Package, PrefixedName, QName};

fn qn(local: &str) -> QName {
    QName::new(local.to_string())
}

#[test]
fn end_to_end_scenario() {
    let mut package = Package::new();
    let root = package.root();
    let hello = package.create_element(&qn("hello"));
    package.set_attribute_value(hello, &qn("planet"), "Earth");
    let comment = package.create_comment("What about other planets?");
    let text = package.create_text("Greetings, Earthlings!");
    package.append_child(hello, comment).unwrap();
    package.append_child(hello, text).unwrap();
    package.append_child(root, hello).unwrap();

    assert_eq!(package.children(root), vec![hello]);
    assert_eq!(package.children(hello), vec![comment, text]);
    assert_eq!(package.attribute_value(hello, &qn("planet")), Some("Earth"));
}

#[test]
fn order_preservation() {
    let mut package = Package::new();
    let p = package.create_element(&qn("p"));
    let c1 = package.create_element(&qn("c1"));
    let c2 = package.create_element(&qn("c2"));
    let c3 = package.create_element(&qn("c3"));
    let c4 = package.create_element(&qn("c4"));
    package.append_child(p, c1).unwrap();
    package.append_child(p, c2).unwrap();
    package.append_child(p, c3).unwrap();
    assert_eq!(package.children(p), vec![c1, c2, c3]);
    package.insert_before(p, c4, c2).unwrap();
    assert_eq!(package.children(p), vec![c1, c4, c2, c3]);
}

#[test]
fn attribute_replace_semantics() {
    let mut package = Package::new();
    let e = package.create_element(&qn("e"));
    let a1 = package.set_attribute_value(e, &qn("id"), "a");
    let a2 = package.set_attribute_value(e, &qn("id"), "b");
    assert_eq!(a1, a2);
    assert_eq!(package.attributes(e).len(), 1);
    assert_eq!(package.attribute_value(e, &qn("id")), Some("b"));
    assert_eq!(package.attribute_name(a1).local_part(), "id");
    assert_eq!(package.attribute_value_of(a1), "b");
}

#[test]
fn detach_and_reattach() {
    let mut package = Package::new();
    let p1 = package.create_element(&qn("p1"));
    let p2 = package.create_element(&qn("p2"));
    let c = package.create_text("moving");
    package.append_child(p1, c).unwrap();
    package.remove_child(p1, c).unwrap();
    assert_eq!(package.parent(c), None);
    package.append_child(p2, c).unwrap();
    assert_eq!(package.parent(c), Some(p2));
    assert!(!package.children(p1).contains(&c));
    assert_eq!(package.children(p2), vec![c]);
}

#[test]
fn reattach_implicitly_detaches() {
    let mut package = Package::new();
    let p1 = package.create_element(&qn("p1"));
    let p2 = package.create_element(&qn("p2"));
    let c = package.create_comment("shared");
    package.append_child(p1, c).unwrap();
    package.append_child(p2, c).unwrap();
    assert!(package.children(p1).is_empty());
    assert_eq!(package.children(p2), vec![c]);
    assert_eq!(package.parent(c), Some(p2));
}

#[test]
fn root_cannot_be_a_child() {
    let mut package = Package::new();
    let root = package.root();
    let e = package.create_element(&qn("e"));
    assert_eq!(package.append_child(e, root), Err(Error::StructuralViolation));
}

#[test]
fn cycles_are_refused() {
    let mut package = Package::new();
    let a = package.create_element(&qn("a"));
    let b = package.create_element(&qn("b"));
    let c = package.create_element(&qn("c"));
    package.append_child(a, b).unwrap();
    package.append_child(b, c).unwrap();
    assert_eq!(package.append_child(c, a), Err(Error::StructuralViolation));
    assert_eq!(package.append_child(a, a), Err(Error::StructuralViolation));
    // nothing changed
    assert_eq!(package.children(a), vec![b]);
    assert_eq!(package.children(b), vec![c]);
}

#[test]
fn remove_child_demands_the_right_parent() {
    let mut package = Package::new();
    let p1 = package.create_element(&qn("p1"));
    let p2 = package.create_element(&qn("p2"));
    let c = package.create_text("t");
    package.append_child(p1, c).unwrap();
    assert_eq!(package.remove_child(p2, c), Err(Error::StructuralViolation));
    assert_eq!(package.parent(c), Some(p1));
}

#[test]
fn insert_before_demands_a_present_reference() {
    let mut package = Package::new();
    let p = package.create_element(&qn("p"));
    let c = package.create_text("c");
    let stranger = package.create_text("s");
    assert_eq!(
        package.insert_before(p, c, stranger),
        Err(Error::StructuralViolation)
    );
    assert_eq!(
        package.insert_before(p, c, c),
        Err(Error::StructuralViolation)
    );
}

#[test]
fn kinds_and_values() {
    let mut package = Package::new();
    let root = package.root();
    let e = package.create_element(&qn("e"));
    let t = package.create_text("text body");
    let c = package.create_comment("a comment");
    let pi = package.create_processing_instruction("target", "data");
    assert_eq!(package.kind(root), NodeKind::Root);
    assert_eq!(package.kind(e), NodeKind::Element);
    assert_eq!(package.kind(t), NodeKind::Text);
    assert_eq!(package.kind(c), NodeKind::Comment);
    assert_eq!(package.kind(pi), NodeKind::ProcessingInstruction);
    assert_eq!(package.text_value(t), "text body");
    assert_eq!(package.comment_value(c), "a comment");
    assert_eq!(package.processing_instruction_target(pi), "target");
    assert_eq!(package.processing_instruction_value(pi), "data");
    assert_eq!(package.element_name(e).local_part(), "e");
    assert_eq!(package.element_name(e).namespace_uri(), None);
}

#[test]
fn namespaced_element_names() {
    let mut package = Package::new();
    let name = QName::with_namespace_uri(Some("urn:x".to_string()), "n".to_string());
    let e = package.create_element(&name);
    let back = package.element_name(e);
    assert_eq!(back.namespace_uri(), Some("urn:x"));
    assert_eq!(back.local_part(), "n");
}

#[test]
fn preferred_prefix_is_stored() {
    let mut package = Package::new();
    let e = package.create_element(&qn("e"));
    assert_eq!(package.preferred_prefix(e), None);
    package.set_preferred_prefix(e, Some("ns"));
    assert_eq!(package.preferred_prefix(e), Some("ns"));
    package.set_preferred_prefix(e, None);
    assert_eq!(package.preferred_prefix(e), None);
}

#[test]
fn document_facade_queries() {
    let mut package = Package::new();
    let root = package.root();
    let e = package.create_element(&qn("e"));
    package.set_attribute_value(e, &qn("k"), "v");
    package.append_child(root, e).unwrap();
    let doc = package.as_document();
    assert_eq!(doc.root(), root);
    assert_eq!(doc.kind(e), NodeKind::Element);
    assert_eq!(doc.parent(e), Some(root));
    assert_eq!(doc.children(root), vec![e]);
    assert_eq!(doc.attributes(e).len(), 1);
    assert_eq!(doc.attribute_value(e, &qn("k")), Some("v"));
}

#[test]
fn thin_document_exposes_both_halves() {
    let mut package = Package::new();
    let _e = package.create_element(&qn("e"));
    let (storage, connections) = package.as_thin_document();
    assert_eq!(storage.kind(0), NodeKind::Root);
    assert_eq!(storage.node_count(), 2);
    assert_eq!(connections.parent_of(1), None);
}

#[test]
fn prefixed_and_qualified_names() {
    let pn = PrefixedName::new("local".to_string());
    assert_eq!(pn.prefix(), None);
    assert_eq!(pn.local_part(), "local");
    let pn2 = PrefixedName::with_prefix(Some("ns".to_string()), "local".to_string());
    assert_eq!(pn2.prefix(), Some("ns"));
    assert_eq!(pn2.local_part(), "local");
    let q = QName::new("a".to_string());
    assert_eq!(q.namespace_uri(), None);
    assert_eq!(q.local_part(), "a");
    let q2 = QName::with_namespace_uri(Some("urn:b".to_string()), "a".to_string());
    assert_eq!(q2.namespace_uri(), Some("urn:b"));
    assert_eq!(q2.local_part(), "a");
}
