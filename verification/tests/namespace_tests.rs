use sxd_document::{Error, Package, PrefixedName, QName};

const XML_NS: &str = "http://www.w3.org/XML/1998/namespace";

fn qn(local: &str) -> QName {
    QName::new(local.to_string())
}

#[test]
fn namespace_round_trip() {
    let mut package = Package::new();
    let root = package.root();
    let outer = package.create_element(&qn("outer"));
    package.append_child(root, outer).unwrap();
    let inner = package.create_element(&qn("inner"));
    package.append_child(outer, inner).unwrap();
    let other = package.create_element(&qn("other"));
    package.append_child(outer, other).unwrap();

    // a free preferred prefix is used as given and declared
    let p = package.resolve_prefix_for_write(outer, "urn:u", Some("p"));
    assert_eq!(p, "p");
    // a nested element with the same URI reuses it without redeclaring
    let p2 = package.resolve_prefix_for_write(inner, "urn:u", Some("q"));
    assert_eq!(p2, "p");
    // the same preferred prefix with a different URI gets a distinct,
    // autogenerated prefix
    let p3 = package.resolve_prefix_for_write(other, "urn:v", Some("p"));
    assert_ne!(p3, "p");
    // both prefixes resolve back to their URIs through the read direction
    assert_eq!(
        package.resolve_uri_for_prefix(inner, "p").as_deref(),
        Some("urn:u")
    );
    assert_eq!(
        package.resolve_uri_for_prefix(other, &p3).as_deref(),
        Some("urn:v")
    );
    assert_eq!(
        package.resolve_uri_for_prefix(other, "p").as_deref(),
        Some("urn:u")
    );
}

#[test]
fn default_prefix_can_be_requested() {
    let mut package = Package::new();
    let e = package.create_element(&qn("e"));
    let p = package.resolve_prefix_for_write(e, "urn:d", Some(""));
    assert_eq!(p, "");
    assert_eq!(
        package.resolve_uri_for_prefix(e, "").as_deref(),
        Some("urn:d")
    );
}

#[test]
fn resolution_is_deterministic_and_reuses() {
    let mut package = Package::new();
    let e = package.create_element(&qn("e"));
    let p1 = package.resolve_prefix_for_write(e, "urn:u", Some("p"));
    let p2 = package.resolve_prefix_for_write(e, "urn:u", Some("p"));
    let p3 = package.resolve_prefix_for_write(e, "urn:u", None);
    assert_eq!(p1, "p");
    assert_eq!(p2, "p");
    assert_eq!(p3, "p");
}

#[test]
fn nearest_declaration_wins() {
    let mut package = Package::new();
    let outer = package.create_element(&qn("outer"));
    let inner = package.create_element(&qn("inner"));
    package.append_child(outer, inner).unwrap();
    let po = package.resolve_prefix_for_write(outer, "urn:a", Some("p"));
    assert_eq!(po, "p");
    // shadow p at the inner element with a different URI: the preferred
    // prefix is taken, so a fresh one is synthesized there
    let pi = package.resolve_prefix_for_write(inner, "urn:b", Some("p"));
    assert_ne!(pi, "p");
    // outer still sees its own binding
    assert_eq!(
        package.resolve_uri_for_prefix(outer, "p").as_deref(),
        Some("urn:a")
    );
}

#[test]
fn xml_prefix_is_implicitly_bound() {
    let mut package = Package::new();
    let e = package.create_element(&qn("e"));
    assert_eq!(
        package.resolve_uri_for_prefix(e, "xml").as_deref(),
        Some(XML_NS)
    );
    // writing the XML namespace reuses the reserved prefix, declaring nothing
    let p = package.resolve_prefix_for_write(e, XML_NS, None);
    assert_eq!(p, "xml");
}

#[test]
fn undeclared_prefix_is_an_error() {
    let mut package = Package::new();
    let e = package.create_element(&qn("e"));
    let name = PrefixedName::with_prefix(Some("nope".to_string()), "local".to_string());
    assert!(matches!(
        package.resolve_prefixed_name(e, &name),
        Err(Error::UndeclaredPrefix)
    ));
    let bare = PrefixedName::new("local".to_string());
    let q = package.resolve_prefixed_name(e, &bare).unwrap();
    assert_eq!(q.namespace_uri(), None);
    assert_eq!(q.local_part(), "local");
}

#[test]
fn prefixed_name_resolves_through_scope() {
    let mut package = Package::new();
    let outer = package.create_element(&qn("outer"));
    let inner = package.create_element(&qn("inner"));
    package.append_child(outer, inner).unwrap();
    let p = package.resolve_prefix_for_write(outer, "urn:u", Some("ns"));
    assert_eq!(p, "ns");
    let name = PrefixedName::with_prefix(Some("ns".to_string()), "item".to_string());
    let q = package.resolve_prefixed_name(inner, &name).unwrap();
    assert_eq!(q.namespace_uri(), Some("urn:u"));
    assert_eq!(q.local_part(), "item");
}
