//! What a document becomes.

use rxeval::Instance;

#[test]
fn builds_a_tree_with_paths_and_order() {
    let instance =
        Instance::from_xml(r#"<data id="f"><a>1</a><g><b>2</b></g><a>3</a></data>"#).unwrap();
    let root = instance.root().unwrap();
    assert_eq!(instance.node(root).name, "data");
    assert_eq!(instance.attributes(root).len(), 1);

    let children = instance.children(root);
    assert_eq!(children.len(), 3);
    assert_eq!(instance.string_value(children[0]), "1");
    assert_eq!(instance.path_of(children[2]), "/data/a");

    let b = instance.children(children[1])[0];
    assert_eq!(instance.path_of(b), "/data/g/b");
    // document order follows the document, not the arena
    assert!(instance.document_order(children[0]) < instance.document_order(b));
    assert!(instance.document_order(b) < instance.document_order(children[2]));
}

#[test]
fn entities_and_self_closing_tags() {
    let instance = Instance::from_xml(r#"<data><a>x &amp; y</a><b/><c>z</c></data>"#).unwrap();
    let children = instance.children(instance.root().unwrap());
    assert_eq!(instance.string_value(children[0]), "x & y");
    assert_eq!(instance.string_value(children[1]), "");
    assert_eq!(instance.string_value(children[2]), "z");
}

#[test]
fn a_greater_than_inside_an_attribute_is_not_the_end_of_the_tag() {
    // Legal XML, and what every numeric constraint looks like. Scanning
    // for the first '>' cuts the tag in half and the parse fails on the
    // next closing tag, a long way from the cause.
    let instance =
        Instance::from_xml(r#"<data note="a > b and c &lt; d"><x>1</x></data>"#).unwrap();
    let root = instance.root().unwrap();
    assert_eq!(
        instance
            .attributes(root)
            .iter()
            .map(|a| instance.node(*a).value.clone())
            .collect::<Vec<_>>(),
        vec!["a > b and c < d"]
    );
    assert_eq!(instance.children(root).len(), 1);
}

#[test]
fn a_broken_document_is_an_error_not_a_shrug() {
    assert!(Instance::from_xml("<data><a></b></data>").is_err());
    assert!(Instance::from_xml("<data><a>").is_err());
    assert!(Instance::from_xml("no tags here").is_err());
}
