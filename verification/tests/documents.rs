//! Documents: reading, editing, order, addresses, and forms read from them.

use rxeval::rules::{from_xform, secondary_instances};
use rxeval::table::Table;
use rxeval::tree::NodeKind;
use rxeval::{Clock, Form, Instance};

fn read(xml: &str) -> Instance {
    Instance::from_xml(xml).unwrap()
}

#[test]
fn errors_say_what_is_wrong() {
    let why = |xml: &str| Instance::from_xml(xml).unwrap_err();
    assert_eq!(why("<a"), "unterminated tag");
    assert_eq!(why("</a>"), "closing tag without opening");
    assert_eq!(why("<a></b>"), "closing </b> does not match open <a>");
    assert_eq!(why("<a/><b/>"), "more than one root element");
    assert_eq!(why("<a><b/>"), "unclosed elements");
    assert_eq!(why("<?xml version='1.0'?>"), "no root element");
}

#[test]
fn what_is_neither_element_nor_text_is_rejected() {
    let nothing_else = "a document holds elements, attributes and text, and nothing else";
    for xml in [
        "<a><!-- b --></a>",
        "<a><![CDATA[b]]></a>",
        "<!DOCTYPE a><a/>",
        "<?php b ?><a/>",
        "<?xmlish ?><a/>",
        "<a><?xml version='1.0'?></a>",
    ] {
        assert_eq!(Instance::from_xml(xml).unwrap_err(), nothing_else, "{xml}");
    }
    // the declaration is no part of what a document holds
    assert!(Instance::from_xml("\n<?xml version=\"1.0\" encoding=\"UTF-8\"?>\n<a/>").is_ok());
}

#[test]
fn prefixes_are_dropped_and_attributes_are_nodes() {
    let doc = read(r#"<h:data xmlns:h="x" h:id='7' k = "v"><h:a b="1"/></h:data>"#);
    let root = doc.root().unwrap();
    assert_eq!(doc.node(root).name, "data");
    let names: Vec<String> = doc
        .attributes(root)
        .iter()
        .map(|a| doc.node(*a).name.clone())
        .collect();
    assert_eq!(names, vec!["h", "id", "k"]);
    let id = doc.attributes(root)[1];
    assert_eq!(doc.node(id).value, "7");
    assert_eq!(doc.node(id).kind, NodeKind::Attribute);
    assert_eq!(doc.parent(id), Some(root));
    assert_eq!(doc.path_of(doc.children(root)[0]), "/data/a");
}

#[test]
fn editing_keeps_document_order() {
    let mut doc = read("<data><r><x>1</x></r><z/></data>");
    let root = doc.root().unwrap();
    let first = doc.children(root)[0];
    let template = read("<r><x>2</x></r>");
    let copy = doc.adopt(&template, template.root().unwrap());
    doc.insert_after(first, copy);
    doc.reindex();
    let texts: Vec<String> = doc
        .descendants(root)
        .iter()
        .map(|n| doc.node(*n).name.clone() + &doc.node(*n).value)
        .collect();
    assert_eq!(texts, vec!["r", "x1", "r", "x2", "z"]);
    assert!(doc.document_order(copy) < doc.document_order(doc.children(root)[2]));
    assert_eq!(doc.string_value(root), "12");
    assert_eq!(doc.address_of(copy), "/data/r[2]");
    assert_eq!(doc.address_of(doc.children(copy)[0]), "/data/r[2]/x");
    assert_eq!(doc.path_of(copy), "/data/r");

    doc.detach(first);
    doc.reindex();
    assert_eq!(doc.children(root).len(), 2);
    assert_eq!(doc.parent(first), None);
    assert_eq!(doc.address_of(copy), "/data/r");
    assert_eq!(doc.ancestors(doc.children(copy)[0]), vec![copy, root]);
}

#[test]
fn a_copy_is_what_it_was_copied_from() {
    let source = read(r#"<a k="v">x<b><c>1</c><c/></b></a>"#);
    let mut copy = Instance::new();
    assert!(copy.is_empty());
    let root = copy.adopt(&source, source.root().unwrap());
    copy.set_root(root);
    assert_eq!(copy.len(), source.len());
    assert_eq!(copy.string_value(root), source.string_value(source.root().unwrap()));
    assert_eq!(copy.node(copy.attributes(root)[0]).value, "v");
}

#[test]
fn a_tree_can_be_built_by_hand() {
    let mut doc = Instance::new();
    let root = doc.create_element("data", "");
    let a = doc.create_element("a", "1");
    doc.append_child(root, a);
    doc.set_attribute(a, "k", "v");
    doc.set_root(root);
    doc.node_mut(a).value = "2".into();
    assert_eq!(doc.string_value(root), "2");
    assert_eq!(doc.len(), 3);
    assert_eq!(doc.path_of(doc.attributes(a)[0]), "/data/a/k");
}

#[test]
fn tables_are_found_by_their_id() {
    let doc = read(r#"<m><instance><d/></instance><instance id="t"><root/></instance></m>"#);
    let table = doc.instance_named("t").unwrap();
    assert_eq!(doc.node(doc.children(table)[0]).name, "root");
    assert_eq!(doc.instance_named("u"), None);
}

const CASCADE: &str = r#"<html><head><model>
  <instance><data id="f"><city/><lot/><label/></data></instance>
  <instance id="lots"><root>
    <item><name>1</name><city>x</city><label>one</label></item>
    <item><name>2</name><city>y</city><label>two</label></item>
  </root></instance>
  <instance id="extra"><root/></instance>
  <bind nodeset="/data/lot" constraint="instance('lots')/root/item[name = current-lot]/city = /data/city" />
  <bind nodeset="/data/label" calculate="instance('lots')/root/item[name = /data/lot]/label"/>
</model></head></html>"#;

#[test]
fn lookup_tables_come_with_the_form() {
    let form = Form::parse(CASCADE).unwrap();
    assert_eq!(form.secondary_instance_ids(), vec!["extra", "lots"]);
    let tables = secondary_instances(CASCADE).unwrap();
    assert_eq!(tables.keys(), vec!["extra", "lots"]);
    let submission =
        read("<data><city>y</city><lot>2</lot><label>one</label></data>");
    let clock = Clock {
        today: "2026-01-01".into(),
        now: "2026-01-01T00:00:00".into(),
    };
    let found = form.check(&submission, clock);
    let said: Vec<String> = found.iter().map(|v| v.describe()).collect();
    assert_eq!(
        said[0],
        "/data/label: holds \"one\", but the form calculates \"two\""
    );
    assert_eq!(found[0].node_path, "/data/label");
}

#[test]
fn a_form_says_which_bind_is_at_fault() {
    let why = |binds: &str| {
        from_xform(&format!("<m><instance><data/></instance>{binds}</m>")).unwrap_err()
    };
    assert_eq!(why(r#"<bind relevant="1"/>"#), "a <bind> has no nodeset");
    let said = why(r#"<bind ref="/data/x" relevant="1 +"/>"#);
    assert!(said.starts_with("relevant of /data/x: "), "{said}");
    assert!(said.ends_with("— in expression \"1 +\""), "{said}");
    let circle = why(
        r#"<bind nodeset="/data/a" calculate="/data/b"/>
           <bind nodeset="/data/b" calculate="/data/c"/>
           <bind nodeset="/data/c" calculate="/data/a"/>"#,
    );
    assert_eq!(
        circle,
        "these calculations depend on each other, so none of them has a defined value: \
         /data/a → /data/b → /data/c → /data/a"
    );
}

#[test]
fn a_table_keeps_its_keys_in_order() {
    let mut table: Table<usize> = Table::new();
    table.insert("b", 2);
    table.insert("a", 1);
    table.insert("é", 3);
    table.insert("b", 4);
    assert_eq!(table.keys(), vec!["a", "b", "é"]);
    assert_eq!(table.len(), 3);
    assert_eq!(table.get("b"), Some(&4));
    assert_eq!(table.get("c"), None);
    assert!(table.contains_key("a"));
    assert_eq!(table.key(2), "é");
    assert_eq!(*table.value(0), 1);
}
