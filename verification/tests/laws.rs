//! What holds of the library as a whole, on values of its own.

use rxeval::rules::secondary_instances;
use rxeval::{
    eval_str, parse, Binding, Clock, Fixed, Form, Instance, NodeId, Rules, Session, Value,
    ViolationKind,
};

fn env() -> Fixed {
    Fixed {
        today: "2026-08-14".into(),
        now: "2026-08-14T09:30:00.000-03:00".into(),
    }
}

fn clock() -> Clock {
    Clock {
        today: "2026-08-14".into(),
        now: "2026-08-14T09:30:00.000-03:00".into(),
    }
}

fn read(xml: &str) -> Instance {
    Instance::from_xml(xml).unwrap_or_else(|e| panic!("{xml}: {e}"))
}

fn nodes(expression: &str, instance: &Instance) -> Vec<NodeId> {
    match eval_str(expression, instance, &env()) {
        Ok(Value::NodeSet(nodes)) => nodes,
        other => panic!("{expression}: {other:?}"),
    }
}

fn truth(expression: &str, instance: &Instance) -> bool {
    eval_str(expression, instance, &env()).unwrap().to_boolean(instance)
}

fn calculated(path: &str, expression: &str) -> Binding {
    let mut b = Binding::new(path);
    b.calculate = Some(parse(expression).unwrap());
    b
}

fn constrained(path: &str, expression: &str) -> Binding {
    let mut b = Binding::new(path);
    b.constraint = Some(parse(expression).unwrap());
    b
}

const TREE: &str = r#"<data id="f"><a x="1" y="2">t<b/><c><d/></c></a><e/><f><g/></f></data>"#;

#[test]
fn a_document_lies_in_its_own_order() {
    let doc = read(TREE);
    assert_eq!(doc.root(), Some(NodeId(0)));
    for k in 0..doc.len() {
        let n = NodeId(k);
        assert_eq!(doc.document_order(n), k);
        assert_eq!(doc.parent(n).is_none(), k == 0);
        for held in doc.children(n).into_iter().chain(doc.attributes(n)) {
            assert_eq!(doc.parent(held), Some(n));
        }
        if let Some(p) = doc.parent(n) {
            let listed = doc.children(p).iter().filter(|c| **c == n).count()
                + doc.attributes(p).iter().filter(|c| **c == n).count();
            assert_eq!(listed, 1);
        }
    }
}

#[test]
fn an_attribute_is_its_own_text() {
    let doc = read(TREE);
    for k in 0..doc.len() {
        for a in doc.attributes(NodeId(k)) {
            assert_eq!(doc.string_value(a), doc.node(a).value);
        }
    }
    let a = doc.children(NodeId(0))[0];
    assert_eq!(doc.string_value(doc.attributes(a)[1]), "2");
}

#[test]
fn descendants_are_what_has_a_node_above_it() {
    let doc = read(TREE);
    for k in 0..doc.len() {
        let n = NodeId(k);
        let below = doc.descendants(n);
        let mut expected = Vec::new();
        for j in 0..doc.len() {
            let x = NodeId(j);
            let element = doc
                .parent(x)
                .map_or(true, |p| doc.children(p).contains(&x));
            if element && doc.ancestors(x).contains(&n) {
                expected.push(x);
            }
        }
        assert_eq!(below, expected);
    }
}

#[test]
fn five_axes_divide_a_document() {
    let doc = read(TREE);
    let elements = nodes("//* | /data", &doc);
    assert_eq!(elements.len(), 8);
    for n in &elements {
        let here = doc.address_of(*n);
        let mut times = vec![0; doc.len()];
        for axis in ["ancestor", "preceding", "self", "descendant", "following"] {
            let found = nodes(&format!("{here}/{axis}::*"), &doc);
            for x in &found {
                times[x.0] += 1;
                if axis == "preceding" {
                    assert!(doc.document_order(*x) < doc.document_order(*n));
                }
                if axis == "following" {
                    assert!(doc.document_order(*x) > doc.document_order(*n));
                }
            }
            assert!(found.windows(2).all(|w| w[0].0 < w[1].0), "{here} {axis}");
        }
        for x in &elements {
            assert_eq!(times[x.0], 1, "{here} to {}", doc.address_of(*x));
        }
    }
}

#[test]
fn nodes_are_found_in_document_order_and_once() {
    let doc = read(TREE);
    for expression in [
        "//g | //b | //* | /data/a",
        "//*/ancestor::*",
        "//*[1]/..",
        "/data/f/preceding::*",
        "if(true(), //d | //a, /data)",
    ] {
        let found = nodes(expression, &doc);
        assert!(!found.is_empty(), "{expression}");
        assert!(found.windows(2).all(|w| w[0].0 < w[1].0), "{expression}");
    }
}

#[test]
fn predicates_choose_in_turn() {
    let doc = read("<data><r><v>5</v></r><r><v>7</v></r><r><v>7</v></r><r><v>9</v></r></data>");
    let all = nodes("/data/r", &doc);
    assert_eq!(nodes("/data/r[v = 7]", &doc), vec![all[1], all[2]]);
    assert_eq!(nodes("/data/r[v = 7][2]", &doc), vec![all[2]]);
    assert_eq!(nodes("/data/r[2][v = 7]", &doc), vec![all[1]]);
    assert_eq!(nodes("/data/r[3]", &doc), vec![all[2]]);
    for none in ["/data/r[0]", "/data/r[5]", "/data/r[1.5]", "/data/r[-1]"] {
        assert_eq!(nodes(none, &doc), vec![], "{none}");
    }
}

#[test]
fn orderings_look_for_one_node() {
    let doc = read("<data><v>5</v><v>7</v><w>1</w><w>6</w><x>a</x></data>");
    assert!(truth("/data/v < 6", &doc));
    assert!(truth("/data/v > 6", &doc));
    assert!(truth("6 < /data/v", &doc));
    assert!(!truth("/data/v < 5", &doc));
    assert!(truth("/data/v <= 5", &doc));
    assert!(truth("/data/v >= 7", &doc));
    assert!(!truth("/data/v > 7", &doc));
    assert!(truth("/data/v < /data/w", &doc));
    assert!(truth("/data/v > /data/w", &doc));
    assert!(!truth("/data/w >= /data/v[2]", &doc));
    assert!(!truth("/data/none < 1", &doc));
    assert!(!truth("/data/none >= /data/v", &doc));
    assert!(!truth("/data/x < 1", &doc));
    assert!(!truth("/data/x >= 1", &doc));
}

#[test]
fn a_constraint_sees_derived_values() {
    let rules = Rules::new(vec![
        calculated("/data/t", "/data/a * 2"),
        constrained("/data/x", ". <= /data/t"),
    ])
    .unwrap();
    let found = rules.check(&read("<data><a>2</a><t>99</t><x>50</x></data>"), &env());
    assert_eq!(found.len(), 2);
    assert_eq!(found[0].node_path, "/data/t");
    assert_eq!(
        found[0].kind,
        ViolationKind::Calculation {
            stored: "99".into(),
            computed: "4".into()
        }
    );
    assert_eq!(found[1].node_path, "/data/x");
    assert_eq!(found[1].kind, ViolationKind::Constraint);
    let right = rules.check(&read("<data><a>2</a><t>4</t><x>3</x></data>"), &env());
    assert!(right.is_empty(), "{right:?}");
    let stale = rules.check(&read("<data><a>50</a><t/><x>50</x></data>"), &env());
    assert_eq!(stale.len(), 1);
    assert_eq!(stale[0].node_path, "/data/t");
}

#[test]
fn calculations_read_what_those_before_them_derived() {
    let rules = Rules::new(vec![
        calculated("/data/c", "/data/b + 1"),
        calculated("/data/b", "/data/a + 1"),
        constrained("/data/c", ". = 3"),
    ])
    .unwrap();
    let found = rules.check(&read("<data><a>1</a><b>9</b><c>10</c></data>"), &env());
    let said: Vec<(&str, &ViolationKind)> = found
        .iter()
        .map(|v| (v.node_path.as_str(), &v.kind))
        .collect();
    assert_eq!(
        said,
        vec![
            (
                "/data/b",
                &ViolationKind::Calculation {
                    stored: "9".into(),
                    computed: "2".into()
                }
            ),
            (
                "/data/c",
                &ViolationKind::Calculation {
                    stored: "10".into(),
                    computed: "3".into()
                }
            ),
        ]
    );
}

#[test]
fn a_question_that_is_not_asked_is_not_derived() {
    let mut hidden = calculated("/data/t", "7");
    hidden.relevant = Some(parse("false()").unwrap());
    let rules = Rules::new(vec![hidden, constrained("/data/x", ". != /data/t")]).unwrap();
    let found = rules.check(&read("<data><t>1</t><x>7</x></data>"), &env());
    assert!(found.is_empty(), "{found:?}");
    let found = rules.check(&read("<data><t>1</t><x>1</x></data>"), &env());
    assert_eq!(found.len(), 1);
    assert_eq!(found[0].kind, ViolationKind::Constraint);
}

#[test]
fn a_refused_circle_is_named() {
    let why = Rules::new(vec![
        calculated("/data/z", "1"),
        calculated("/data/a", "/data/b"),
        calculated("/data/b", "/data/c"),
        calculated("/data/c", "/data/a"),
    ])
    .unwrap_err();
    assert!(
        why.ends_with(": /data/a → /data/b → /data/c → /data/a"),
        "{why}"
    );
}

#[test]
fn tables_are_the_elements_with_an_id() {
    let form = r#"<h><m><instance><data id="f"><a/></data></instance>
        <instance id="x"><root><item><name>1</name></item></root></instance>
        <other id="y"><root/></other>
        <instance id="z"/></m></h>"#;
    let tables = secondary_instances(form).unwrap();
    assert_eq!(tables.keys(), vec!["x", "z"]);
    let x = tables.get("x").unwrap();
    assert_eq!(x.node(NodeId(0)).name, "instance");
    assert_eq!(x.string_value(NodeId(0)), "1");
    assert!(tables.get("y").is_none());
}

const FORM: &str = r#"<h:html><h:head><model>
    <instance><data id="f"><a/><t/><g><b/></g></data></instance>
    <bind nodeset="/data/t" calculate="/data/a * 2"/>
  </model></h:head><h:body/></h:html>"#;

#[test]
fn what_is_written_is_clean_and_reads_back() {
    let mut session = Session::new(FORM, clock()).unwrap();
    let odd = r#"<a href="x">&amp; '& ;</a>"#;
    session.set("/data/g/b", odd).unwrap();
    let xml = session.instance_xml();
    let start = xml.find("<b>").unwrap();
    let end = xml.find("</b>").unwrap();
    let written = &xml[start + 3..end];
    assert!(!written.contains(|c| c == '<' || c == '>' || c == '"'));
    for (i, _) in written.match_indices('&') {
        let rest = &written[i..];
        assert!(
            ["&amp;", "&lt;", "&gt;", "&quot;"]
                .iter()
                .any(|e| rest.starts_with(e)),
            "{rest}"
        );
    }
    // one element by itself is a document
    let element = read(&xml[start..end + 4]);
    assert_eq!(element.string_value(NodeId(0)), odd);
    let again = Session::resume(FORM, &xml, clock()).unwrap();
    for path in ["/data/a", "/data/t", "/data/g/b", "/data/g", "//b"] {
        assert_eq!(again.get(path), session.get(path), "{path}");
    }
}

#[test]
fn a_second_look_changes_nothing() {
    let mut session = Session::new(FORM, clock()).unwrap();
    session.set("/data/a", "4").unwrap();
    let first = session.recompute();
    assert_eq!(first.calculated.get("/data/t").map(String::as_str), Some("8"));
    let second = session.recompute();
    assert!(second.calculated.is_empty());
    assert_eq!(session.get("/data/t"), "8");
}

#[test]
fn text_where_none_is_read_is_refused() {
    let stray = "text stands where a document holds none: at the start of an element alone";
    for xml in [
        "<data>x<a/>y</data>",
        "<data><a/>y</data>",
        "x<data/>",
        "<data/>x",
        "<data><a>1</a>2</data>",
        "no tags here",
    ] {
        assert_eq!(Instance::from_xml(xml).unwrap_err(), stray, "{xml}");
    }
    for xml in [
        " <data>x<a/> \n</data>\n",
        "\u{feff}<data/>",
        "<?xml version='1.0' ?>\n<data/>",
        "<data>x</data>",
    ] {
        read(xml);
    }
}

#[test]
fn a_form_may_mix_text_and_elements() {
    let form = r#"<h:html><h:head><model>
        <instance><data id="f"><a/></data></instance>
        <bind nodeset="/data/a" required="true()"/>
      </model></h:head><h:body><input ref="/data/a">
        <label>Age of <output value="/data/a"/> in years</label>
      </input></h:body></h:html>"#;
    assert!(Form::parse(form).is_ok());
    assert_eq!(rxeval::check_form(form).map(|issues| issues.len()), Ok(0));
    assert!(Session::new(form, clock()).is_ok());
}

#[test]
fn a_new_element_comes_after_all_that_has_a_place() {
    let mut doc = read(TREE);
    let n = doc.create_element("new", "");
    assert_eq!(doc.document_order(n), usize::MAX);
    doc.append_child(NodeId(0), n);
    doc.reindex();
    assert_eq!(doc.document_order(n), doc.len() - 1);
}

#[test]
fn a_form_without_loose_text_is_read_as_any_document() {
    let mixed = format!("<h:html>{}behind</h:html>", "<a/>");
    assert!(Instance::from_xml(&mixed).is_err());
    // what is refused for another reason is refused in both
    let broken = "<h:html><a></h:html>";
    let said = Instance::from_xml(broken).unwrap_err();
    assert_eq!(
        Session::new(broken, clock()).unwrap_err(),
        format!("XForm XML: {said}")
    );
    let doc = read(FORM);
    assert_eq!(
        eval_str("//data/@id", &doc, &env()).unwrap().to_string_value(&doc),
        "f"
    );
    assert_eq!(Session::new(FORM, clock()).unwrap().get("/data/@id"), "f");
}

#[test]
fn nothing_is_said_of_a_node_that_is_not_there() {
    let mut b = Binding::new("/data/a");
    b.relevant = Some(parse("true()").unwrap());
    let rules = Rules::new(vec![b]).unwrap();
    let doc = read("<data><a/></data>");
    let mut problems = Vec::new();
    let relevance = rules.relevance(&doc, &env(), &mut problems);
    assert!(problems.is_empty());
    assert_eq!(relevance.get(nodes("/data/a", &doc)[0]), Some(true));
    assert_eq!(relevance.get(NodeId(2)), None);
    assert_eq!(relevance.get(NodeId(usize::MAX)), None);
}

#[test]
fn an_address_leads_to_its_node_and_to_no_other() {
    let doc = read(
        "<data><a/><r><x/></r><b><r/></b><r><x/><x/><y-2/></r><r><x/><x>1</x></r></data>",
    );
    for n in nodes("//*", &doc) {
        let address = doc.address_of(n);
        assert_eq!(nodes(&address, &doc), vec![n], "{address}");
    }
    let last = *nodes("//x", &doc).last().unwrap();
    assert_eq!(doc.address_of(last), "/data/r[3]/x[2]");
    // so what a session reports it can be asked about
    let xform = "<h:html><h:head><model><instance><data><r><n>1</n><t/></r><r><n>2</n><t/></r>\
        </data></instance><bind nodeset=\"/data/r/t\" calculate=\"../n * 10\"/></model>\
        </h:head><h:body/></h:html>";
    let mut session = Session::new(xform, clock()).unwrap();
    let outcome = session.recompute();
    assert_eq!(outcome.calculated.keys(), vec!["/data/r[1]/t", "/data/r[2]/t"]);
    for path in outcome.calculated.keys() {
        assert_eq!(session.get(path), outcome.calculated.get(path).unwrap().as_str());
    }
}
