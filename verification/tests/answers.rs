//! Answers, one at a time, and what a session refuses.

use rxeval::{Clock, Session, ViolationKind};

fn clock() -> Clock {
    Clock {
        today: "2026-08-14".into(),
        now: "2026-08-14T09:00:00.000-03:00".into(),
    }
}

fn form(instance: &str, binds: &str) -> String {
    format!(
        "<html><head><model><instance>{instance}</instance>{binds}</model></head><body/></html>"
    )
}

fn simple() -> Session {
    let xform = form(
        "<data><a/><b>old</b></data>",
        r#"<bind nodeset="/data/a" type="string"/>"#,
    );
    Session::new(&xform, clock()).unwrap()
}

#[test]
fn an_answer_reads_back_and_leaves_the_others() {
    let mut session = simple();
    session.set("/data/a", "one & two").unwrap();
    assert_eq!(session.get("/data/a"), "one & two");
    assert_eq!(session.get("/data/b"), "old");
    session.set("/data/b", "").unwrap();
    assert_eq!(session.get("/data/b"), "");
    assert_eq!(session.get("/data/a"), "one & two");
}

#[test]
fn a_path_the_form_left_out_is_made() {
    let mut session = simple();
    assert_eq!(session.get("/data/group/inner/leaf"), "");
    session.set("/data/group/inner/leaf", "x").unwrap();
    assert_eq!(session.get("/data/group/inner/leaf"), "x");
    session.set("/data/group/other", "y").unwrap();
    assert_eq!(
        session.instance_xml(),
        "<?xml version='1.0' ?><data><a/><b>old</b><group><inner><leaf>x</leaf></inner>\
         <other>y</other></group></data>"
    );
}

#[test]
fn a_path_that_names_nothing_is_refused() {
    let mut session = simple();
    assert_eq!(
        session.set("//", "x"),
        Err("'//' names nothing".to_string())
    );
    assert_eq!(
        session.set("/data/row[3]/x", "1"),
        Err(
            "'/data/row[3]/x' points at row[3], which does not exist — add the row first with \
             add_row()"
                .to_string()
        )
    );
}

#[test]
fn a_form_that_cannot_be_filled_says_why() {
    let bind = r#"<bind nodeset="/data/a"/>"#;
    let why = |xform: &str| Session::new(xform, clock()).unwrap_err();
    assert_eq!(
        why("<html><head>"),
        "XForm XML: unclosed elements"
    );
    assert_eq!(
        why(&format!("<html>{bind}</html>")),
        "the XForm has no primary instance"
    );
    assert_eq!(
        why(&format!("<html><instance/>{bind}</html>")),
        "the XForm's primary instance is empty"
    );
    assert_eq!(
        why("<html><instance><data/></instance></html>"),
        "the XForm declares no binds, so it carries no rules"
    );
    let xform = form("<data><a/></data>", bind);
    assert_eq!(
        Session::resume(&xform, "<data><a></data>", clock()).unwrap_err(),
        "saved instance: closing </data> does not match open <a>"
    );
}

#[test]
fn a_broken_rule_is_kept_apart_from_a_wrong_answer() {
    let xform = form(
        "<data><a>5</a><b/></data>",
        r#"<bind nodeset="/data/a" constraint="pulldata('x') = 1"/>
           <bind nodeset="/data/b" relevant="uuid() = 'x'" calculate="digest('x')"/>"#,
    );
    let mut session = Session::new(&xform, clock()).unwrap();
    let outcome = session.recompute();
    assert!(outcome.invalid.is_empty());
    let paths: Vec<&str> = outcome.failed.iter().map(|(p, _)| p.as_str()).collect();
    assert_eq!(
        paths,
        vec!["/data/b", "/data/b", "/data/b", "/data/b", "/data/a"]
    );
    let found = session.check_all();
    assert!(found
        .iter()
        .all(|v| matches!(v.kind, ViolationKind::Failed(_))));
    assert_eq!(found.len(), 3);
}

#[test]
fn a_rejected_answer_without_a_message_gets_one() {
    let xform = form(
        "<data><a>5</a></data>",
        r#"<bind nodeset="/data/a" constraint=". &gt; 9"/>"#,
    );
    let mut session = Session::new(&xform, clock()).unwrap();
    assert_eq!(
        session.recompute().invalid,
        vec![("/data/a".to_string(), "this answer is not allowed".to_string())]
    );
    assert_eq!(
        session.check_all()[0].describe(),
        "/data/a: the answer does not satisfy the form's constraint"
    );
}

#[test]
fn the_clock_is_the_sessions() {
    let xform = form(
        "<data><a/><b/></data>",
        r#"<bind nodeset="/data/a" calculate="today()"/>
           <bind nodeset="/data/b" calculate="now()"/>"#,
    );
    let mut session = Session::new(&xform, clock()).unwrap();
    session.recompute();
    assert_eq!(session.get("/data/a"), "2026-08-14");
    assert_eq!(session.get("/data/b"), "2026-08-14T09:00:00.000-03:00");
}

#[test]
fn every_character_survives_being_sent() {
    let xform = form(
        r#"<data note="a &quot;b&quot; &lt;c&gt; &amp;amp;"><a/></data>"#,
        r#"<bind nodeset="/data/a"/>"#,
    );
    let mut session = Session::new(&xform, clock()).unwrap();
    let answer = "<&>\"' &lt; &amp;lt; — ç\n\t]]>";
    session.set("/data/a", answer).unwrap();
    let sent = session.instance_xml();
    let again = Session::resume(&xform, &sent, clock()).unwrap();
    assert_eq!(again.get("/data/a"), answer);
    assert_eq!(again.get("/data/@note"), "a \"b\" <c> &amp;");
    assert_eq!(again.instance_xml(), sent);
}

#[test]
fn a_value_left_in_a_question_nobody_was_asked_is_reported_before_sending() {
    let xform = form(
        "<data><ask>no</ask><a>5</a><b>3</b><c/></data>",
        r#"<bind nodeset="/data/a" relevant="/data/ask = 'yes'" constraint=". &gt; 9"/>
           <bind nodeset="/data/b" relevant="/data/ask = 'yes'" calculate="4"/>
           <bind nodeset="/data/c" relevant="/data/ask = 'yes'" required="true()"
                 calculate="1" constraint="false()"/>"#,
    );
    let mut session = Session::new(&xform, clock()).unwrap();
    // while filling, what nobody is asked is not reported
    let outcome = session.recompute();
    assert!(outcome.invalid.is_empty());
    assert!(outcome.missing.is_empty());

    let mut session = Session::new(&xform, clock()).unwrap();
    let found: Vec<String> = session.check_all().iter().map(|v| v.describe()).collect();
    assert_eq!(
        found,
        vec![
            "/data/a: the answer does not satisfy the form's constraint",
            "/data/b: holds \"3\", but the form calculates \"4\"",
        ]
    );
    // asked, the same values are ordinary findings
    session.set("/data/ask", "yes").unwrap();
    let kinds: Vec<&str> = session.check_all().iter().map(|v| v.kind.label()).collect();
    assert_eq!(kinds, vec!["calculation", "calculation", "constraint", "required"]);
}

#[test]
fn what_stands_in_a_group_that_is_not_asked_is_not_asked() {
    let xform = form(
        "<data><ask>no</ask><g><a/><deep><b/></deep></g><c/></data>",
        r#"<bind nodeset="/data/g" relevant="/data/ask = 'yes'"/>
           <bind nodeset="/data/g/a" required="true()"/>
           <bind nodeset="/data/c" required="true()"/>"#,
    );
    let mut session = Session::new(&xform, clock()).unwrap();
    let outcome = session.recompute();
    assert_eq!(
        outcome.relevant.keys(),
        vec!["/data/g", "/data/g/a", "/data/g/deep", "/data/g/deep/b"]
    );
    assert_eq!(outcome.relevant.get("/data/g/deep/b"), Some(&false));
    // what is missing from the map is always asked
    assert_eq!(outcome.relevant.get("/data/c"), None);
    assert_eq!(outcome.missing, vec!["/data/c"]);
    session.set("/data/ask", "yes").unwrap();
    let outcome = session.recompute();
    assert_eq!(outcome.relevant.get("/data/g/deep/b"), Some(&true));
    assert_eq!(outcome.missing, vec!["/data/g/a", "/data/c"]);
}

#[test]
fn calculations_settle_in_one_pass_whatever_order_they_are_listed_in() {
    let xform = form(
        "<data><c/><b/><a/><r><x/><y/></r><r><x/><y/></r></data>",
        r#"<bind nodeset="/data/c" calculate="/data/b * 2"/>
           <bind nodeset="/data/b" calculate="/data/a + count(/data/r)"/>
           <bind nodeset="/data/a" calculate="3"/>
           <bind nodeset="/data/r/y" calculate="../x + 1"/>
           <bind nodeset="/data/r/x" calculate="/data/c"/>"#,
    );
    let mut session = Session::new(&xform, clock()).unwrap();
    session.recompute();
    assert_eq!(session.get("/data/c"), "10");
    assert_eq!(session.get("/data/r[2]/y"), "11");
    // what has settled does not move again, and agrees with the form
    assert!(session.recompute().calculated.is_empty());
    assert!(session.check_all().is_empty());
}

#[test]
fn an_answer_that_is_calculated_and_was_not_given_is_missing() {
    let xform = form(
        "<data><a/><b/><c>3</c></data>",
        r#"<bind nodeset="/data/a" calculate="1" required="true()"/>
           <bind nodeset="/data/b" calculate="2" constraint="false()"/>
           <bind nodeset="/data/c" calculate="4" constraint=". = 3"/>"#,
    );
    let session = Session::new(&xform, clock()).unwrap();
    let found: Vec<String> = session.check_all().iter().map(|v| v.describe()).collect();
    // what was not given is missing, and is not held against a constraint;
    // what was given is held against it as the form derives it
    assert_eq!(
        found,
        vec![
            "/data/a: holds \"\", but the form calculates \"1\"",
            "/data/b: holds \"\", but the form calculates \"2\"",
            "/data/c: holds \"3\", but the form calculates \"4\"",
            "/data/a: required, and unanswered",
            "/data/c: the answer does not satisfy the form's constraint",
        ]
    );
}

#[test]
fn a_session_is_picked_up_where_it_was_put_down() {
    let xform = form(
        "<data version=\"2\"><a/><g><b>old</b><c/></g></data>",
        r#"<bind nodeset="/data/a"/><bind nodeset="/data/g/c" calculate="/data/a + 1"/>"#,
    );
    let mut session = Session::new(&xform, clock()).unwrap();
    session.set("/data/a", "4").unwrap();
    session.set("/data/g/b", "").unwrap();
    session.recompute();
    let again = Session::resume(&xform, &session.instance_xml(), clock()).unwrap();
    for path in ["/data/a", "/data/g/b", "/data/g/c", "/data/@version", "/data/g", "//b"] {
        assert_eq!(again.get(path), session.get(path), "{path}");
    }
    assert_eq!(again.get("/data/g/c"), "5");
    assert_eq!(again.instance_xml(), session.instance_xml());
}

#[test]
fn rows_and_new_answers_are_picked_up_too() {
    let xform = form(
        "<data><r jr:template=\"\"><n/><t/></r><a/></data>",
        r#"<bind nodeset="/data/r/t" calculate="../n * 2"/>"#,
    );
    let mut session = Session::new(&xform, clock()).unwrap();
    for n in ["1", "2", "3"] {
        let rows = session.add_row("/data/r").unwrap();
        session.set(&format!("/data/r[{rows}]/n"), n).unwrap();
    }
    session.remove_row("/data/r", 2).unwrap();
    session.set("/data/g/new", "said").unwrap();
    session.recompute();
    let again = Session::resume(&xform, &session.instance_xml(), clock()).unwrap();
    for path in ["/data/r[1]/t", "/data/r[2]/t", "/data/r[3]/t", "/data/g/new", "/data/a", "/data"] {
        assert_eq!(again.get(path), session.get(path), "{path}");
    }
    assert_eq!(again.get("/data/r[2]/t"), "6");
    assert_eq!(again.get("/data/r[3]/t"), "");
    assert_eq!(again.get("/data/g/new"), "said");
}
