//! Rows of a repeat, while a form is filled in.

use rxeval::{Clock, Session};

fn clock() -> Clock {
    Clock {
        today: "2026-08-14".into(),
        now: "2026-08-14T09:00:00.000-03:00".into(),
    }
}

const FORM: &str = r#"<h:html xmlns="http://www.w3.org/2002/xforms" xmlns:h="http://www.w3.org/1999/xhtml">
  <h:head>
    <model>
      <instance>
        <data id="visit">
          <resident jr:template=""><name/><age/><adult/></resident>
          <note/>
          <meta><instanceID/></meta>
        </data>
      </instance>
      <bind nodeset="/data/resident/age" type="int" constraint=". &lt; 130"/>
      <bind nodeset="/data/resident/adult" calculate="if(../age &gt;= 18, 'yes', 'no')"/>
      <bind nodeset="/data/resident/name" required="true()" relevant="../age != ''"/>
      <bind nodeset="/data/note" type="string"/>
    </model>
  </h:head>
  <h:body/>
</h:html>"#;

fn fresh() -> Session {
    Session::new(FORM, clock()).unwrap()
}

#[test]
fn a_template_is_not_a_row() {
    let session = fresh();
    let counts = session.repeat_counts();
    assert_eq!(counts.keys(), vec!["/data/resident"]);
    assert_eq!(counts.get("/data/resident"), Some(&0));
    assert_eq!(
        session.instance_xml(),
        "<?xml version='1.0' ?><data id=\"visit\"><note/><meta><instanceID/></meta></data>"
    );
}

#[test]
fn rows_follow_each_other_and_keep_their_place() {
    let mut session = fresh();
    assert_eq!(session.add_row("/data/resident"), Ok(1));
    assert_eq!(session.add_row("/data/resident"), Ok(2));
    session.set("/data/resident[1]/name", "Ana").unwrap();
    session.set("/data/resident[2]/name", "Bia").unwrap();
    assert_eq!(session.add_row("/data/resident"), Ok(3));
    assert_eq!(session.get("/data/resident[1]/name"), "Ana");
    assert_eq!(session.get("/data/resident[2]/name"), "Bia");
    assert_eq!(session.get("/data/resident[3]/name"), "");
    // the marker does not travel with the rows
    assert!(!session.instance_xml().contains("template"));

    assert_eq!(session.remove_row("/data/resident", 1), Ok(2));
    assert_eq!(session.get("/data/resident[1]/name"), "Bia");
    assert_eq!(session.repeat_counts().get("/data/resident"), Some(&2));
}

#[test]
fn rows_are_calculated_one_by_one() {
    let mut session = fresh();
    session.add_row("/data/resident").unwrap();
    session.add_row("/data/resident").unwrap();
    session.set("/data/resident[1]/age", "40").unwrap();
    session.set("/data/resident[2]/age", "7").unwrap();
    let outcome = session.recompute();
    assert_eq!(session.get("/data/resident[1]/adult"), "yes");
    assert_eq!(session.get("/data/resident[2]/adult"), "no");
    assert_eq!(
        outcome.calculated.keys(),
        vec!["/data/resident[1]/adult", "/data/resident[2]/adult"]
    );
    assert_eq!(outcome.relevant.get("/data/resident[1]/name"), Some(&true));
    assert_eq!(outcome.repeats.get("/data/resident"), Some(&2));
    assert_eq!(
        outcome.missing,
        vec!["/data/resident[1]/name", "/data/resident[2]/name"]
    );
}

#[test]
fn what_is_no_repeat_gets_no_row() {
    let mut session = fresh();
    let before = session.instance_xml();
    assert_eq!(
        session.add_row("/data/note"),
        Err("'/data/note' is not a repeat in this form".to_string())
    );
    assert_eq!(session.instance_xml(), before);
}

#[test]
fn a_row_that_is_not_there_is_not_removed() {
    let mut session = fresh();
    session.add_row("/data/resident").unwrap();
    let before = session.instance_xml();
    assert_eq!(
        session.remove_row("/data/resident", 2),
        Err("'/data/resident' has 1 row(s); there is no row 2".to_string())
    );
    assert_eq!(
        session.remove_row("/data/resident", 0),
        Err("'/data/resident' has 1 row(s); there is no row 0".to_string())
    );
    assert_eq!(session.instance_xml(), before);
    assert_eq!(session.remove_row("/data/resident", 1), Ok(0));
}

#[test]
fn rows_survive_being_put_down() {
    let mut session = fresh();
    session.add_row("/data/resident").unwrap();
    session.set("/data/resident/age", "30").unwrap();
    session.recompute();
    let saved = session.instance_xml();
    let mut again = Session::resume(FORM, &saved, clock()).unwrap();
    assert_eq!(again.instance_xml(), saved);
    assert_eq!(again.repeat_counts().get("/data/resident"), Some(&1));
    assert!(again.recompute().calculated.is_empty());
    assert_eq!(again.add_row("/data/resident"), Ok(2));
}

#[test]
fn a_finding_says_which_row_it_is_about() {
    let mut session = fresh();
    session.add_row("/data/resident").unwrap();
    session.add_row("/data/resident").unwrap();
    session.set("/data/resident[1]/age", "40").unwrap();
    session.set("/data/resident[2]/age", "200").unwrap();
    let outcome = session.recompute();
    assert_eq!(
        outcome.invalid,
        vec![(
            "/data/resident[2]/age".to_string(),
            "this answer is not allowed".to_string()
        )]
    );
    let found = session.check_all();
    let rejected: Vec<_> = found
        .iter()
        .filter(|v| v.kind == rxeval::ViolationKind::Constraint)
        .collect();
    assert_eq!(rejected.len(), 1);
    assert_eq!(rejected[0].path, "/data/resident/age");
    assert_eq!(rejected[0].node_path, "/data/resident[2]/age");
}

#[test]
fn a_resumed_session_answers_as_before() {
    let mut session = fresh();
    for name in ["Ana", "Bia", "Caio"] {
        let row = session.add_row("/data/resident").unwrap();
        session
            .set(&format!("/data/resident[{row}]/name"), name)
            .unwrap();
    }
    session.set("/data/resident[3]/age", "7").unwrap();
    session.remove_row("/data/resident", 2).unwrap();
    session.set("/data/note", "x").unwrap();
    session.recompute();
    let again = Session::resume(FORM, &session.instance_xml(), clock()).unwrap();
    for path in [
        "/data",
        "/data/@id",
        "/data/resident",
        "/data/resident[2]/name",
        "/data/resident[name = 'Caio']/age",
        "/data/note/preceding-sibling::*[1]",
        "//age[. = 7]/../name",
        "/data/meta/preceding::name | //note",
        "/data/nothing",
        "not a path(",
    ] {
        assert_eq!(again.get(path), session.get(path), "{path}");
    }
    assert_eq!(again.get("/data/resident[2]/name"), "Caio");
}
