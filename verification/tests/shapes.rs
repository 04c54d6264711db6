//! Paths that name nothing, and what travels.

use rxeval::portability::{check_form, Breaks};

fn form(binds: &str) -> String {
    format!(
        r#"<html><head><model>
          <instance><data id="f"><a/><group><leaf/></group><rep><x/></rep></data></instance>
          <instance id="table"><root/></instance>
          {binds}
        </model></head><body><repeat nodeset=" /data/rep/ "/></body></html>"#
    )
}

fn only(binds: &str) -> (String, Breaks, Option<String>) {
    let issues = check_form(&form(binds)).unwrap();
    assert_eq!(issues.len(), 1, "{issues:#?}");
    (
        issues[0].construct.clone(),
        issues[0].breaks,
        issues[0].suggestion.clone(),
    )
}

#[test]
fn a_path_that_names_nothing_is_told_what_it_may_mean() {
    let (construct, breaks, fix) = only(r#"<bind nodeset="/data/a" calculate="/data/leaf"/>"#);
    assert_eq!(
        construct,
        "/data/leaf, which this form's instance has no node for"
    );
    assert_eq!(breaks, Breaks::Everywhere);
    assert_eq!(fix.as_deref(), Some("/data/group/leaf"));

    let (_, _, fix) = only(r#"<bind nodeset="/data/a" calculate="/date/nowhere"/>"#);
    assert_eq!(
        fix.as_deref(),
        Some("a path under /data — that is this form's instance root, not /date")
    );
    let (_, _, fix) = only(r#"<bind nodeset="/data/a" calculate="/data/nowhere"/>"#);
    assert_eq!(fix, None);
}

#[test]
fn paths_that_are_there_are_not_reported() {
    for rule in [
        "/data/group/leaf",
        "../group/leaf",
        "/data/@id",
        "instance('table')/root/item[name = /data/a]/x",
        "/table/root",
        "count(/data/*)",
    ] {
        let binds = format!(r#"<bind nodeset="/data/a" calculate="{rule}"/>"#);
        assert!(check_form(&form(&binds)).unwrap().is_empty(), "{rule}");
    }
}

#[test]
fn a_missing_path_is_reported_once_for_a_rule() {
    let (_, _, _) = only(r#"<bind nodeset="/data/a" calculate="/data/no + /data/no"/>"#);
}

#[test]
fn what_repeats_is_not_compared_even_inside() {
    let (construct, breaks, fix) = only(r#"<bind nodeset="/data/a" relevant="/data/rep/x &gt; 1"/>"#);
    assert_eq!(construct, "comparing /data/rep/x, which repeats");
    assert_eq!(breaks, Breaks::Collect);
    assert_eq!(
        fix.as_deref(),
        Some("count(/data/rep/x[. = …]) > 0, or indexed-repeat() to name one instance")
    );
}

#[test]
fn every_engine_has_its_words() {
    let issues = check_form(&form(
        r#"<bind nodeset="/data/a" calculate="boolean-from-string('True')" relevant="//x"/>"#,
    ))
    .unwrap();
    let said: Vec<String> = issues.iter().map(|i| i.describe()).collect();
    assert_eq!(
        said,
        vec![
            "/data/a (relevant): the // shorthand — JavaRosa supports only child steps, so the \
             path matches nothing, on Collect / KoboCollect. Write the full path from the \
             instance root instead.",
            "/data/a (calculate): boolean-from-string(\"True\") — JavaRosa accepts any casing, \
             Enketo only lowercase 'true', and the two engines differ. Write 'true' in lowercase \
             instead.",
        ]
    );
    assert_eq!(Breaks::Everywhere.describe(), "both, identically and silently");
}

#[test]
fn what_cannot_be_read_is_an_error() {
    assert_eq!(check_form("<a>").unwrap_err(), "XForm XML: unclosed elements");
}

#[test]
fn the_suggested_pattern_travels() {
    for pattern in ["a|b", "^a|b$", "[|]", "x\\|y", "(a|b)|c", ""] {
        let first = format!(r#"<bind nodeset="/data/a" constraint="regex(., '{pattern}')"/>"#);
        for issue in check_form(&form(&first)).unwrap() {
            let fix = issue.suggestion.unwrap();
            let again = format!(r#"<bind nodeset="/data/a" constraint="regex(., {fix})"/>"#);
            assert!(check_form(&form(&again)).unwrap().is_empty(), "{fix}");
        }
    }
}
