//! The clock of a submission.

use rxeval::metadata::{clock_anywhere, clock_at_top, is_document};
use rxeval::{Instance, ViolationKind};

fn read(xml: &str) -> Instance {
    Instance::from_xml(xml).unwrap()
}

#[test]
fn a_document_starts_with_a_tag() {
    assert!(is_document("<data/>"));
    assert!(is_document(" \n\u{a0}<data/>"));
    assert!(!is_document("form.xml"));
    assert!(!is_document(""));
    assert!(!is_document("x<"));
}

#[test]
fn the_submission_says_when_it_was() {
    let doc = read(
        "<data><start>2026-08-01T08:00:00</start><end>2026-08-01T09:30:00</end></data>",
    );
    let clock = clock_anywhere(&doc, None, None).unwrap();
    assert_eq!(clock.today, "2026-08-01");
    assert_eq!(clock.now, "2026-08-01T09:30:00");
    let clock = clock_at_top(&doc, None, None);
    assert_eq!(clock.today, "2026-08-01");
    assert_eq!(clock.now, "2026-08-01T09:30:00");
    let clock = clock_at_top(&doc, Some("2020-01-01"), Some("2020-01-01T00:00:00"));
    assert_eq!(clock.today, "2020-01-01");
    assert_eq!(clock.now, "2020-01-01T00:00:00");
}

#[test]
fn metadata_below_the_top_is_found_only_by_one() {
    let doc = read("<data><meta><today>2026-03-04</today><start>s</start></meta></data>");
    let clock = clock_anywhere(&doc, None, None).unwrap();
    assert_eq!((clock.today.as_str(), clock.now.as_str()), ("2026-03-04", "s"));
    let clock = clock_at_top(&doc, None, None);
    assert_eq!(
        (clock.today.as_str(), clock.now.as_str()),
        ("1970-01-01", "1970-01-01T00:00:00.000Z")
    );
}

#[test]
fn ten_bytes_are_not_ten_characters() {
    let doc = read("<data><end>áéíóúxyzwk</end></data>");
    assert_eq!(clock_anywhere(&doc, None, None).unwrap().today, "áéíóú");
    assert_eq!(clock_at_top(&doc, None, None).today, "áéíóúxyzwk");
    // the tenth byte would be half a character
    let doc = read("<data><end>áéíóxúyz</end></data>");
    assert!(clock_anywhere(&doc, None, None).is_none());
    assert!(clock_anywhere(&doc, Some("2020-01-01"), None).is_some());
    let doc = read("<data><end>short</end></data>");
    assert_eq!(clock_anywhere(&doc, None, None).unwrap().today, "short");
}

#[test]
fn kinds_have_labels() {
    assert_eq!(ViolationKind::Constraint.label(), "constraint");
    assert_eq!(ViolationKind::Required.label(), "required");
    let calculation = ViolationKind::Calculation {
        stored: "1".into(),
        computed: "2".into(),
    };
    assert_eq!(calculation.label(), "calculation");
    assert_eq!(ViolationKind::Failed("x".into()).label(), "not-evaluated");
}
