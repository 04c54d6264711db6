//! One exact answer, at least, for every function, and every refusal.

use rxeval::eval::value::kind_name;
use rxeval::number::Number;
use rxeval::{eval_str, Fixed, Instance, Value};

fn instance() -> Instance {
    Instance::from_xml(
        r#"<data id="f">
             <a>3</a><b>4.5</b><word> two  words </word><empty/>
             <list>red green blue</list>
             <r><v>10</v></r><r><v>2</v></r><r><v/></r>
           </data>"#,
    )
    .unwrap()
}

fn env() -> Fixed {
    Fixed {
        today: "2026-08-14".into(),
        now: "2026-08-14T09:30:00.000-03:00".into(),
    }
}

fn text(expression: &str) -> String {
    let instance = instance();
    let value = eval_str(expression, &instance, &env())
        .unwrap_or_else(|e| panic!("{expression:?}: {e}"));
    value.text(&instance).unwrap()
}

fn refused(expression: &str) -> String {
    match eval_str(expression, &instance(), &env()) {
        Ok(value) => panic!("{expression:?} came to {value:?}"),
        Err(why) => why,
    }
}

#[test]
fn node_functions() {
    assert_eq!(text("count(/data/r)"), "3");
    assert_eq!(text("name(/data/a)"), "a");
    assert_eq!(text("local-name(/data/a)"), "a");
    assert_eq!(text("name()"), "data");
    assert_eq!(text("name(/data/missing)"), "");
    assert_eq!(text("/data/r[position() = 2]/v"), "2");
    assert_eq!(text("/data/r[last()]/v"), "");
    assert_eq!(text("/data/r[1]/v"), "10");
    assert_eq!(text("count(/data/r[v > 1])"), "2");
    assert_eq!(text("count(/data/r | /data/a)"), "4");
    assert_eq!(text("count(//v)"), "3");
    assert_eq!(text("count(/data/*)"), "8");
    assert_eq!(text("/data/@id"), "f");
    assert_eq!(text("/data/r[2]/../@id"), "f");
    assert_eq!(text("count(/data/r[1]/following-sibling::r)"), "2");
    assert_eq!(text("count(/data/r[3]/preceding-sibling::*)"), "7");
    assert_eq!(text("count(/data/r[3]/v/ancestor::*)"), "2");
    assert_eq!(text("count(/data/r[3]/v/ancestor-or-self::*)"), "3");
    assert_eq!(text("count(/data/a/following::*)"), "10");
    assert_eq!(text("count(/data/r[1]/v/preceding::*)"), "5");
    assert_eq!(text("count(/data/descendant::v)"), "3");
    assert_eq!(text("count(/data/descendant-or-self::data)"), "1");
    assert_eq!(text("count(/data/self::data)"), "1");
}

#[test]
fn text_functions() {
    assert_eq!(text("string(/data/a)"), "3");
    assert_eq!(text("string(1 = 1)"), "true");
    assert_eq!(text("concat('a', 1, true())"), "a1true");
    assert_eq!(text("concat(/data/r/v)"), "102");
    assert_eq!(text("string-length('façade')"), "6");
    assert_eq!(text("normalize-space(/data/word)"), "two words");
    assert_eq!(text("contains('abc', 'b')"), "true");
    assert_eq!(text("contains('abc', '')"), "true");
    assert_eq!(text("starts-with('abc', 'ab')"), "true");
    assert_eq!(text("starts-with('abc', 'b')"), "false");
    assert_eq!(text("ends-with('abc', 'bc')"), "true");
    assert_eq!(text("ends-with('abc', 'ab')"), "false");
    assert_eq!(text("substring-before('2026-08', '-')"), "2026");
    assert_eq!(text("substring-after('2026-08', '-')"), "08");
    assert_eq!(text("substring-before('x', '-')"), "");
    assert_eq!(text("substring('12345', 2, 3)"), "234");
    assert_eq!(text("substring('12345', 2)"), "2345");
    assert_eq!(text("substring('12345', 1.5, 2.6)"), "234");
    assert_eq!(text("substring('12345', 0, 3)"), "12");
    assert_eq!(text("substring('12345', 0 div 0, 3)"), "");
    assert_eq!(text("substring('12345', 1, 0 div 0)"), "");
    assert_eq!(text("substring('12345', -42, 1 div 0)"), "12345");
    assert_eq!(text("substring('12345', -1 div 0, 1 div 0)"), "");
    assert_eq!(text("substring('12345', -1 div 0)"), "12345");
    assert_eq!(text("substring('12345', 1 div 0)"), "");
    assert_eq!(text("substr('12345', 1, 3)"), "23");
    assert_eq!(text("substr('12345', -3, -1)"), "34");
    assert_eq!(text("translate('bar', 'abc', 'AB')"), "BAr");
    assert_eq!(text("translate('--a--', '-', '')"), "a");
    assert_eq!(text("join('-', /data/r/v)"), "10-2-");
    assert_eq!(text("coalesce(/data/empty, 'none')"), "none");
    assert_eq!(text("coalesce(/data/a, 'none')"), "3");
    assert_eq!(text("once('x')"), text("string(/data)"));
}

#[test]
fn number_functions() {
    assert_eq!(text("number('4.50')"), "4.5");
    assert_eq!(text("number(true())"), "1");
    assert_eq!(text("sum(/data/r[position() < 3]/v)"), "12");
    assert_eq!(text("sum(/data/r/v)"), "NaN");
    assert_eq!(text("floor(-1.5)"), "-2");
    assert_eq!(text("ceiling(-1.5)"), "-1");
    assert_eq!(text("round(2.5)"), "3");
    assert_eq!(text("round(2.345, 1)"), "2.3");
    assert_eq!(text("int(-2.7)"), "-2");
    assert_eq!(text("abs(-3)"), "3");
    assert_eq!(text("pow(2, 8)"), "256");
    assert_eq!(text("log(1)"), "0");
    assert_eq!(text("log10(1000)"), "3");
    assert_eq!(text("exp(0)"), "1");
    assert_eq!(text("sqrt(2.25)"), "1.5");
    assert_eq!(text("min(3, 1, 2)"), "1");
    assert_eq!(text("max(/data/r[position() < 3]/v, 7)"), "10");
    // an answer that is no number is not passed over
    assert_eq!(text("max(/data/r/v, 7)"), "NaN");
    assert_eq!(text("7 mod 3"), "1");
    assert_eq!(text("-7 mod 3"), "-1");
    assert_eq!(text("1 div 0"), "Infinity");
    assert_eq!(text("-1 div 0"), "-Infinity");
    assert_eq!(text("0.1 + 0.2"), "0.30000000000000004");
}

#[test]
fn truth_functions() {
    assert_eq!(text("boolean('')"), "false");
    assert_eq!(text("boolean(0)"), "false");
    assert_eq!(text("not(false())"), "true");
    assert_eq!(text("boolean-from-string('true')"), "true");
    assert_eq!(text("boolean-from-string('TRUE')"), "false");
    assert_eq!(text("if(true(), 'a', 'b')"), "a");
    assert_eq!(text("if(false(), 'a', 'b')"), "b");
    assert_eq!(text("1 = '1'"), "true");
    assert_eq!(text("true() = 'x'"), "true");
    assert_eq!(text("'a' != 'b'"), "true");
    assert_eq!(text("/data/r/v = /data/a"), "false");
    assert_eq!(text("/data/r/v != /data/a"), "true");
    assert_eq!(text("/data/r = false()"), "false");
    assert_eq!(text("2 < 10 and '2' < '10'"), "true");
}

#[test]
fn select_functions() {
    assert_eq!(text("selected(/data/list, 'green')"), "true");
    assert_eq!(text("selected(/data/list, 'gree')"), "false");
    assert_eq!(text("selected-at(/data/list, 2)"), "blue");
    assert_eq!(text("selected-at(/data/list, 3)"), "");
    assert_eq!(text("count-selected(/data/list)"), "3");
}

#[test]
fn date_functions() {
    assert_eq!(
        text("format-date('2026-08-07', '%d.%m.%Y')"),
        "07.08.2026"
    );
    assert_eq!(
        text("format-date-time('2026-08-07T06:01:02.034Z', '%H:%M:%S.%3 %h')"),
        "06:01:02.034 6"
    );
    assert_eq!(text("format-date('2026-08-07', '100%%')"), "100%");
    assert!(refused("format-date('soon', '%Y')").contains("not an ISO date"));
    assert!(refused("format-date('2026-08-07', '%b')").contains("%b"));
}

#[test]
fn a_pattern_matches_the_whole_value() {
    assert_eq!(text("regex('abc', 'a.c')"), "true");
    assert_eq!(text("regex('xabc', 'a.c')"), "false");
    assert_eq!(text("regex('ab', 'a|b')"), "false");
    assert_eq!(text("regex('b', 'a|b')"), "true");
    assert!(refused("regex('x', '(')").contains("("));
}

#[test]
fn what_is_not_implemented_is_refused_by_name() {
    for name in [
        "indexed-repeat", "current", "pulldata", "randomize", "uuid", "digest", "date",
        "date-time", "decimal-date-time", "decimal-time", "area", "distance", "checklist",
        "weighted-checklist", "position-in-repeat",
    ] {
        let why = refused(&format!("{name}()"));
        assert!(why.contains(name), "{why}");
        assert!(why.contains("not implemented"), "{why}");
    }
    assert_eq!(refused("frobnicate(1)"), "unknown function frobnicate()");
}

#[test]
fn the_wrong_number_of_arguments_is_refused() {
    assert_eq!(refused("count()"), "count() takes 1 argument(s), got 0");
    assert_eq!(
        refused("round(1, 2, 3)"),
        "round() takes 1 or 2 argument(s), got 3"
    );
    assert_eq!(refused("if(true(), 1)"), "if() takes 3 argument(s), got 2");
    assert_eq!(refused("today(1)"), "today() takes 0 argument(s), got 1");
}

#[test]
fn the_wrong_kind_of_argument_is_refused() {
    assert!(refused("count(1)").contains("count() counts nodes"));
    assert!(refused("sum('x')").contains("sum() adds up a node-set"));
    assert!(refused("'x' | /data/a").contains("union needs a node-set"));
    assert!(refused("name('x')").contains("name()"));
    assert!(refused("instance('nowhere')/root").contains("instance('nowhere')"));
    assert!(refused("$x").contains("$x"));
    assert!(refused("jr:choice-name('a', '/data/a')").contains("no choice"));
}

#[test]
fn a_node_from_elsewhere_is_refused() {
    let expr = rxeval::parse("name(.)").unwrap();
    let far = rxeval::Context::at(rxeval::NodeId(1000));
    assert_eq!(
        rxeval::evaluate(&expr, &instance(), far, &env()).unwrap_err(),
        "node 1000 is not in this document"
    );
}

#[test]
fn kinds_have_names() {
    assert_eq!(kind_name(&Value::Number(Number::one())), "a number");
    assert_eq!(kind_name(&Value::String("x".into())), "a string");
    assert_eq!(kind_name(&Value::Boolean(true)), "a boolean");
    assert_eq!(kind_name(&Value::NodeSet(Vec::new())), "a node-set");
}

#[test]
fn every_white_space_is_passed_over() {
    for code in 0..0x3100u32 {
        if let Some(c) = char::from_u32(code) {
            if c == '\'' {
                continue;
            }
            let ours = text(&format!("normalize-space('{c}')")).is_empty();
            assert_eq!(ours, c.is_whitespace(), "U+{code:04X}");
        }
    }
}
