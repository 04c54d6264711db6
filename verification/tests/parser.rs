//! What the parser must accept, and what it must refuse.

use rxeval::parser::{parse, BinaryOp, Expr};

fn round_trip(expression: &str) -> Expr {
    parse(expression).unwrap_or_else(|e| panic!("{expression:?}: {e}"))
}

#[test]
fn parses_the_shapes_real_forms_use() {
    round_trip("/data/age");
    round_trip("../name");
    round_trip("selected(../services, 'water')");
    round_trip("/data/age >= 18 and /data/consent = 'yes'");
    round_trip("count(/data/resident) > 0");
    round_trip("instance('lugares')/root/item[name = /data/lugar]/label");
    round_trip("if(/data/a = 1, 'one', 'other')");
    round_trip("../resident[position() = 2]/name");
    round_trip("//age");
    round_trip("@id");
    round_trip("-3 + 4 * 2 div 2 mod 3");
    round_trip("concat('a', 'b', 'c')");
    round_trip("/data/a | /data/b");
}

#[test]
fn precedence_binds_the_way_xpath_says() {
    // `or` is loosest, then `and`, then comparison, then arithmetic
    let expr = parse("1 + 2 = 3 and true()").unwrap();
    match expr {
        Expr::Binary {
            op: BinaryOp::And,
            left,
            ..
        } => match *left {
            Expr::Binary {
                op: BinaryOp::Equal,
                left,
                ..
            } => assert!(matches!(
                *left,
                Expr::Binary {
                    op: BinaryOp::Add,
                    ..
                }
            )),
            other => panic!("expected an equality below the and, got {other:?}"),
        },
        other => panic!("expected an and at the top, got {other:?}"),
    }
}

#[test]
fn a_bad_expression_says_what_it_saw() {
    assert!(parse("/data/age >").is_err());
    assert!(parse("concat('a'").is_err());
    assert!(parse("'unterminated").is_err());
    assert!(parse("namespace::x").is_err());
}
