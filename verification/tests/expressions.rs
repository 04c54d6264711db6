//! Tokens and expressions, and what is refused.

use rxeval::parser::{parse, tokenize, Axis, BinaryOp, Expr, NameTest, Token};

#[test]
fn tokens() {
    let tokens = tokenize("/data/é1[2] != 'it' and .5").unwrap();
    assert_eq!(
        tokens[..4],
        [
            Token::Slash,
            Token::Name("data".into()),
            Token::Slash,
            Token::Name("é1".into())
        ]
    );
    assert_eq!(tokens.len(), 11);
}

#[test]
fn refusals_name_what_they_saw() {
    let why = |text: &str| parse(text).unwrap_err();
    assert!(why("'open").contains("unterminated"), "{}", why("'open"));
    assert!(why("1 2").contains("2"), "{}", why("1 2"));
    assert!(why("#").contains("#"), "{}", why("#"));
    assert!(why("foo::x").contains("foo"), "{}", why("foo::x"));
    assert!(parse("").is_err());
    assert!(parse("a[1").is_err());
    assert!(parse("f(1,").is_err());
}

#[test]
fn names_like_operators_are_names_where_a_name_stands() {
    // XPath tells them apart by what stands before
    match parse("div div mod").unwrap() {
        Expr::Binary { op: BinaryOp::Divide, left, right } => {
            assert!(matches!(*left, Expr::Path { absolute: false, .. }));
            assert!(matches!(*right, Expr::Path { absolute: false, .. }));
        }
        other => panic!("{other:?}"),
    }
    match parse("2 * *").unwrap() {
        Expr::Binary { op: BinaryOp::Multiply, right, .. } => match *right {
            Expr::Path { steps, .. } => assert_eq!(steps[0].test, NameTest::Any),
            other => panic!("{other:?}"),
        },
        other => panic!("{other:?}"),
    }
}

#[test]
fn abbreviations_are_written_out() {
    match parse("//a/../@b").unwrap() {
        Expr::Path { absolute, steps } => {
            assert!(absolute);
            let axes: Vec<Axis> = steps.iter().map(|s| s.axis).collect();
            assert_eq!(
                axes,
                vec![Axis::DescendantOrSelf, Axis::Child, Axis::Parent, Axis::Attribute]
            );
        }
        other => panic!("{other:?}"),
    }
}

#[test]
fn operators_have_symbols() {
    assert_eq!(BinaryOp::LessEqual.symbol(), "<=");
    assert_eq!(BinaryOp::Divide.symbol(), "div");
    assert_eq!(BinaryOp::NotEqual.symbol(), "!=");
}
