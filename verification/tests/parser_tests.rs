use bidir::checker::TypeChecker;
use bidir::eval::Eval;
use bidir::expr::Expr;
use bidir::parser::{parse, parse_tokens, parse_type, read_expr, read_type, tokenize};
use bidir::token::Token;
use bidir::types::Type;

#[test]
fn parses_atoms() {
    assert_eq!(parse("42"), Some(Expr::integer(42)));
    assert_eq!(parse("true"), Some(Expr::boolean(true)));
    assert_eq!(parse("x"), Some(Expr::var("x")));
    assert_eq!(parse("((x))"), Some(Expr::var("x")));
}

#[test]
fn parses_lambda_and_application() {
    assert_eq!(parse("\\x. x"), Some(Expr::lambda("x", Expr::var("x"))));
    assert_eq!(
        parse("f a b"),
        Some(Expr::app(Expr::app(Expr::var("f"), Expr::var("a")), Expr::var("b")))
    );
    assert_eq!(
        parse("f (a b)"),
        Some(Expr::app(Expr::var("f"), Expr::app(Expr::var("a"), Expr::var("b"))))
    );
    assert_eq!(
        parse("\\f. \\x. f (f x)"),
        Some(Expr::lambda(
            "f",
            Expr::lambda("x", Expr::app(Expr::var("f"), Expr::app(Expr::var("f"), Expr::var("x"))))
        ))
    );
}

#[test]
fn parses_annotations() {
    let id_type = Type::poly(vec!["a"], Type::fun(Type::var("a"), Type::var("a")));
    assert_eq!(
        parse("(\\x. x) :: forall a. a -> a"),
        Some(Expr::ann(Expr::lambda("x", Expr::var("x")), id_type.clone()))
    );
    assert_eq!(
        parse("\\x. x :: Int"),
        Some(Expr::lambda("x", Expr::ann(Expr::var("x"), Type::Int)))
    );
    assert_eq!(
        parse("((\\x. x) :: forall a. a -> a) 42"),
        Some(Expr::app(Expr::ann(Expr::lambda("x", Expr::var("x")), id_type), Expr::integer(42)))
    );
}

#[test]
fn parses_types() {
    assert_eq!(parse_type("Int"), Some(Type::Int));
    assert_eq!(parse_type("Bool"), Some(Type::Bool));
    assert_eq!(parse_type("a"), Some(Type::var("a")));
    assert_eq!(
        parse_type("a -> b -> c"),
        Some(Type::fun(Type::var("a"), Type::fun(Type::var("b"), Type::var("c"))))
    );
    assert_eq!(
        parse_type("(a -> b) -> c"),
        Some(Type::fun(Type::fun(Type::var("a"), Type::var("b")), Type::var("c")))
    );
    assert_eq!(
        parse_type("forall a b. a -> b"),
        Some(Type::poly(vec!["a", "b"], Type::fun(Type::var("a"), Type::var("b"))))
    );
    assert_eq!(
        parse_type("Int -> forall a. a"),
        Some(Type::fun(Type::Int, Type::poly(vec!["a"], Type::var("a"))))
    );
}

#[test]
fn refuses_what_spells_nothing() {
    assert_eq!(parse(""), None);
    assert_eq!(parse("("), None);
    assert_eq!(parse("(x"), None);
    assert_eq!(parse("x)"), None);
    assert_eq!(parse("\\x x"), None);
    assert_eq!(parse("\\. x"), None);
    assert_eq!(parse("x ::"), None);
    assert_eq!(parse("x :: Foo"), None);
    assert_eq!(parse("x ? y"), None);
    assert_eq!(parse("x ?"), None);
    assert_eq!(parse("x - y"), None);
    assert_eq!(parse("99999999999"), None);
    assert_eq!(parse_type("forall . a"), None);
    assert_eq!(parse_type("forall a a"), None);
    assert_eq!(parse_type("a ->"), None);
    assert_eq!(parse_type("a b"), None);
}

#[test]
fn reads_from_a_position() {
    let tokens = tokenize("x y :: Int )").unwrap();
    let (e, end) = read_expr(&tokens, 0).unwrap();
    assert_eq!(e, Expr::ann(Expr::app(Expr::var("x"), Expr::var("y")), Type::Int));
    assert_eq!(end, 4);
    assert_eq!(read_expr(&tokens, 4), None);
    assert_eq!(read_type(&tokens, 3), Some((Type::Int, 4)));
    assert_eq!(parse_tokens(&tokens), None);
    assert_eq!(parse_tokens(&vec![Token::IntLiteral(1)]), Some(Expr::integer(1)));
}

#[test]
fn printed_types_read_back() {
    let samples = vec![
        Type::Int,
        Type::fun(Type::fun(Type::var("a"), Type::Bool), Type::fun(Type::Int, Type::var("b"))),
        Type::fun(Type::var("a"), Type::fun(Type::var("b"), Type::var("c"))),
    ];
    for ty in samples {
        assert_eq!(parse_type(&ty.print()), Some(ty));
    }
}

#[test]
fn printed_expressions_read_back() {
    let samples = vec![
        "\\f. \\x. f (f x)",
        "(\\x. x) 1",
        "f a (g b) c",
        "(\\x. x) :: Int -> Int",
        "((\\x. x) :: Int -> Int) 42",
    ];
    for text in samples {
        let e = parse(text).unwrap();
        assert_eq!(e.print(), text);
        assert_eq!(parse(&e.print()), Some(e));
    }
}

#[test]
fn reads_checks_and_evaluates() {
    let e = parse("((\\x. x) :: forall a. a -> a) 42").unwrap();
    assert_eq!(TypeChecker::new().synth(&e), Ok(Type::Int));
    assert_eq!(Eval::new().eval(e), Expr::integer(42));
    let e = parse("(\\x. x) true").unwrap();
    assert_eq!(TypeChecker::new().synth(&e), Ok(Type::Bool));
    assert_eq!(Eval::new().eval(e), Expr::boolean(true));
}

#[test]
fn printed_quantifiers_read_back() {
    let samples = vec![
        Type::poly(vec!["a"], Type::fun(Type::var("a"), Type::var("a"))),
        Type::poly(vec!["a", "b"], Type::fun(Type::fun(Type::var("a"), Type::var("b")), Type::var("a"))),
        Type::fun(Type::Int, Type::poly(vec!["a"], Type::var("a"))),
    ];
    for ty in samples {
        assert_eq!(parse_type(&ty.print()), Some(ty));
    }
    // A quantifier left of an arrow is printed without parentheses, and
    // reads back as a quantifier over the arrow.
    let left = Type::fun(Type::poly(vec!["a"], Type::var("a")), Type::Int);
    assert_eq!(left.print(), "\u{2200} a. a -> Int");
    assert_eq!(
        parse_type(&left.print()),
        Some(Type::poly(vec!["a"], Type::fun(Type::var("a"), Type::Int)))
    );
}
