use bidir::eval::Eval;
use bidir::expr::{Expr, Literal};
use bidir::types::Type;

fn s(text: &str) -> String {
    text.to_string()
}

#[test]
fn values_evaluate_to_themselves() {
    let mut ev = Eval::new();
    assert_eq!(ev.eval(Expr::integer(7)), Expr::integer(7));
    assert_eq!(ev.eval(Expr::var("x")), Expr::var("x"));
    let lam = Expr::lambda("x", Expr::app(Expr::lambda("y", Expr::var("y")), Expr::var("x")));
    assert_eq!(ev.eval(lam.clone()), lam);
}

#[test]
fn application_reduces() {
    let mut ev = Eval::new();
    let konst = Expr::lambda("x", Expr::lambda("y", Expr::var("x")));
    let expr = Expr::app(Expr::app(konst, Expr::integer(1)), Expr::integer(2));
    assert_eq!(ev.eval(expr), Expr::integer(1));
}

#[test]
fn stuck_application_keeps_the_argument_as_it_stands() {
    let mut ev = Eval::new();
    let arg = Expr::app(Expr::lambda("x", Expr::var("x")), Expr::integer(1));
    let expr = Expr::app(Expr::var("f"), arg.clone());
    assert_eq!(ev.eval(expr), Expr::app(Expr::var("f"), arg));
}

#[test]
fn annotation_has_the_value_of_what_it_annotates() {
    let mut ev = Eval::new();
    let expr = Expr::ann(Expr::app(Expr::lambda("x", Expr::var("x")), Expr::integer(3)), Type::Int);
    assert_eq!(ev.eval(expr), Expr::integer(3));
}

#[test]
fn substitute_replaces_free_occurrences() {
    let mut ev = Eval::new();
    let expr = Expr::app(Expr::var("x"), Expr::lambda("x", Expr::var("x")));
    assert_eq!(
        ev.substitute(&expr, &s("x"), &Expr::integer(1)),
        Some(Expr::app(Expr::integer(1), Expr::lambda("x", Expr::var("x"))))
    );
}

#[test]
fn substitute_renames_a_capturing_binder() {
    let mut ev = Eval::new();
    let expr = Expr::lambda("y", Expr::app(Expr::var("x"), Expr::var("y")));
    assert_eq!(
        ev.substitute(&expr, &s("x"), &Expr::var("y")),
        Some(Expr::lambda("1y", Expr::app(Expr::var("y"), Expr::var("1y"))))
    );
    assert_eq!(
        ev.substitute(&expr, &s("x"), &Expr::var("y")),
        Some(Expr::lambda("2y", Expr::app(Expr::var("y"), Expr::var("2y"))))
    );
}

#[test]
fn substitute_goes_under_annotations() {
    let mut ev = Eval::new();
    let expr = Expr::ann(Expr::var("x"), Type::Int);
    assert_eq!(
        ev.substitute(&expr, &s("x"), &Expr::integer(5)),
        Some(Expr::ann(Expr::integer(5), Type::Int))
    );
}

#[test]
fn evaluation_avoids_capture() {
    let mut ev = Eval::new();
    // (\x. \y. x) y  gives  \1y. y
    let expr = Expr::app(Expr::lambda("x", Expr::lambda("y", Expr::var("x"))), Expr::var("y"));
    assert_eq!(ev.eval(expr), Expr::lambda("1y", Expr::var("y")));
}

#[test]
fn evaluation_stops_at_depth() {
    let omega_half = Expr::lambda("x", Expr::app(Expr::var("x"), Expr::var("x")));
    let omega = Expr::app(omega_half.clone(), omega_half.clone());
    let mut ev = Eval::with_depth(40);
    assert_eq!(ev.eval(omega.clone()), omega);
    let mut none = Eval::with_depth(0);
    let redex = Expr::app(Expr::lambda("x", Expr::var("x")), Expr::integer(1));
    assert_eq!(none.eval(redex.clone()), redex);
    let mut shallow = Eval::with_depth(1);
    assert_eq!(shallow.substitute(&redex, &s("y"), &Expr::integer(2)), None);
}

#[test]
fn expressions_free_vars() {
    let expr = Expr::lambda("x", Expr::app(Expr::var("x"), Expr::app(Expr::var("y"), Expr::var("z"))));
    assert_eq!(expr.free_vars(), vec![s("y"), s("z")]);
    assert_eq!(Expr::ann(Expr::var("a"), Type::var("b")).free_vars(), vec![s("a")]);
    assert_eq!(Expr::integer(1).free_vars(), Vec::<String>::new());
}

#[test]
fn expressions_subst_without_renaming() {
    let expr = Expr::lambda("y", Expr::app(Expr::var("x"), Expr::var("y")));
    assert_eq!(
        expr.subst(&s("x"), &Expr::var("z")),
        Expr::lambda("y", Expr::app(Expr::var("z"), Expr::var("y")))
    );
    assert_eq!(expr.subst(&s("y"), &Expr::var("z")), expr);
}

#[test]
fn expressions_print() {
    assert_eq!(Expr::integer(42).print(), "42");
    assert_eq!(Expr::integer(0).print(), "0");
    assert_eq!(Expr::integer(-7).print(), "-7");
    assert_eq!(Expr::integer(i32::MIN).print(), "-2147483648");
    assert_eq!(Expr::Literal(Literal::Bool(true)).print(), "true");
    assert_eq!(Expr::boolean(false).print(), "false");
    assert_eq!(Expr::lambda("x", Expr::var("x")).print(), "\\x. x");
    let app = Expr::app(Expr::app(Expr::var("f"), Expr::var("a")), Expr::app(Expr::var("g"), Expr::var("b")));
    assert_eq!(app.print(), "f a (g b)");
    let applied = Expr::app(Expr::lambda("x", Expr::var("x")), Expr::integer(1));
    assert_eq!(applied.print(), "(\\x. x) 1");
    let ann = Expr::ann(Expr::lambda("x", Expr::var("x")), Type::fun(Type::Int, Type::Int));
    assert_eq!(ann.print(), "(\\x. x) :: Int -> Int");
}

#[test]
fn substitute_brings_in_no_other_free_variable() {
    let mut ev = Eval::new();
    let expr = Expr::lambda("y", Expr::app(Expr::var("x"), Expr::app(Expr::var("y"), Expr::var("z"))));
    let replacement = Expr::app(Expr::var("y"), Expr::var("w"));
    let out = ev.substitute(&expr, &s("x"), &replacement).unwrap();
    assert_eq!(
        out,
        Expr::lambda(
            "1y",
            Expr::app(
                Expr::app(Expr::var("y"), Expr::var("w")),
                Expr::app(Expr::var("1y"), Expr::var("z"))
            )
        )
    );
    assert_eq!(out.free_vars(), vec![s("y"), s("w"), s("z")]);
}

#[test]
fn tidy_expressions() {
    let id = Expr::lambda("x", Expr::var("x"));
    assert!(id.is_tidy());
    assert!(Expr::app(id.clone(), id.clone()).is_tidy());
    assert!(Expr::ann(id.clone(), Type::poly(vec!["a"], Type::fun(Type::var("a"), Type::var("a")))).is_tidy());
    // A binder within the scope of a lambda that binds the same.
    assert!(!Expr::lambda("x", Expr::lambda("x", Expr::var("x"))).is_tidy());
    assert!(!Expr::lambda("x", Expr::app(Expr::var("f"), Expr::lambda("x", Expr::var("x")))).is_tidy());
    // A binder that bears a generated name.
    assert!(!Expr::lambda("12v", Expr::var("y")).is_tidy());
    // Annotations with an existential, or with a generated binder.
    assert!(!Expr::ann(Expr::integer(1), Type::ex("a")).is_tidy());
    assert!(!Expr::ann(Expr::integer(1), Type::poly(vec!["3v"], Type::Int)).is_tidy());
    assert_eq!(
        Expr::lambda("x", Expr::app(Expr::lambda("y", Expr::var("y")), Expr::var("x"))).binders(),
        vec![s("y"), s("x")]
    );
}
