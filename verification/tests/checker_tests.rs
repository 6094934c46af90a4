use bidir::checker::{NameGen, TypeChecker};
use bidir::context::{Context, ContextElem};
use bidir::error::TypeError;
use bidir::eval::Eval;
use bidir::expr::Expr;
use bidir::types::Type;

fn s(text: &str) -> String {
    text.to_string()
}

fn identity(binder: &str) -> Expr {
    Expr::lambda(binder, Expr::var(binder))
}

fn id_type(var: &str) -> Type {
    Type::poly(vec![var], Type::fun(Type::var(var), Type::var(var)))
}

#[test]
fn subty() {
    let mut tc = TypeChecker::new();
    let ctx = Context::new(vec![]);
    let a = Type::poly(vec!["a"], Type::var("a"));
    let b = Type::Int;
    // (forall a. a) <: Int
    let res = tc.subtype(ctx, &a, &b);
    assert_eq!(res, Ok(Context::new(vec![])));
}

#[test]
fn fresh_names_count_up() {
    let mut names = NameGen::new();
    assert_eq!(names.fresh_var(), "1v");
    assert_eq!(names.fresh_var(), "2v");
    for _ in 0..8 {
        names.fresh_var();
    }
    assert_eq!(names.fresh_var(), "11v");
    for _ in 0..87 {
        names.fresh_var();
    }
    assert_eq!(names.fresh_var(), "99v");
    assert_eq!(names.fresh_var(), "100v");
    for _ in 0..898 {
        names.fresh_var();
    }
    assert_eq!(names.fresh_var(), "999v");
    assert_eq!(names.fresh_var(), "1000v");
    assert_eq!(names.fresh_var(), "1001v");
}

#[test]
fn synth_literals() {
    let mut tc = TypeChecker::new();
    assert_eq!(tc.synth(&Expr::integer(42)), Ok(Type::Int));
    assert_eq!(tc.synth(&Expr::boolean(false)), Ok(Type::Bool));
}

#[test]
fn synth_identity() {
    let mut tc = TypeChecker::new();
    let got = tc.synth(&identity("x"));
    assert_eq!(got, Ok(Type::fun(Type::ex("2v"), Type::ex("2v"))));
}

#[test]
fn synth_annotated_identity_applied() {
    let mut tc = TypeChecker::new();
    let expr = Expr::app(Expr::ann(identity("x"), id_type("a")), Expr::integer(42));
    assert_eq!(tc.synth(&expr), Ok(Type::Int));
    let mut ev = Eval::new();
    assert_eq!(ev.eval(expr), Expr::integer(42));
}

#[test]
fn synth_twice() {
    let mut tc = TypeChecker::new();
    let body = Expr::app(Expr::var("f"), Expr::app(Expr::var("f"), Expr::var("x")));
    let expr = Expr::lambda("f", Expr::lambda("x", body));
    let got = tc.synth(&expr).unwrap();
    match &got {
        Type::Fun { arg, result } => match (&**arg, &**result) {
            (Type::Fun { arg: a1, result: a2 }, Type::Fun { arg: b1, result: b2 }) => {
                assert!(matches!(**a1, Type::Existential(_)));
                assert_eq!(a1, a2);
                assert_eq!(a1, b1);
                assert_eq!(a1, b2);
            }
            _ => panic!("{}", got.print()),
        },
        _ => panic!("{}", got.print()),
    }
    assert!(got.is_mono());
}

#[test]
fn synth_identity_applied() {
    let mut tc = TypeChecker::new();
    let expr = Expr::app(identity("x"), Expr::boolean(true));
    assert_eq!(tc.synth(&expr), Ok(Type::Bool));
    let mut ev = Eval::new();
    assert_eq!(ev.eval(expr), Expr::boolean(true));
}

#[test]
fn synth_identity_at_polymorphic_type() {
    let mut tc = TypeChecker::new();
    let expr = Expr::app(Expr::ann(identity("x"), id_type("a")), Expr::ann(identity("y"), id_type("b")));
    let got = tc.synth(&expr).unwrap();
    match &got {
        Type::Fun { arg, result } => {
            assert!(matches!(**arg, Type::Existential(_)));
            assert_eq!(arg, result);
        }
        _ => panic!("{}", got.print()),
    }
}

#[test]
fn synth_self_application_fails() {
    let mut tc = TypeChecker::new();
    let expr = Expr::lambda("x", Expr::app(Expr::var("x"), Expr::var("x")));
    let got = tc.synth(&expr);
    assert_eq!(
        got,
        Err(TypeError::Subtype(Type::fun(Type::ex("4v"), Type::ex("5v")), Type::ex("4v")))
    );
}

#[test]
fn synth_free_variable_fails() {
    let mut tc = TypeChecker::new();
    assert_eq!(tc.synth(&Expr::var("y")), Err(TypeError::UnknownVar(s("y"))));
}

#[test]
fn synth_is_a_function_of_the_expression() {
    let expr = Expr::lambda("f", Expr::lambda("x", Expr::app(Expr::var("f"), Expr::var("x"))));
    let first = TypeChecker::new().synth(&expr);
    let second = TypeChecker::new().synth(&expr);
    assert!(first.is_ok());
    assert_eq!(first, second);
}

#[test]
fn synth_invalid_annotation() {
    let mut tc = TypeChecker::new();
    let expr = Expr::ann(Expr::integer(1), Type::var("a"));
    assert_eq!(tc.synth(&expr), Err(TypeError::InvalidAnnotation(Type::var("a"))));
}

#[test]
fn synth_not_a_function() {
    let mut tc = TypeChecker::new();
    let expr = Expr::app(Expr::integer(1), Expr::integer(2));
    assert_eq!(tc.synth(&expr), Err(TypeError::IsNotAFunction(Type::Int)));
}

#[test]
fn synth_wrong_annotation() {
    let mut tc = TypeChecker::new();
    let expr = Expr::ann(Expr::integer(1), Type::Bool);
    assert_eq!(tc.synth(&expr), Err(TypeError::Subtype(Type::Int, Type::Bool)));
}

#[test]
fn synth_checks_lambda_against_arrow() {
    let mut tc = TypeChecker::new();
    let ty = Type::fun(Type::Int, Type::Int);
    let expr = Expr::ann(identity("x"), ty.clone());
    assert_eq!(tc.synth(&expr), Ok(ty));
}

#[test]
fn synth_gives_up_at_depth() {
    let expr = Expr::app(identity("x"), Expr::boolean(true));
    assert_eq!(TypeChecker::with_depth(0).synth(&expr), Err(TypeError::Exhausted));
    assert_eq!(TypeChecker::with_depth(3).synth(&expr), Err(TypeError::Exhausted));
    assert_eq!(TypeChecker::with_depth(64).synth(&expr), Ok(Type::Bool));
}

#[test]
fn subtype_same_atoms() {
    let mut tc = TypeChecker::new();
    let ctx = Context::new(vec![ContextElem::Universal(s("a")), ContextElem::ExVar(s("e"))]);
    assert_eq!(tc.subtype(ctx.clone(), &Type::Int, &Type::Int), Ok(ctx.clone()));
    assert_eq!(tc.subtype(ctx.clone(), &Type::Bool, &Type::Bool), Ok(ctx.clone()));
    assert_eq!(tc.subtype(ctx.clone(), &Type::var("a"), &Type::var("a")), Ok(ctx.clone()));
    assert_eq!(tc.subtype(ctx.clone(), &Type::ex("e"), &Type::ex("e")), Ok(ctx.clone()));
}

#[test]
fn subtype_mismatch() {
    let mut tc = TypeChecker::new();
    let ctx = Context::new(vec![ContextElem::Universal(s("a")), ContextElem::Universal(s("b"))]);
    assert_eq!(
        tc.subtype(ctx.clone(), &Type::Int, &Type::Bool),
        Err(TypeError::Subtype(Type::Int, Type::Bool))
    );
    assert_eq!(
        tc.subtype(ctx.clone(), &Type::var("a"), &Type::var("b")),
        Err(TypeError::Subtype(Type::var("a"), Type::var("b")))
    );
}

#[test]
fn subtype_arrows_are_contravariant() {
    let mut tc = TypeChecker::new();
    let ctx = Context::new(vec![]);
    let general = Type::fun(Type::Int, Type::poly(vec!["a"], Type::fun(Type::var("a"), Type::var("a"))));
    let special = Type::fun(Type::Int, Type::fun(Type::Int, Type::Int));
    assert_eq!(tc.subtype(ctx.clone(), &general, &special), Ok(Context::new(vec![])));
    let takes_id = Type::fun(id_type("a"), Type::Int);
    let takes_int_fn = Type::fun(Type::fun(Type::Int, Type::Int), Type::Int);
    assert_eq!(tc.subtype(ctx.clone(), &takes_int_fn, &takes_id), Ok(Context::new(vec![])));
    assert!(tc.subtype(ctx, &takes_id, &takes_int_fn).is_err());
}

#[test]
fn subtype_right_forall() {
    let mut tc = TypeChecker::new();
    let ctx = Context::new(vec![]);
    assert_eq!(tc.subtype(ctx.clone(), &id_type("a"), &id_type("b")), Ok(Context::new(vec![])));
    assert_eq!(
        tc.subtype(ctx, &Type::fun(Type::Int, Type::Int), &id_type("b")),
        Err(TypeError::Subtype(Type::var("3v"), Type::Int))
    );
}

#[test]
fn subtype_solves_an_existential() {
    let mut tc = TypeChecker::new();
    let ctx = Context::new(vec![ContextElem::ExVar(s("e"))]);
    assert_eq!(
        tc.subtype(ctx.clone(), &Type::ex("e"), &Type::Int),
        Ok(Context::new(vec![ContextElem::ExVarSolved(s("e"), Type::Int)]))
    );
    assert_eq!(
        tc.subtype(ctx, &Type::Bool, &Type::ex("e")),
        Ok(Context::new(vec![ContextElem::ExVarSolved(s("e"), Type::Bool)]))
    );
}

#[test]
fn subtype_occurs_check() {
    let mut tc = TypeChecker::new();
    let ctx = Context::new(vec![ContextElem::ExVar(s("e"))]);
    let arrow = Type::fun(Type::ex("e"), Type::Int);
    assert_eq!(
        tc.subtype(ctx, &Type::ex("e"), &arrow),
        Err(TypeError::Subtype(Type::ex("e"), arrow.clone()))
    );
}

#[test]
fn subtype_escape() {
    let mut tc = TypeChecker::new();
    let ctx = Context::new(vec![ContextElem::ExVar(s("e")), ContextElem::Universal(s("u"))]);
    assert_eq!(
        tc.subtype(ctx, &Type::ex("e"), &Type::var("u")),
        Err(TypeError::ExistentialEscaped(Context::new(vec![]), Type::var("u"), s("e")))
    );
}

#[test]
fn subtype_output_keeps_solutions_scoped() {
    let mut tc = TypeChecker::new();
    let ctx = Context::new(vec![
        ContextElem::Universal(s("u")),
        ContextElem::ExVar(s("e")),
        ContextElem::Universal(s("w")),
    ]);
    let out = tc.subtype(ctx, &Type::ex("e"), &Type::fun(Type::var("u"), Type::Int)).unwrap();
    assert!(out.wf());
    let ex = s("e");
    let (before, _) = out.split_at(&ContextElem::Universal(s("w"))).unwrap();
    let prefix = Context::new(before.to_vec());
    let solution = out.find_solved(&ex).unwrap();
    assert!(prefix.wf_type(solution));
    assert_eq!(out.apply(&Type::ex("e")), Type::fun(Type::var("u"), Type::Int));
}

#[test]
fn subtype_without_the_existential() {
    let mut tc = TypeChecker::new();
    let ctx = Context::new(vec![]);
    assert_eq!(tc.subtype(ctx, &Type::ex("e"), &Type::Int), Err(TypeError::MalformedContext));
}

#[test]
fn subtype_gives_up_at_depth() {
    let ctx = Context::new(vec![]);
    let a = Type::poly(vec!["a"], Type::var("a"));
    assert_eq!(TypeChecker::with_depth(0).subtype(ctx.clone(), &a, &Type::Int), Err(TypeError::Exhausted));
    assert_eq!(TypeChecker::with_depth(2).subtype(ctx.clone(), &a, &Type::Int), Err(TypeError::Exhausted));
    assert_eq!(TypeChecker::with_depth(3).subtype(ctx.clone(), &a, &Type::Int), Ok(Context::new(vec![])));
}

#[test]
fn instantiate_reaches_a_later_existential() {
    let mut tc = TypeChecker::new();
    let ctx = Context::new(vec![ContextElem::ExVar(s("a")), ContextElem::ExVar(s("b"))]);
    let solved = Context::new(vec![ContextElem::ExVar(s("a")), ContextElem::ExVarSolved(s("b"), Type::ex("a"))]);
    assert_eq!(tc.instantiate_l(ctx.clone(), &s("a"), &Type::ex("b")), Ok(solved.clone()));
    assert_eq!(tc.instantiate_r(ctx.clone(), &Type::ex("b"), &s("a")), Ok(solved));
    assert_eq!(
        tc.instantiate_l(ctx, &s("b"), &Type::ex("a")),
        Ok(Context::new(vec![ContextElem::ExVar(s("a")), ContextElem::ExVarSolved(s("b"), Type::ex("a"))]))
    );
}

#[test]
fn instantiate_articulates_an_arrow() {
    let mut tc = TypeChecker::new();
    let ctx = Context::new(vec![ContextElem::ExVar(s("a"))]);
    let out = tc.instantiate_l(ctx, &s("a"), &Type::fun(Type::Int, Type::Bool)).unwrap();
    assert_eq!(
        out,
        Context::new(vec![
            ContextElem::ExVarSolved(s("1v"), Type::Bool),
            ContextElem::ExVarSolved(s("2v"), Type::Int),
            ContextElem::ExVarSolved(s("a"), Type::fun(Type::ex("2v"), Type::ex("1v"))),
        ])
    );
    assert_eq!(out.apply(&Type::ex("a")), Type::fun(Type::Int, Type::Bool));
    let mut tc = TypeChecker::new();
    let ctx = Context::new(vec![ContextElem::ExVar(s("a"))]);
    let out = tc.instantiate_r(ctx, &Type::fun(Type::Int, Type::Bool), &s("a")).unwrap();
    assert_eq!(
        out,
        Context::new(vec![
            ContextElem::ExVarSolved(s("2v"), Type::Bool),
            ContextElem::ExVarSolved(s("1v"), Type::Int),
            ContextElem::ExVarSolved(s("a"), Type::fun(Type::ex("1v"), Type::ex("2v"))),
        ])
    );
}

#[test]
fn instantiate_against_a_quantifier() {
    let mut tc = TypeChecker::new();
    let ctx = Context::new(vec![ContextElem::ExVar(s("a"))]);
    let poly = Type::poly(vec!["b"], Type::var("b"));
    assert_eq!(
        tc.instantiate_l(ctx.clone(), &s("a"), &poly),
        Err(TypeError::ExistentialEscaped(Context::new(vec![]), Type::var("1v"), s("a")))
    );
    let mut tc = TypeChecker::new();
    assert_eq!(
        tc.instantiate_r(ctx.clone(), &poly, &s("a")),
        Ok(Context::new(vec![ContextElem::ExVar(s("a"))]))
    );
}

#[test]
fn check_and_infer_rules() {
    let mut tc = TypeChecker::new();
    let empty = Context::new(vec![]);
    assert_eq!(tc.check(empty.clone(), &Expr::integer(1), &Type::Int), Ok(empty.clone()));
    assert_eq!(
        tc.check(empty.clone(), &Expr::boolean(true), &Type::Int),
        Err(TypeError::Subtype(Type::Bool, Type::Int))
    );
    assert_eq!(tc.check(empty.clone(), &identity("x"), &id_type("a")), Ok(empty.clone()));
    let ctx = Context::new(vec![ContextElem::Anno(s("n"), Type::Int)]);
    assert_eq!(tc.infer(ctx.clone(), &Expr::var("n")), Ok((ctx.clone(), Type::Int)));
    assert_eq!(
        tc.infer_application(ctx.clone(), &Type::fun(Type::Int, Type::Bool), &Expr::var("n")),
        Ok((ctx.clone(), Type::Bool))
    );
    assert_eq!(
        tc.infer_application(ctx.clone(), &Type::Bool, &Expr::var("n")),
        Err(TypeError::IsNotAFunction(Type::Bool))
    );
}

#[test]
fn error_messages() {
    assert_eq!(
        TypeError::Subtype(Type::Int, Type::Bool).print(),
        "Can't figure out subtyping between: Int <: Bool"
    );
    assert_eq!(TypeError::UnknownVar(s("y")).print(), "Unknown variable: y");
    assert_eq!(TypeError::InvalidAnnotation(Type::var("a")).print(), "a is not a valid annotation here.");
    assert_eq!(TypeError::IsNotAFunction(Type::Int).print(), "Int is not a function");
    assert_eq!(
        TypeError::ExistentialEscaped(Context::new(vec![]), Type::var("u"), s("e")).print(),
        "An existential escaped, go get it! {\n} u e"
    );
    assert!(TypeError::Exhausted.print().len() > 0);
    assert!(TypeError::MalformedContext.print().len() > 0);
    assert_ne!(TypeError::Exhausted, TypeError::MalformedContext);
}

#[test]
fn synth_is_the_same_at_greater_depth() {
    let body = Expr::app(Expr::var("f"), Expr::app(Expr::var("f"), Expr::var("x")));
    let expr = Expr::lambda("f", Expr::lambda("x", body));
    let shallow = TypeChecker::with_depth(64).synth(&expr);
    let deep = TypeChecker::with_depth(4096).synth(&expr);
    assert!(shallow.is_ok());
    assert_eq!(shallow, deep);
    assert_eq!(shallow, TypeChecker::new().synth(&expr));
}

#[test]
fn synth_shadowed_binders() {
    // A lambda whose type is inferred gets a fresh name for its binder.
    let inferred = Expr::lambda("x", Expr::lambda("x", Expr::var("x")));
    let got = TypeChecker::new().synth(&inferred).unwrap();
    match &got {
        Type::Fun { arg, result } => match &**result {
            Type::Fun { arg: inner, result: last } => {
                assert_eq!(inner, last);
                assert_ne!(arg, inner);
            }
            _ => panic!("{}", got.print()),
        },
        _ => panic!("{}", got.print()),
    }
    // A lambda that is checked keeps its binder: the second annotation of
    // the same name and type hides the first, and the scope of the first
    // cannot be left.
    let ty = Type::fun(Type::Int, Type::fun(Type::Int, Type::Int));
    let checked = Expr::ann(inferred, ty);
    assert_eq!(TypeChecker::new().synth(&checked), Err(TypeError::MalformedContext));
    // Where the types differ, the first annotation of the name is found.
    let ty = Type::fun(Type::Int, Type::fun(Type::Bool, Type::Bool));
    let checked = Expr::ann(Expr::lambda("x", Expr::lambda("x", Expr::var("x"))), ty);
    assert_eq!(TypeChecker::new().synth(&checked), Err(TypeError::Subtype(Type::Int, Type::Bool)));
}

#[test]
fn subtype_with_a_marker_name_that_is_yet_to_be_made() {
    // The rigid variable bears the name that the quantifier is about to
    // be given: leaving the scope of the quantifier cuts the context off
    // before the older variable.
    let mut tc = TypeChecker::new();
    let ctx = Context::new(vec![ContextElem::Universal(s("1v"))]);
    let out = tc.subtype(ctx, &Type::Int, &Type::poly(vec!["a"], Type::Int));
    assert_eq!(out, Ok(Context::new(vec![])));
}

#[test]
fn subtype_output_extends_the_input() {
    let mut tc = TypeChecker::new();
    let ctx = Context::new(vec![
        ContextElem::Universal(s("u")),
        ContextElem::ExVar(s("e")),
        ContextElem::Marker(s("m")),
        ContextElem::ExVar(s("f")),
    ]);
    let left = Type::ex("e");
    let right = Type::fun(Type::var("u"), Type::poly(vec!["a"], Type::fun(Type::var("a"), Type::var("a"))));
    let out = tc.subtype(ctx.clone(), &Type::fun(Type::var("u"), Type::Int), &Type::ex("f")).unwrap();
    assert!(out.wf());
    assert_eq!(out.foralls(), ctx.foralls());
    assert_eq!(out.markers(), ctx.markers());
    assert!(out.existentials().contains(&s("e")) && out.existentials().contains(&s("f")));
    assert!(out.find_solved(&s("f")).is_some());
    assert!(tc.subtype(ctx, &left, &right).is_err());
}

#[test]
fn synth_after_more_names_gives_the_names_shifted() {
    let expr = identity("x");
    let mut first = TypeChecker::new();
    assert_eq!(first.synth(&expr), Ok(Type::fun(Type::ex("2v"), Type::ex("2v"))));
    // The same checker has made three names by now.
    assert_eq!(first.synth(&expr), Ok(Type::fun(Type::ex("5v"), Type::ex("5v"))));
    assert_eq!(first.synth(&expr), Ok(Type::fun(Type::ex("8v"), Type::ex("8v"))));
    let failing = Expr::lambda("x", Expr::app(Expr::var("x"), Expr::var("x")));
    let mut second = TypeChecker::new();
    second.synth(&expr).unwrap();
    assert_eq!(
        second.synth(&failing),
        Err(TypeError::Subtype(Type::fun(Type::ex("7v"), Type::ex("8v")), Type::ex("7v")))
    );
}

#[test]
fn quantifier_without_variables() {
    let mut tc = TypeChecker::new();
    let ctx = Context::new(vec![ContextElem::ExVar(s("e"))]);
    let empty = Type::poly(vec![], Type::Int);
    assert_eq!(tc.subtype(ctx.clone(), &Type::Int, &empty), Ok(ctx.clone()));
    assert_eq!(tc.subtype(ctx.clone(), &empty, &Type::Int), Ok(ctx.clone()));
    assert_eq!(tc.check(ctx.clone(), &Expr::integer(1), &empty), Ok(ctx.clone()));
    assert_eq!(
        tc.instantiate_r(ctx.clone(), &empty, &s("e")),
        Ok(Context::new(vec![ContextElem::ExVarSolved(s("e"), Type::Int)]))
    );
    assert_eq!(empty.print(), "\u{2200}. Int");
    assert!(!empty.is_mono());
}

#[test]
fn synth_nested_applications() {
    let mut expr = Expr::integer(1);
    for _ in 0..100 {
        expr = Expr::app(identity("x"), expr);
    }
    assert_eq!(TypeChecker::new().synth(&expr), Ok(Type::Int));
    assert_eq!(Eval::new().eval(expr), Expr::integer(1));
}

#[test]
fn synth_deeply_nested_applications() {
    let mut expr = Expr::integer(1);
    for _ in 0..400 {
        expr = Expr::app(identity("x"), expr);
    }
    let shallow = TypeChecker::with_depth(256).synth(&expr);
    let deeper = TypeChecker::with_depth(8192).synth(&expr);
    assert_eq!(shallow, Err(TypeError::Exhausted));
    assert_eq!(deeper, Ok(Type::Int));
    // What is reached at the depth of a new checker is what is reached at
    // any greater depth.
    match TypeChecker::new().synth(&expr) {
        Err(TypeError::Exhausted) => {}
        reached => assert_eq!(reached, deeper),
    }
}
