use bidir::names::is_generated;
use bidir::types::Type;

fn s(text: &str) -> String {
    text.to_string()
}

#[test]
fn subst_mut() {
    let mut ty = Type::var("x");
    ty.subst_mut(&"x".to_string(), &Type::Int);
    assert_eq!(ty, Type::Int);
}

#[test]
fn subst_mut_fun() {
    let mut ty = Type::fun(Type::var("a"), Type::var("b"));
    ty.subst_mut(&"a".to_string(), &Type::Int);
    assert_eq!(ty, Type::fun(Type::Int, Type::var("b")));
}

#[test]
fn mono_primitives_and_names() {
    assert!(Type::Int.is_mono());
    assert!(Type::Bool.is_mono());
    assert!(Type::var("a").is_mono());
    assert!(Type::ex("a").is_mono());
}

#[test]
fn mono_looks_under_arrows() {
    assert!(Type::fun(Type::Int, Type::fun(Type::var("a"), Type::Bool)).is_mono());
    assert!(!Type::poly(vec!["a"], Type::var("a")).is_mono());
    assert!(!Type::fun(Type::Int, Type::poly(vec!["a"], Type::var("a"))).is_mono());
    assert!(!Type::fun(Type::poly(vec!["a"], Type::var("a")), Type::Int).is_mono());
}

#[test]
fn free_vars_of_names() {
    assert_eq!(Type::Int.free_vars(), Vec::<String>::new());
    assert_eq!(Type::var("a").free_vars(), vec![s("a")]);
    assert_eq!(Type::ex("e").free_vars(), vec![s("e")]);
}

#[test]
fn free_vars_holds_each_name_once() {
    let ty = Type::fun(Type::var("a"), Type::fun(Type::ex("b"), Type::var("a")));
    assert_eq!(ty.free_vars(), vec![s("a"), s("b")]);
}

#[test]
fn free_vars_leaves_out_bound_names() {
    let ty = Type::poly(vec!["a", "c"], Type::fun(Type::var("a"), Type::fun(Type::var("b"), Type::ex("c"))));
    assert_eq!(ty.free_vars(), vec![s("b")]);
}

#[test]
fn subst_replaces_variables_and_existentials() {
    let ty = Type::fun(Type::var("a"), Type::ex("a"));
    assert_eq!(ty.subst(&s("a"), &Type::Bool), Type::fun(Type::Bool, Type::Bool));
    assert_eq!(ty.subst(&s("b"), &Type::Bool), ty);
}

#[test]
fn subst_stops_at_a_binder_of_the_name() {
    let ty = Type::poly(vec!["a"], Type::fun(Type::var("a"), Type::var("b")));
    assert_eq!(ty.subst(&s("a"), &Type::Int), ty);
    assert_eq!(
        ty.subst(&s("b"), &Type::Int),
        Type::poly(vec!["a"], Type::fun(Type::var("a"), Type::Int))
    );
}

#[test]
fn subst_with_a_monotype_keeps_a_monotype() {
    let ty = Type::fun(Type::var("a"), Type::fun(Type::ex("b"), Type::Int));
    let replacement = Type::fun(Type::Bool, Type::var("c"));
    assert!(ty.is_mono() && replacement.is_mono());
    assert!(ty.subst(&s("a"), &replacement).is_mono());
    assert!(ty.subst(&s("b"), &replacement).is_mono());
}

#[test]
fn subst_free_vars_are_bounded() {
    let ty = Type::fun(Type::var("a"), Type::poly(vec!["b"], Type::fun(Type::var("b"), Type::var("c"))));
    let replacement = Type::fun(Type::var("d"), Type::ex("e"));
    let out = ty.subst(&s("a"), &replacement);
    assert_eq!(out.free_vars(), vec![s("d"), s("e"), s("c")]);
    let allowed = vec![s("c"), s("d"), s("e")];
    for name in out.free_vars() {
        assert!(allowed.contains(&name));
    }
    assert!(!out.free_vars().contains(&s("a")));
}

#[test]
fn subst_may_bring_the_name_back() {
    let ty = Type::var("a");
    let out = ty.subst(&s("a"), &Type::fun(Type::var("a"), Type::Int));
    assert_eq!(out.free_vars(), vec![s("a")]);
}

#[test]
fn with_solution_goes_under_quantifiers() {
    let ty = Type::poly(vec!["a"], Type::fun(Type::var("a"), Type::ex("a")));
    assert_eq!(
        ty.with_solution(&s("a"), &Type::Int),
        Type::poly(vec!["a"], Type::fun(Type::var("a"), Type::Int))
    );
}

#[test]
fn print_primitives_and_names() {
    assert_eq!(Type::Int.print(), "Int");
    assert_eq!(Type::Bool.print(), "Bool");
    assert_eq!(Type::var("a").print(), "a");
    assert_eq!(Type::ex("a").print(), "{a}");
}

#[test]
fn print_arrows_associate_to_the_right() {
    let right = Type::fun(Type::var("a"), Type::fun(Type::var("b"), Type::var("c")));
    assert_eq!(right.print(), "a -> b -> c");
    let left = Type::fun(Type::fun(Type::var("a"), Type::var("b")), Type::var("c"));
    assert_eq!(left.print(), "(a -> b) -> c");
}

#[test]
fn print_quantifiers() {
    let ty = Type::poly(vec!["a", "b"], Type::fun(Type::var("a"), Type::var("b")));
    assert_eq!(ty.print(), "\u{2200} a b. a -> b");
    let nested = Type::fun(Type::poly(vec!["a"], Type::var("a")), Type::Int);
    assert_eq!(nested.print(), "\u{2200} a. a -> Int");
}

#[test]
fn clone_and_equality() {
    let ty = Type::poly(vec!["a"], Type::fun(Type::var("a"), Type::ex("b")));
    assert_eq!(ty.clone(), ty);
    assert_ne!(ty, Type::poly(vec!["a"], Type::fun(Type::var("a"), Type::ex("c"))));
    assert_ne!(Type::var("a"), Type::ex("a"));
    assert_ne!(Type::Int, Type::Bool);
}

#[test]
fn generated_names() {
    for name in ["0v", "1v", "9v", "10v", "123v", "4294967296v"] {
        assert!(is_generated(name));
    }
    for name in ["", "v", "x", "1", "01v", "00v", "1x", "xv", "1vv", "v1", "1 v", "-1v", "1V"] {
        assert!(!is_generated(name));
    }
}

#[test]
fn surface_types() {
    assert!(Type::Int.is_surface());
    assert!(Type::fun(Type::var("a"), Type::poly(vec!["b"], Type::var("b"))).is_surface());
    assert!(!Type::ex("a").is_surface());
    assert!(!Type::fun(Type::Int, Type::ex("a")).is_surface());
    assert!(!Type::poly(vec!["a", "7v"], Type::var("a")).is_surface());
}
