use bidir::context::{Context, ContextElem};
use bidir::types::Type;

fn s(text: &str) -> String {
    text.to_string()
}

fn sample() -> Context {
    Context::new(vec![
        ContextElem::Universal(s("x")),
        ContextElem::ExVar(s("alpha")),
        ContextElem::Marker(s("m")),
        ContextElem::ExVarSolved(s("beta"), Type::ex("alpha")),
        ContextElem::Anno(s("var"), Type::Int),
    ])
}

#[test]
fn solve_ex() {
    let ctx = Context::new(vec![
        ContextElem::Universal("x".to_string()),
        ContextElem::ExVar("alpha".to_string()),
        ContextElem::Anno("var".to_string(), Type::Int),
    ]);
    let expected = Context::new(vec![
        ContextElem::Universal("x".to_string()),
        ContextElem::ExVarSolved("alpha".to_string(), Type::Var("x".to_string())),
        ContextElem::Anno("var".to_string(), Type::Int),
    ]);
    let new_ctx = ctx.solve(&"alpha".to_string(), Type::Var("x".to_string()));
    assert_eq!(new_ctx, Some(expected));
}

#[test]
fn solve_refuses_what_is_declared_later() {
    let ctx = Context::new(vec![
        ContextElem::ExVar(s("alpha")),
        ContextElem::Universal(s("x")),
    ]);
    assert_eq!(ctx.solve(&s("alpha"), Type::var("x")), None);
    assert_eq!(ctx.solve(&s("alpha"), Type::ex("alpha")), None);
}

#[test]
fn push_appends() {
    let mut ctx = Context::new(vec![ContextElem::Universal(s("x"))]);
    ctx.push(ContextElem::ExVar(s("a")));
    ctx.push_elems(vec![ContextElem::Marker(s("m")), ContextElem::ExVar(s("b"))]);
    assert_eq!(
        ctx,
        Context::new(vec![
            ContextElem::Universal(s("x")),
            ContextElem::ExVar(s("a")),
            ContextElem::Marker(s("m")),
            ContextElem::ExVar(s("b")),
        ])
    );
    assert_eq!(ctx.len(), 4);
}

#[test]
fn split_at_keeps_the_element_in_the_rest() {
    let ctx = sample();
    let found = ctx.split_at(&ContextElem::Marker(s("m")));
    let (left, right) = found.unwrap();
    assert_eq!(left.to_vec(), vec![ContextElem::Universal(s("x")), ContextElem::ExVar(s("alpha"))]);
    assert_eq!(
        right.to_vec(),
        vec![
            ContextElem::Marker(s("m")),
            ContextElem::ExVarSolved(s("beta"), Type::ex("alpha")),
            ContextElem::Anno(s("var"), Type::Int),
        ]
    );
    assert!(ctx.split_at(&ContextElem::Marker(s("n"))).is_none());
}

#[test]
fn split_at_takes_the_first_of_equal_elements() {
    let ctx = Context::new(vec![
        ContextElem::Marker(s("m")),
        ContextElem::Universal(s("x")),
        ContextElem::Marker(s("m")),
    ]);
    let (left, right) = ctx.split_at(&ContextElem::Marker(s("m"))).unwrap();
    assert_eq!(left.len(), 0);
    assert_eq!(right.len(), 3);
}

#[test]
fn split_at_ex_finds_unsolved_only() {
    let ctx = sample();
    let (left, found, right) = ctx.split_at_ex(&s("alpha")).unwrap();
    assert_eq!(left.to_vec(), vec![ContextElem::Universal(s("x"))]);
    assert_eq!(*found, ContextElem::ExVar(s("alpha")));
    assert_eq!(right.len(), 3);
    assert!(ctx.split_at_ex(&s("beta")).is_none());
    assert!(ctx.split_at_ex(&s("x")).is_none());
}

#[test]
fn elem_tells_membership() {
    let ctx = sample();
    assert!(ctx.elem(&ContextElem::Anno(s("var"), Type::Int)));
    assert!(!ctx.elem(&ContextElem::Anno(s("var"), Type::Bool)));
    assert!(!ctx.elem(&ContextElem::ExVar(s("beta"))));
}

#[test]
fn insert_at_ex_replaces_the_existential() {
    let ctx = sample();
    let out = ctx.insert_at_ex(&s("alpha"), vec![ContextElem::ExVar(s("a2")), ContextElem::ExVar(s("a1"))]);
    assert_eq!(
        out,
        Context::new(vec![
            ContextElem::Universal(s("x")),
            ContextElem::ExVar(s("a2")),
            ContextElem::ExVar(s("a1")),
            ContextElem::Marker(s("m")),
            ContextElem::ExVarSolved(s("beta"), Type::ex("alpha")),
            ContextElem::Anno(s("var"), Type::Int),
        ])
    );
}

#[test]
fn drop_marker_cuts_before_the_marker() {
    let mut ctx = sample();
    ctx.drop_marker(ContextElem::Marker(s("m")));
    assert_eq!(ctx, Context::new(vec![ContextElem::Universal(s("x")), ContextElem::ExVar(s("alpha"))]));
    ctx.drop_marker(ContextElem::Universal(s("x")));
    assert_eq!(ctx, Context::new(vec![]));
}

#[test]
fn break_marker_leaves_the_marker_out() {
    let ctx = sample();
    let (left, right) = ctx.break_marker(ContextElem::Marker(s("m")));
    assert_eq!(left, vec![ContextElem::Universal(s("x")), ContextElem::ExVar(s("alpha"))]);
    assert_eq!(
        right,
        vec![ContextElem::ExVarSolved(s("beta"), Type::ex("alpha")), ContextElem::Anno(s("var"), Type::Int)]
    );
}

#[test]
fn listings_by_kind() {
    let ctx = sample();
    assert_eq!(ctx.foralls(), vec![s("x")]);
    assert_eq!(ctx.existentials(), vec![s("alpha"), s("beta")]);
    assert_eq!(ctx.markers(), vec![s("m")]);
    assert_eq!(ctx.vars(), vec![s("var")]);
}

#[test]
fn find_solved_and_find_var() {
    let ctx = sample();
    assert_eq!(ctx.find_solved(&s("beta")), Some(&Type::ex("alpha")));
    assert_eq!(ctx.find_solved(&s("alpha")), None);
    assert_eq!(ctx.find_var(&s("var")), Some(&Type::Int));
    assert_eq!(ctx.find_var(&s("x")), None);
}

#[test]
fn find_var_takes_the_first_annotation() {
    let ctx = Context::new(vec![
        ContextElem::Anno(s("x"), Type::Int),
        ContextElem::Anno(s("x"), Type::Bool),
    ]);
    assert_eq!(ctx.find_var(&s("x")), Some(&Type::Int));
}

#[test]
fn existentials_ordered_whatever_is_solved() {
    let ctx = sample();
    assert!(ctx.existentials_ordered(&s("alpha"), &s("beta")));
    assert!(!ctx.existentials_ordered(&s("beta"), &s("alpha")));
    assert!(!ctx.existentials_ordered(&s("alpha"), &s("alpha")));
    assert!(!ctx.existentials_ordered(&s("alpha"), &s("gamma")));
    assert!(!ctx.existentials_ordered(&s("gamma"), &s("alpha")));
}

#[test]
fn wf_type_by_kind() {
    let ctx = sample();
    assert!(ctx.wf_type(&Type::Int));
    assert!(ctx.wf_type(&Type::var("x")));
    assert!(!ctx.wf_type(&Type::var("y")));
    assert!(ctx.wf_type(&Type::ex("alpha")));
    assert!(ctx.wf_type(&Type::ex("beta")));
    assert!(!ctx.wf_type(&Type::ex("gamma")));
    assert!(ctx.wf_type(&Type::fun(Type::var("x"), Type::ex("beta"))));
    assert!(!ctx.wf_type(&Type::fun(Type::var("x"), Type::var("y"))));
    assert!(ctx.wf_type(&Type::poly(vec!["y"], Type::fun(Type::var("x"), Type::var("y")))));
    assert!(!ctx.wf_type(&Type::poly(vec!["y"], Type::var("z"))));
}

#[test]
fn wf_type_parts() {
    let ctx = sample();
    assert!(ctx.u_var_wf(&s("x")));
    assert!(!ctx.u_var_wf(&s("alpha")));
    assert!(ctx.evar_wf(&s("alpha")));
    assert!(!ctx.evar_wf(&s("beta")));
    assert!(ctx.solved_evar_wf(&s("beta")));
    assert!(!ctx.solved_evar_wf(&s("alpha")));
    assert!(ctx.arrow_wf(&Type::Int, &Type::var("x")));
    assert!(!ctx.arrow_wf(&Type::Int, &Type::var("y")));
    assert!(ctx.forall_wf(&vec![s("y")], &Type::var("y")));
    assert!(!ctx.forall_wf(&vec![s("y")], &Type::var("z")));
}

#[test]
fn wf_accepts_a_scoped_context() {
    assert!(Context::new(vec![]).wf());
    assert!(sample().wf());
    let marked = Context::new(vec![ContextElem::Marker(s("a")), ContextElem::ExVar(s("a"))]);
    assert!(marked.wf());
}

#[test]
fn wf_walks_the_whole_context() {
    let twice = Context::new(vec![
        ContextElem::Universal(s("x")),
        ContextElem::Universal(s("x")),
        ContextElem::ExVar(s("a")),
    ]);
    assert!(!twice.wf());
    let early = Context::new(vec![
        ContextElem::ExVarSolved(s("a"), Type::ex("b")),
        ContextElem::ExVar(s("b")),
    ]);
    assert!(!early.wf());
    let unscoped = Context::new(vec![ContextElem::Anno(s("v"), Type::var("x")), ContextElem::Universal(s("x"))]);
    assert!(!unscoped.wf());
    let again = Context::new(vec![ContextElem::ExVar(s("a")), ContextElem::ExVarSolved(s("a"), Type::Int)]);
    assert!(!again.wf());
    let used = Context::new(vec![ContextElem::ExVar(s("a")), ContextElem::Marker(s("a"))]);
    assert!(!used.wf());
    let poly = Context::new(vec![ContextElem::ExVarSolved(s("a"), Type::poly(vec!["b"], Type::var("b")))]);
    assert!(!poly.wf());
}

#[test]
fn wf_mut_takes_elements_off() {
    let mut ctx = sample();
    assert!(ctx.wf_mut());
    assert_eq!(ctx.len(), 0);
}

#[test]
fn apply_follows_solutions() {
    let ctx = Context::new(vec![
        ContextElem::ExVar(s("a")),
        ContextElem::ExVarSolved(s("b"), Type::fun(Type::ex("a"), Type::Int)),
        ContextElem::ExVarSolved(s("c"), Type::ex("b")),
    ]);
    assert_eq!(ctx.apply(&Type::ex("c")), Type::fun(Type::ex("a"), Type::Int));
    assert_eq!(ctx.apply(&Type::ex("a")), Type::ex("a"));
    assert_eq!(
        ctx.apply(&Type::poly(vec!["v"], Type::fun(Type::var("v"), Type::ex("b")))),
        Type::poly(vec!["v"], Type::fun(Type::var("v"), Type::fun(Type::ex("a"), Type::Int)))
    );
}

#[test]
fn apply_twice_is_apply_once() {
    let ctx = Context::new(vec![
        ContextElem::ExVar(s("a")),
        ContextElem::ExVarSolved(s("b"), Type::fun(Type::ex("a"), Type::Int)),
        ContextElem::ExVarSolved(s("c"), Type::ex("b")),
    ]);
    assert!(ctx.wf());
    let ty = Type::fun(Type::ex("c"), Type::fun(Type::ex("b"), Type::ex("a")));
    let once = ctx.apply(&ty);
    assert_eq!(ctx.apply(&once), once);
    assert_eq!(
        once,
        Type::fun(
            Type::fun(Type::ex("a"), Type::Int),
            Type::fun(Type::fun(Type::ex("a"), Type::Int), Type::ex("a"))
        )
    );
}

#[test]
fn print_elements() {
    assert_eq!(ContextElem::Universal(s("u")).print(), "u");
    assert_eq!(ContextElem::ExVar(s("a")).print(), "{a}");
    assert_eq!(ContextElem::ExVarSolved(s("a"), Type::fun(Type::Int, Type::Bool)).print(), "{a} = Int -> Bool");
    assert_eq!(ContextElem::Marker(s("m")).print(), "|> m");
    assert_eq!(ContextElem::Anno(s("x"), Type::Int).print(), "x : Int");
}

#[test]
fn print_context() {
    assert_eq!(Context::new(vec![]).print(), "{\n}");
    let ctx = Context::new(vec![ContextElem::Universal(s("u")), ContextElem::ExVar(s("a"))]);
    assert_eq!(ctx.print(), "{\n  u,\n  {a},\n}");
}

#[test]
fn context_clone_and_equality() {
    let ctx = sample();
    assert_eq!(ctx.clone(), ctx);
    assert_ne!(ctx, Context::new(vec![]));
}

#[test]
fn wf_mut_stops_before_the_element_that_fails() {
    let mut ctx = Context::new(vec![
        ContextElem::Universal(s("a")),
        ContextElem::ExVarSolved(s("b"), Type::var("zz")),
        ContextElem::ExVar(s("c")),
    ]);
    assert!(!ctx.wf_mut());
    assert_eq!(ctx, Context::new(vec![ContextElem::Universal(s("a"))]));
}
