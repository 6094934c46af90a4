//! Determinism: the rules go along with the shifting of generated names.
//! So what synthesis gives for an expression that holds no generated name
//! depends on the number of names made before only in the names that it
//! makes: made later, they are the names made earlier, shifted.

use crate::context::{applied, as_universals, before, ordered, type_wf, Elem};
use crate::error::Failure;
use crate::expr::{Literal, Term};
use crate::names::{fresh_name, fresh_names, generated};
use crate::renaming::{
    lemma_shifted_annotation, lemma_shifted_applied, lemma_shifted_before, lemma_shifted_contains,
    lemma_shifted_ctx_parts, lemma_shifted_free_vars, lemma_shifted_fresh,
    lemma_shifted_fresh_names, lemma_shifted_injective, lemma_shifted_inserted,
    lemma_shifted_ordered, lemma_shifted_subst, lemma_shifted_ty_injective,
    lemma_shifted_type_wf, lemma_shifted_universals, shifted, shifted_ctx, shifted_elem,
    shifted_names, shifted_ty,
};
use crate::rules::{
    arrow, articulated, as_existentials, as_marked_existentials, check_rule, dropped,
    dropped_to_first, infer_application_rule, infer_rule, instantiate_l_rule, instantiate_r_rule,
    literal_of, named, reach, renamed, same_atom, solve_to, subtype_rule, synth_rule,
};
use crate::types::Ty;
use vstd::prelude::*;

verus! {

/// The expression with its names shifted.
pub open spec fn shifted_term(delta: nat, e: Term) -> Term
    decreases e,
{
    match e {
        Term::Literal(lit) => Term::Literal(lit),
        Term::Var(x) => Term::Var(shifted(delta, x)),
        Term::Lambda { binder, body } => Term::Lambda {
            binder: shifted(delta, binder),
            body: Box::new(shifted_term(delta, *body)),
        },
        Term::App { func, arg } => Term::App {
            func: Box::new(shifted_term(delta, *func)),
            arg: Box::new(shifted_term(delta, *arg)),
        },
        Term::Ann { expr, ty } => Term::Ann {
            expr: Box::new(shifted_term(delta, *expr)),
            ty: shifted_ty(delta, ty),
        },
    }
}

/// The failure with its names shifted.
pub open spec fn shifted_failure(delta: nat, f: Failure) -> Failure {
    match f {
        Failure::Subtype(a, b) => Failure::Subtype(shifted_ty(delta, a), shifted_ty(delta, b)),
        Failure::UnknownVar(x) => Failure::UnknownVar(shifted(delta, x)),
        Failure::InvalidAnnotation(t) => Failure::InvalidAnnotation(shifted_ty(delta, t)),
        Failure::IsNotAFunction(t) => Failure::IsNotAFunction(shifted_ty(delta, t)),
        Failure::ExistentialEscaped(c, t, a) => Failure::ExistentialEscaped(
            shifted_ctx(delta, c),
            shifted_ty(delta, t),
            shifted(delta, a),
        ),
        Failure::Exhausted => Failure::Exhausted,
        Failure::MalformedContext => Failure::MalformedContext,
    }
}

/// What a rule gives, a context or a failure, with the names shifted.
pub open spec fn shifted_result(delta: nat, r: Result<Seq<Elem>, Failure>) -> Result<Seq<Elem>, Failure> {
    match r {
        Ok(ctx) => Ok(shifted_ctx(delta, ctx)),
        Err(f) => Err(shifted_failure(delta, f)),
    }
}

/// What a rule gives, a context with a type or a failure, with the names
/// shifted.
pub open spec fn shifted_typed(delta: nat, r: Result<(Seq<Elem>, Ty), Failure>) -> Result<
    (Seq<Elem>, Ty),
    Failure,
> {
    match r {
        Ok((ctx, ty)) => Ok((shifted_ctx(delta, ctx), shifted_ty(delta, ty))),
        Err(f) => Err(shifted_failure(delta, f)),
    }
}

/// What synthesis gives, a type or a failure, with the names shifted.
pub open spec fn shifted_type(delta: nat, r: Result<Ty, Failure>) -> Result<Ty, Failure> {
    match r {
        Ok(ty) => Ok(shifted_ty(delta, ty)),
        Err(f) => Err(shifted_failure(delta, f)),
    }
}

/// Whether an expression holds no generated name.
pub open spec fn plain_term(e: Term) -> bool
    decreases e,
{
    match e {
        Term::Literal(_) => true,
        Term::Var(x) => !generated(x),
        Term::Lambda { binder, body } => !generated(binder) && plain_term(*body),
        Term::App { func, arg } => plain_term(*func) && plain_term(*arg),
        Term::Ann { expr, ty } => plain_term(*expr) && plain_type(ty),
    }
}

/// Whether a type holds no generated name.
pub open spec fn plain_type(ty: Ty) -> bool
    decreases ty,
{
    match ty {
        Ty::Var(v) => !generated(v),
        Ty::Existential(a) => !generated(a),
        Ty::Poly { vars, body } => (forall|i: int| 0 <= i < vars.len() ==> !generated(#[trigger] vars[i]))
            && plain_type(*body),
        Ty::Fun { arg, result } => plain_type(*arg) && plain_type(*result),
        _ => true,
    }
}

/// Shifting leaves a type as it is that holds no generated name.
pub proof fn lemma_plain_type_shifted(delta: nat, ty: Ty)
    requires
        plain_type(ty),
    ensures
        shifted_ty(delta, ty) == ty,
    decreases ty,
{
    match ty {
        Ty::Poly { vars, body } => {
            lemma_plain_type_shifted(delta, *body);
            assert(shifted_names(delta, vars) =~= vars);
        },
        Ty::Fun { arg, result } => {
            lemma_plain_type_shifted(delta, *arg);
            lemma_plain_type_shifted(delta, *result);
        },
        _ => {},
    }
}

/// Shifting leaves an expression as it is that holds no generated name.
pub proof fn lemma_plain_term_shifted(delta: nat, e: Term)
    requires
        plain_term(e),
    ensures
        shifted_term(delta, e) == e,
    decreases e,
{
    match e {
        Term::Lambda { binder, body } => {
            lemma_plain_term_shifted(delta, *body);
        },
        Term::App { func, arg } => {
            lemma_plain_term_shifted(delta, *func);
            lemma_plain_term_shifted(delta, *arg);
        },
        Term::Ann { expr, ty } => {
            lemma_plain_term_shifted(delta, *expr);
            lemma_plain_type_shifted(delta, ty);
        },
        _ => {},
    }
}

/// The substitution of a variable of an expression goes along with
/// shifting.
pub proof fn lemma_shifted_term_subst(delta: nat, e: Term, var: Seq<char>, replacement: Term)
    ensures
        shifted_term(delta, e.subst(var, replacement)) == shifted_term(delta, e).subst(
            shifted(delta, var),
            shifted_term(delta, replacement),
        ),
    decreases e,
{
    match e {
        Term::Var(x) => {
            if shifted(delta, x) == shifted(delta, var) {
                lemma_shifted_injective(delta, x, var);
            }
        },
        Term::Lambda { binder, body } => {
            if shifted(delta, binder) == shifted(delta, var) {
                lemma_shifted_injective(delta, binder, var);
            }
            if binder != var {
                lemma_shifted_term_subst(delta, *body, var, replacement);
            }
        },
        Term::App { func, arg } => {
            lemma_shifted_term_subst(delta, *func, var, replacement);
            lemma_shifted_term_subst(delta, *arg, var, replacement);
        },
        Term::Ann { expr, ty } => {
            lemma_shifted_term_subst(delta, *expr, var, replacement);
        },
        _ => {},
    }
}

/// The renaming of the variables of a quantifier goes along with
/// shifting.
pub proof fn lemma_shifted_renamed(
    delta: nat,
    body: Ty,
    vars: Seq<Seq<char>>,
    fresh: Seq<Seq<char>>,
    existential: bool,
)
    ensures
        shifted_ty(delta, renamed(body, vars, fresh, existential)) == renamed(
            shifted_ty(delta, body),
            shifted_names(delta, vars),
            shifted_names(delta, fresh),
            existential,
        ),
    decreases vars.len(),
{
    if vars.len() == 0 || fresh.len() == 0 {
    } else {
        let inner = renamed(body, vars.drop_last(), fresh.drop_last(), existential);
        lemma_shifted_renamed(delta, body, vars.drop_last(), fresh.drop_last(), existential);
        lemma_shifted_subst(delta, inner, vars.last(), named(fresh.last(), existential));
        assert(shifted_names(delta, vars).drop_last() =~= shifted_names(delta, vars.drop_last()));
        assert(shifted_names(delta, fresh).drop_last() =~= shifted_names(delta, fresh.drop_last()));
    }
}

/// The elements that a quantifier pushes go along with shifting.
pub proof fn lemma_shifted_pushed(delta: nat, names: Seq<Seq<char>>)
    ensures
        shifted_ctx(delta, as_universals(names)) == as_universals(shifted_names(delta, names)),
        shifted_ctx(delta, as_existentials(names)) == as_existentials(shifted_names(delta, names)),
        shifted_ctx(delta, as_marked_existentials(names)) == as_marked_existentials(
            shifted_names(delta, names),
        ),
{
    lemma_shifted_universals(delta, names);
    assert(shifted_ctx(delta, as_existentials(names)) =~= as_existentials(shifted_names(delta, names)));
    assert(shifted_ctx(delta, as_marked_existentials(names)) =~= as_marked_existentials(
        shifted_names(delta, names),
    ));
}

/// Leaving a scope goes along with shifting.
pub proof fn lemma_shifted_dropped(delta: nat, ctx: Seq<Elem>, marker: Elem, pushed: Seq<Elem>)
    ensures
        dropped(shifted_ctx(delta, ctx), shifted_elem(delta, marker)) == shifted_result(
            delta,
            dropped(ctx, marker),
        ),
        dropped_to_first(shifted_ctx(delta, ctx), shifted_ctx(delta, pushed)) == shifted_result(
            delta,
            dropped_to_first(ctx, pushed),
        ),
{
    lemma_shifted_contains(delta, ctx, marker);
    if ctx.contains(marker) {
        lemma_shifted_before(delta, ctx, marker);
    }
    if pushed.len() > 0 {
        lemma_shifted_contains(delta, ctx, pushed[0]);
        if ctx.contains(pushed[0]) {
            lemma_shifted_before(delta, ctx, pushed[0]);
        }
    }
}

/// Solving an existential goes along with shifting.
pub proof fn lemma_shifted_solve(delta: nat, ctx: Seq<Elem>, a: Seq<char>, b: Seq<char>, ty: Ty)
    ensures
        reach(shifted_ctx(delta, ctx), shifted(delta, a), shifted(delta, b)) == shifted_result(
            delta,
            reach(ctx, a, b),
        ),
        solve_to(shifted_ctx(delta, ctx), shifted(delta, a), shifted_ty(delta, ty)) == shifted_result(
            delta,
            solve_to(ctx, a, ty),
        ),
{
    lemma_shifted_contains(delta, ctx, Elem::ExVar(a));
    lemma_shifted_contains(delta, ctx, Elem::ExVar(b));
    if ctx.contains(Elem::ExVar(b)) {
        let prefix = before(ctx, Elem::ExVar(b));
        let to = Ty::Existential(a);
        lemma_shifted_before(delta, ctx, Elem::ExVar(b));
        lemma_shifted_type_wf(delta, prefix, to);
        let elems = seq![Elem::ExVarSolved(b, to)];
        lemma_shifted_inserted(delta, ctx, b, elems);
        assert(shifted_ctx(delta, elems) =~= seq![
            Elem::ExVarSolved(shifted(delta, b), Ty::Existential(shifted(delta, a))),
        ]);
    }
    if ctx.contains(Elem::ExVar(a)) {
        let prefix = before(ctx, Elem::ExVar(a));
        lemma_shifted_before(delta, ctx, Elem::ExVar(a));
        lemma_shifted_type_wf(delta, prefix, ty);
        let elems = seq![Elem::ExVarSolved(a, ty)];
        lemma_shifted_inserted(delta, ctx, a, elems);
        assert(shifted_ctx(delta, elems) =~= seq![
            Elem::ExVarSolved(shifted(delta, a), shifted_ty(delta, ty)),
        ]);
    }
}

/// Committing an existential to the shape of a function goes along with
/// shifting.
pub proof fn lemma_shifted_articulated(delta: nat, ctx: Seq<Elem>, a: Seq<char>, a1: Seq<char>, a2: Seq<char>)
    requires
        ctx.contains(Elem::ExVar(a)),
    ensures
        shifted_ctx(delta, articulated(ctx, a, a1, a2)) == articulated(
            shifted_ctx(delta, ctx),
            shifted(delta, a),
            shifted(delta, a1),
            shifted(delta, a2),
        ),
{
    let elems = seq![Elem::ExVar(a2), Elem::ExVar(a1), Elem::ExVarSolved(a, arrow(a1, a2))];
    lemma_shifted_inserted(delta, ctx, a, elems);
    assert(shifted_ty(delta, arrow(a1, a2)) == arrow(shifted(delta, a1), shifted(delta, a2))) by {
        reveal_with_fuel(shifted_ty, 3);
    }
    assert(shifted_ctx(delta, elems) =~= seq![
        Elem::ExVar(shifted(delta, a2)),
        Elem::ExVar(shifted(delta, a1)),
        Elem::ExVarSolved(shifted(delta, a), arrow(shifted(delta, a1), shifted(delta, a2))),
    ]);
}

/// Whether two types are the same atom goes along with shifting.
pub proof fn lemma_shifted_same_atom(delta: nat, a: Ty, b: Ty)
    ensures
        same_atom(shifted_ty(delta, a), shifted_ty(delta, b)) <==> same_atom(a, b),
{
    if shifted_ty(delta, a) == shifted_ty(delta, b) {
        lemma_shifted_ty_injective(delta, a, b);
    }
}

/// Subtyping goes along with shifting.
pub proof fn lemma_subtype_shifted(delta: nat, depth: nat, made: nat, ctx: Seq<Elem>, a: Ty, b: Ty)
    ensures
        subtype_rule(depth, made + delta, shifted_ctx(delta, ctx), shifted_ty(delta, a), shifted_ty(delta, b))
            == (
            subtype_rule(depth, made, ctx, a, b).0 + delta,
            shifted_result(delta, subtype_rule(depth, made, ctx, a, b).1),
        ),
    decreases depth,
{
    let sctx = shifted_ctx(delta, ctx);
    let sa = shifted_ty(delta, a);
    let sb = shifted_ty(delta, b);
    lemma_shifted_same_atom(delta, a, b);
    if depth == 0 {
    } else if same_atom(a, b) {
    } else if a is Fun && b is Fun {
        let d = (depth - 1) as nat;
        lemma_subtype_shifted(delta, d, made, ctx, *b->arg, *a->arg);
        let (next, first) = subtype_rule(d, made, ctx, *b->arg, *a->arg);
        if let Ok(theta) = first {
            lemma_shifted_applied(delta, theta, *a->result);
            lemma_shifted_applied(delta, theta, *b->result);
            lemma_subtype_shifted(delta, d, next, theta, applied(theta, *a->result), applied(theta, *b->result));
        }
    } else if b is Poly {
        let count = b->vars.len();
        let d = (depth - 1) as nat;
        let fresh = fresh_names(made, count);
        let pushed = as_universals(fresh);
        let body = renamed(*b->body, b->vars, fresh, false);
        lemma_shifted_fresh_names(delta, made, count);
        lemma_shifted_pushed(delta, fresh);
        lemma_shifted_ctx_parts(delta, ctx, pushed, 0);
        lemma_shifted_renamed(delta, *b->body, b->vars, fresh, false);
        lemma_subtype_shifted(delta, d, made + count, ctx + pushed, a, body);
        if let Ok(out) = subtype_rule(d, made + count, ctx + pushed, a, body).1 {
            lemma_shifted_dropped(delta, out, pushed[0], pushed);
        }
    } else if a is Poly {
        let count = a->vars.len();
        let d = (depth - 1) as nat;
        let fresh = fresh_names(made, count);
        let pushed = as_marked_existentials(fresh);
        let body = renamed(*a->body, a->vars, fresh, true);
        lemma_shifted_fresh_names(delta, made, count);
        lemma_shifted_pushed(delta, fresh);
        lemma_shifted_ctx_parts(delta, ctx, pushed, 0);
        lemma_shifted_renamed(delta, *a->body, a->vars, fresh, true);
        lemma_subtype_shifted(delta, d, made + count, ctx + pushed, body, b);
        if let Ok(out) = subtype_rule(d, made + count, ctx + pushed, body, b).1 {
            lemma_shifted_dropped(delta, out, pushed[0], pushed);
        }
    } else {
        if a is Existential {
            lemma_shifted_free_vars(delta, b, a->Existential_0);
        }
        if b is Existential {
            lemma_shifted_free_vars(delta, a, b->Existential_0);
        }
        if a is Existential && !b.free_vars().contains(a->Existential_0) {
            lemma_instantiate_l_shifted(delta, (depth - 1) as nat, made, ctx, a->Existential_0, b);
        } else if b is Existential && !a.free_vars().contains(b->Existential_0) {
            lemma_instantiate_r_shifted(delta, (depth - 1) as nat, made, ctx, a, b->Existential_0);
        }
    }
}

/// Instantiation to the left goes along with shifting.
pub proof fn lemma_instantiate_l_shifted(
    delta: nat,
    depth: nat,
    made: nat,
    ctx: Seq<Elem>,
    a: Seq<char>,
    ty: Ty,
)
    ensures
        instantiate_l_rule(
            depth,
            made + delta,
            shifted_ctx(delta, ctx),
            shifted(delta, a),
            shifted_ty(delta, ty),
        ) == (
            instantiate_l_rule(depth, made, ctx, a, ty).0 + delta,
            shifted_result(delta, instantiate_l_rule(depth, made, ctx, a, ty).1),
        ),
    decreases depth,
{
    if ty is Existential {
        lemma_shifted_ordered(delta, ctx, a, ty->Existential_0);
    }
    lemma_shifted_contains(delta, ctx, Elem::ExVar(a));
    if depth == 0 {
    } else if ty is Existential && ordered(ctx, a, ty->Existential_0) {
        lemma_shifted_solve(delta, ctx, a, ty->Existential_0, ty);
    } else if ty is Fun {
        if ctx.contains(Elem::ExVar(a)) {
            let d = (depth - 1) as nat;
            let a2 = fresh_name(made + 1);
            let a1 = fresh_name(made + 2);
            let start = articulated(ctx, a, a1, a2);
            lemma_shifted_fresh(delta, made + 1);
            lemma_shifted_fresh(delta, made + 2);
            lemma_shifted_articulated(delta, ctx, a, a1, a2);
            lemma_instantiate_r_shifted(delta, d, made + 2, start, *ty->arg, a1);
            let (next, first) = instantiate_r_rule(d, made + 2, start, *ty->arg, a1);
            if let Ok(theta) = first {
                lemma_shifted_applied(delta, theta, *ty->result);
                lemma_instantiate_l_shifted(delta, d, next, theta, a2, applied(theta, *ty->result));
            }
        }
    } else if ty is Poly {
        let count = ty->vars.len();
        let d = (depth - 1) as nat;
        let fresh = fresh_names(made, count);
        let pushed = as_universals(fresh);
        let body = renamed(*ty->body, ty->vars, fresh, false);
        lemma_shifted_fresh_names(delta, made, count);
        lemma_shifted_pushed(delta, fresh);
        lemma_shifted_ctx_parts(delta, ctx, pushed, 0);
        lemma_shifted_renamed(delta, *ty->body, ty->vars, fresh, false);
        lemma_instantiate_l_shifted(delta, d, made + count, ctx + pushed, a, body);
        if let Ok(out) = instantiate_l_rule(d, made + count, ctx + pushed, a, body).1 {
            lemma_shifted_dropped(delta, out, pushed[0], pushed);
        }
    } else {
        lemma_shifted_solve(delta, ctx, a, a, ty);
    }
}

/// Instantiation to the right goes along with shifting.
pub proof fn lemma_instantiate_r_shifted(
    delta: nat,
    depth: nat,
    made: nat,
    ctx: Seq<Elem>,
    ty: Ty,
    a: Seq<char>,
)
    ensures
        instantiate_r_rule(
            depth,
            made + delta,
            shifted_ctx(delta, ctx),
            shifted_ty(delta, ty),
            shifted(delta, a),
        ) == (
            instantiate_r_rule(depth, made, ctx, ty, a).0 + delta,
            shifted_result(delta, instantiate_r_rule(depth, made, ctx, ty, a).1),
        ),
    decreases depth,
{
    if ty is Existential {
        lemma_shifted_ordered(delta, ctx, a, ty->Existential_0);
    }
    lemma_shifted_contains(delta, ctx, Elem::ExVar(a));
    if depth == 0 {
    } else if ty is Existential && ordered(ctx, a, ty->Existential_0) {
        lemma_shifted_solve(delta, ctx, a, ty->Existential_0, ty);
    } else if ty is Fun {
        if ctx.contains(Elem::ExVar(a)) {
            let d = (depth - 1) as nat;
            let a1 = fresh_name(made + 1);
            let a2 = fresh_name(made + 2);
            let start = articulated(ctx, a, a1, a2);
            lemma_shifted_fresh(delta, made + 1);
            lemma_shifted_fresh(delta, made + 2);
            lemma_shifted_articulated(delta, ctx, a, a1, a2);
            lemma_instantiate_l_shifted(delta, d, made + 2, start, a1, *ty->arg);
            let (next, first) = instantiate_l_rule(d, made + 2, start, a1, *ty->arg);
            if let Ok(theta) = first {
                lemma_shifted_applied(delta, theta, *ty->result);
                lemma_instantiate_r_shifted(delta, d, next, theta, applied(theta, *ty->result), a2);
            }
        }
    } else if ty is Poly {
        let count = ty->vars.len();
        let d = (depth - 1) as nat;
        let fresh = fresh_names(made, count);
        let pushed = as_marked_existentials(fresh);
        let body = renamed(*ty->body, ty->vars, fresh, true);
        lemma_shifted_fresh_names(delta, made, count);
        lemma_shifted_pushed(delta, fresh);
        lemma_shifted_ctx_parts(delta, ctx, pushed, 0);
        lemma_shifted_renamed(delta, *ty->body, ty->vars, fresh, true);
        lemma_instantiate_r_shifted(delta, d, made + count, ctx + pushed, body, a);
        if let Ok(out) = instantiate_r_rule(d, made + count, ctx + pushed, body, a).1 {
            lemma_shifted_dropped(delta, out, pushed[0], pushed);
        }
    } else {
        lemma_shifted_solve(delta, ctx, a, a, ty);
    }
}

/// Checking goes along with shifting.
pub proof fn lemma_check_shifted(delta: nat, depth: nat, made: nat, ctx: Seq<Elem>, e: Term, ty: Ty)
    ensures
        check_rule(depth, made + delta, shifted_ctx(delta, ctx), shifted_term(delta, e), shifted_ty(delta, ty))
            == (
            check_rule(depth, made, ctx, e, ty).0 + delta,
            shifted_result(delta, check_rule(depth, made, ctx, e, ty).1),
        ),
    decreases depth,
{
    if depth == 0 {
    } else if literal_of(e, ty) {
    } else if e is Lambda && ty is Fun {
        let d = (depth - 1) as nat;
        let marker = Elem::Anno(e->binder, *ty->arg);
        lemma_shifted_ctx_parts(delta, ctx, Seq::empty(), 0);
        lemma_check_shifted(delta, d, made, ctx.push(marker), *e->body, *ty->result);
        if let Ok(out) = check_rule(d, made, ctx.push(marker), *e->body, *ty->result).1 {
            lemma_shifted_dropped(delta, out, marker, Seq::empty());
        }
    } else if ty is Poly {
        let count = ty->vars.len();
        let d = (depth - 1) as nat;
        let fresh = fresh_names(made, count);
        let pushed = as_universals(fresh);
        let body = renamed(*ty->body, ty->vars, fresh, false);
        lemma_shifted_fresh_names(delta, made, count);
        lemma_shifted_pushed(delta, fresh);
        lemma_shifted_ctx_parts(delta, ctx, pushed, 0);
        lemma_shifted_renamed(delta, *ty->body, ty->vars, fresh, false);
        lemma_check_shifted(delta, d, made + count, ctx + pushed, e, body);
        if let Ok(out) = check_rule(d, made + count, ctx + pushed, e, body).1 {
            lemma_shifted_dropped(delta, out, pushed[0], pushed);
        }
    } else {
        let d = (depth - 1) as nat;
        lemma_infer_shifted(delta, d, made, ctx, e);
        let (next, inferred) = infer_rule(d, made, ctx, e);
        if let Ok((theta, found)) = inferred {
            lemma_shifted_applied(delta, theta, found);
            lemma_shifted_applied(delta, theta, ty);
            lemma_subtype_shifted(delta, d, next, theta, applied(theta, found), applied(theta, ty));
        }
    }
}

/// Inference goes along with shifting.
pub proof fn lemma_infer_shifted(delta: nat, depth: nat, made: nat, ctx: Seq<Elem>, e: Term)
    ensures
        infer_rule(depth, made + delta, shifted_ctx(delta, ctx), shifted_term(delta, e)) == (
            infer_rule(depth, made, ctx, e).0 + delta,
            shifted_typed(delta, infer_rule(depth, made, ctx, e).1),
        ),
    decreases depth,
{
    if depth > 0 {
        let d = (depth - 1) as nat;
        match e {
            Term::Var(x) => {
                lemma_shifted_annotation(delta, ctx, x);
            },
            Term::Ann { expr, ty } => {
                lemma_shifted_type_wf(delta, ctx, ty);
                if type_wf(ctx, ty) {
                    lemma_check_shifted(delta, d, made, ctx, *expr, ty);
                }
            },
            Term::Lambda { binder, body } => {
                let x = fresh_name(made + 1);
                let a = fresh_name(made + 2);
                let b = fresh_name(made + 3);
                let marker = Elem::Anno(x, Ty::Existential(a));
                let pushed = seq![Elem::ExVar(a), Elem::ExVar(b), marker];
                let renamed_body = body.subst(binder, Term::Var(x));
                lemma_shifted_fresh(delta, made + 1);
                lemma_shifted_fresh(delta, made + 2);
                lemma_shifted_fresh(delta, made + 3);
                lemma_shifted_ctx_parts(delta, ctx, pushed, 0);
                assert(shifted_ctx(delta, pushed) =~= seq![
                    Elem::ExVar(shifted(delta, a)),
                    Elem::ExVar(shifted(delta, b)),
                    shifted_elem(delta, marker),
                ]);
                lemma_shifted_term_subst(delta, *body, binder, Term::Var(x));
                lemma_check_shifted(delta, d, made + 3, ctx + pushed, renamed_body, Ty::Existential(b));
                if let Ok(out) = check_rule(d, made + 3, ctx + pushed, renamed_body, Ty::Existential(b)).1 {
                    lemma_shifted_dropped(delta, out, marker, Seq::empty());
                }
            },
            Term::App { func, arg } => {
                lemma_infer_shifted(delta, d, made, ctx, *func);
                let (next, inferred) = infer_rule(d, made, ctx, *func);
                if let Ok((theta, found)) = inferred {
                    lemma_shifted_applied(delta, theta, found);
                    lemma_infer_application_shifted(delta, d, next, theta, applied(theta, found), *arg);
                }
            },
            _ => {},
        }
    }
}

/// Application goes along with shifting.
pub proof fn lemma_infer_application_shifted(
    delta: nat,
    depth: nat,
    made: nat,
    ctx: Seq<Elem>,
    ty: Ty,
    e: Term,
)
    ensures
        infer_application_rule(
            depth,
            made + delta,
            shifted_ctx(delta, ctx),
            shifted_ty(delta, ty),
            shifted_term(delta, e),
        ) == (
            infer_application_rule(depth, made, ctx, ty, e).0 + delta,
            shifted_typed(delta, infer_application_rule(depth, made, ctx, ty, e).1),
        ),
    decreases depth,
{
    if depth > 0 {
        let d = (depth - 1) as nat;
        match ty {
            Ty::Poly { vars, body } => {
                let count = vars.len();
                let fresh = fresh_names(made, count);
                let pushed = as_existentials(fresh);
                lemma_shifted_fresh_names(delta, made, count);
                lemma_shifted_pushed(delta, fresh);
                lemma_shifted_ctx_parts(delta, ctx, pushed, 0);
                lemma_shifted_renamed(delta, *body, vars, fresh, true);
                lemma_infer_application_shifted(
                    delta,
                    d,
                    made + count,
                    ctx + pushed,
                    renamed(*body, vars, fresh, true),
                    e,
                );
            },
            Ty::Existential(a) => {
                lemma_shifted_contains(delta, ctx, Elem::ExVar(a));
                if ctx.contains(Elem::ExVar(a)) {
                    let a1 = fresh_name(made + 1);
                    let a2 = fresh_name(made + 2);
                    lemma_shifted_fresh(delta, made + 1);
                    lemma_shifted_fresh(delta, made + 2);
                    lemma_shifted_articulated(delta, ctx, a, a1, a2);
                    lemma_check_shifted(delta, d, made + 2, articulated(ctx, a, a1, a2), e, Ty::Existential(a1));
                }
            },
            Ty::Fun { arg, result } => {
                lemma_check_shifted(delta, d, made, ctx, e, *arg);
                if let Ok(out) = check_rule(d, made, ctx, e, *arg).1 {
                    lemma_shifted_applied(delta, out, *result);
                }
            },
            _ => {},
        }
    }
}

/// Synthesis is a function of the expression: for an expression that
/// holds no generated name, what synthesis gives after more names have
/// been made is what it gives after fewer, with the generated names
/// shifted by as many as were made more.
pub proof fn lemma_synth_shifted(delta: nat, depth: nat, made: nat, e: Term)
    requires
        plain_term(e),
    ensures
        synth_rule(depth, made + delta, e) == (
            synth_rule(depth, made, e).0 + delta,
            shifted_type(delta, synth_rule(depth, made, e).1),
        ),
{
    let empty = Seq::<Elem>::empty();
    lemma_plain_term_shifted(delta, e);
    assert(shifted_ctx(delta, empty) =~= empty);
    lemma_infer_shifted(delta, depth, made, empty, e);
    if let Ok((out, ty)) = infer_rule(depth, made, empty, e).1 {
        lemma_shifted_applied(delta, out, ty);
    }
}

} // verus!
