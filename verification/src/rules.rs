//! The rules of the checker, as functions on the mathematical models.
//!
//! Each rule takes the depth to which rules may still nest and the number of
//! fresh names made so far, and gives back the number of names made and
//! either its result or a failure. The rules of one judgment are tried in
//! the order in which they are written; the first that fits is taken.

use crate::context::{annotation, applied, as_universals, before, inserted_at, ordered, solved, type_wf, Elem};
use crate::error::Failure;
use crate::expr::{Literal, Term};
use crate::names::{fresh_name, fresh_names};
use crate::types::Ty;
use vstd::prelude::*;

verus! {

/// The variable or the existential of a name.
pub open spec fn named(name: Seq<char>, existential: bool) -> Ty {
    if existential {
        Ty::Existential(name)
    } else {
        Ty::Var(name)
    }
}

/// The body of a quantifier with a fresh name in place of each bound
/// variable, the variables taken from the first on.
pub open spec fn renamed(body: Ty, vars: Seq<Seq<char>>, fresh: Seq<Seq<char>>, existential: bool) -> Ty
    decreases vars.len(),
{
    if vars.len() == 0 || fresh.len() == 0 {
        body
    } else {
        renamed(body, vars.drop_last(), fresh.drop_last(), existential).subst(
            vars.last(),
            named(fresh.last(), existential),
        )
    }
}

/// The elements that declare a list of unsolved existentials.
pub open spec fn as_existentials(names: Seq<Seq<char>>) -> Seq<Elem> {
    Seq::new(names.len(), |i: int| Elem::ExVar(names[i]))
}

/// The elements that declare a list of unsolved existentials, each behind a
/// marker of its own name.
pub open spec fn as_marked_existentials(names: Seq<Seq<char>>) -> Seq<Elem> {
    Seq::new(
        2 * names.len(),
        |i: int|
            if i % 2 == 0 {
                Elem::Marker(names[i / 2])
            } else {
                Elem::ExVar(names[i / 2])
            },
    )
}

/// Leaving a scope: the context cut off before the marker of the scope.
pub open spec fn dropped(ctx: Seq<Elem>, marker: Elem) -> Result<Seq<Elem>, Failure> {
    if ctx.contains(marker) {
        Ok(before(ctx, marker))
    } else {
        Err(Failure::MalformedContext)
    }
}

/// Leaving the scope that `pushed` opened: the context cut off before the
/// first of the pushed elements. Where nothing was pushed, nothing is cut.
pub open spec fn dropped_to_first(ctx: Seq<Elem>, pushed: Seq<Elem>) -> Result<Seq<Elem>, Failure> {
    if pushed.len() == 0 {
        Ok(ctx)
    } else {
        dropped(ctx, pushed[0])
    }
}

/// The arrow between two existentials.
pub open spec fn arrow(a1: Seq<char>, a2: Seq<char>) -> Ty {
    Ty::Fun { arg: Box::new(Ty::Existential(a1)), result: Box::new(Ty::Existential(a2)) }
}

/// The context in which the unsolved existential `a` is committed to the
/// shape of a function: in its place stand `a2`, `a1` and the solution of
/// `a` to the arrow from `a1` to `a2`.
pub open spec fn articulated(ctx: Seq<Elem>, a: Seq<char>, a1: Seq<char>, a2: Seq<char>) -> Seq<Elem> {
    inserted_at(ctx, a, seq![Elem::ExVar(a2), Elem::ExVar(a1), Elem::ExVarSolved(a, arrow(a1, a2))])
}

/// Whether both types are the same primitive, variable or existential.
pub open spec fn same_atom(a: Ty, b: Ty) -> bool {
    a == b && (a is Int || a is Bool || a is Var || a is Existential)
}

/// Subtyping: the context in which `a` is a subtype of `b`.
pub open spec fn subtype_rule(depth: nat, names: nat, ctx: Seq<Elem>, a: Ty, b: Ty) -> (
    nat,
    Result<Seq<Elem>, Failure>,
)
    decreases depth,
{
    if depth == 0 {
        (names, Err(Failure::Exhausted))
    } else if same_atom(a, b) {
        (names, Ok(ctx))
    } else if a is Fun && b is Fun {
        // The arguments the other way round, then the results under what the
        // arguments have solved.
        let (made, first) = subtype_rule((depth - 1) as nat, names, ctx, *b->arg, *a->arg);
        match first {
            Ok(theta) => subtype_rule(
                (depth - 1) as nat,
                made,
                theta,
                applied(theta, *a->result),
                applied(theta, *b->result),
            ),
            Err(e) => (made, Err(e)),
        }
    } else if b is Poly {
        // A quantifier on the right: its variables become rigid.
        let count = b->vars.len();
        let fresh = fresh_names(names, count);
        let pushed = as_universals(fresh);
        let (made, inner) = subtype_rule(
            (depth - 1) as nat,
            names + count,
            ctx + pushed,
            a,
            renamed(*b->body, b->vars, fresh, false),
        );
        match inner {
            Ok(delta) => (made, dropped_to_first(delta, pushed)),
            Err(e) => (made, Err(e)),
        }
    } else if a is Poly {
        // A quantifier on the left: its variables become existentials.
        let count = a->vars.len();
        let fresh = fresh_names(names, count);
        let pushed = as_marked_existentials(fresh);
        let (made, inner) = subtype_rule(
            (depth - 1) as nat,
            names + count,
            ctx + pushed,
            renamed(*a->body, a->vars, fresh, true),
            b,
        );
        match inner {
            Ok(delta) => (made, dropped_to_first(delta, pushed)),
            Err(e) => (made, Err(e)),
        }
    } else if a is Existential && !b.free_vars().contains(a->Existential_0) {
        instantiate_l_rule((depth - 1) as nat, names, ctx, a->Existential_0, b)
    } else if b is Existential && !a.free_vars().contains(b->Existential_0) {
        instantiate_r_rule((depth - 1) as nat, names, ctx, a, b->Existential_0)
    } else {
        (names, Err(Failure::Subtype(a, b)))
    }
}

/// Solving the unsolved existential `b`, declared after `a`, to `a`.
pub open spec fn reach(ctx: Seq<Elem>, a: Seq<char>, b: Seq<char>) -> Result<Seq<Elem>, Failure> {
    if ctx.contains(Elem::ExVar(b)) {
        match solved(ctx, b, Ty::Existential(a)) {
            Some(delta) => Ok(delta),
            None => Err(Failure::MalformedContext),
        }
    } else {
        Err(Failure::MalformedContext)
    }
}

/// Solving the unsolved existential `a` to the monotype `ty`, which must be
/// well formed in what stands before `a`.
pub open spec fn solve_to(ctx: Seq<Elem>, a: Seq<char>, ty: Ty) -> Result<Seq<Elem>, Failure> {
    if ctx.contains(Elem::ExVar(a)) {
        let prefix = before(ctx, Elem::ExVar(a));
        if type_wf(prefix, ty) {
            Ok(inserted_at(ctx, a, seq![Elem::ExVarSolved(a, ty)]))
        } else {
            Err(Failure::ExistentialEscaped(prefix, ty, a))
        }
    } else {
        Err(Failure::MalformedContext)
    }
}

/// Instantiation to the left: the context in which the unsolved existential
/// `a` is solved to a subtype of `ty`.
pub open spec fn instantiate_l_rule(depth: nat, names: nat, ctx: Seq<Elem>, a: Seq<char>, ty: Ty) -> (
    nat,
    Result<Seq<Elem>, Failure>,
)
    decreases depth,
{
    if depth == 0 {
        (names, Err(Failure::Exhausted))
    } else if ty is Existential && ordered(ctx, a, ty->Existential_0) {
        (names, reach(ctx, a, ty->Existential_0))
    } else if ty is Fun {
        if !ctx.contains(Elem::ExVar(a)) {
            (names, Err(Failure::MalformedContext))
        } else {
            let a2 = fresh_name(names + 1);
            let a1 = fresh_name(names + 2);
            let (made, first) = instantiate_r_rule(
                (depth - 1) as nat,
                names + 2,
                articulated(ctx, a, a1, a2),
                *ty->arg,
                a1,
            );
            match first {
                Ok(theta) => instantiate_l_rule(
                    (depth - 1) as nat,
                    made,
                    theta,
                    a2,
                    applied(theta, *ty->result),
                ),
                Err(e) => (made, Err(e)),
            }
        }
    } else if ty is Poly {
        let count = ty->vars.len();
        let fresh = fresh_names(names, count);
        let pushed = as_universals(fresh);
        let (made, inner) = instantiate_l_rule(
            (depth - 1) as nat,
            names + count,
            ctx + pushed,
            a,
            renamed(*ty->body, ty->vars, fresh, false),
        );
        match inner {
            Ok(delta) => (made, dropped_to_first(delta, pushed)),
            Err(e) => (made, Err(e)),
        }
    } else {
        (names, solve_to(ctx, a, ty))
    }
}

/// Instantiation to the right: the context in which the unsolved existential
/// `a` is solved to a supertype of `ty`.
pub open spec fn instantiate_r_rule(depth: nat, names: nat, ctx: Seq<Elem>, ty: Ty, a: Seq<char>) -> (
    nat,
    Result<Seq<Elem>, Failure>,
)
    decreases depth,
{
    if depth == 0 {
        (names, Err(Failure::Exhausted))
    } else if ty is Existential && ordered(ctx, a, ty->Existential_0) {
        (names, reach(ctx, a, ty->Existential_0))
    } else if ty is Fun {
        if !ctx.contains(Elem::ExVar(a)) {
            (names, Err(Failure::MalformedContext))
        } else {
            let a1 = fresh_name(names + 1);
            let a2 = fresh_name(names + 2);
            let (made, first) = instantiate_l_rule(
                (depth - 1) as nat,
                names + 2,
                articulated(ctx, a, a1, a2),
                a1,
                *ty->arg,
            );
            match first {
                Ok(theta) => instantiate_r_rule(
                    (depth - 1) as nat,
                    made,
                    theta,
                    applied(theta, *ty->result),
                    a2,
                ),
                Err(e) => (made, Err(e)),
            }
        }
    } else if ty is Poly {
        let count = ty->vars.len();
        let fresh = fresh_names(names, count);
        let pushed = as_marked_existentials(fresh);
        let (made, inner) = instantiate_r_rule(
            (depth - 1) as nat,
            names + count,
            ctx + pushed,
            renamed(*ty->body, ty->vars, fresh, true),
            a,
        );
        match inner {
            Ok(delta) => (made, dropped_to_first(delta, pushed)),
            Err(e) => (made, Err(e)),
        }
    } else {
        (names, solve_to(ctx, a, ty))
    }
}

/// Whether a literal is of a primitive type.
pub open spec fn literal_of(e: Term, ty: Ty) -> bool {
    ||| e matches Term::Literal(Literal::Int(_)) && ty is Int
    ||| e matches Term::Literal(Literal::Bool(_)) && ty is Bool
}

/// Checking: the context in which `e` has the type `ty`.
pub open spec fn check_rule(depth: nat, names: nat, ctx: Seq<Elem>, e: Term, ty: Ty) -> (
    nat,
    Result<Seq<Elem>, Failure>,
)
    decreases depth,
{
    if depth == 0 {
        (names, Err(Failure::Exhausted))
    } else if literal_of(e, ty) {
        (names, Ok(ctx))
    } else if e is Lambda && ty is Fun {
        let marker = Elem::Anno(e->binder, *ty->arg);
        let (made, inner) = check_rule((depth - 1) as nat, names, ctx.push(marker), *e->body, *ty->result);
        match inner {
            Ok(delta) => (made, dropped(delta, marker)),
            Err(e) => (made, Err(e)),
        }
    } else if ty is Poly {
        let count = ty->vars.len();
        let fresh = fresh_names(names, count);
        let pushed = as_universals(fresh);
        let (made, inner) = check_rule(
            (depth - 1) as nat,
            names + count,
            ctx + pushed,
            e,
            renamed(*ty->body, ty->vars, fresh, false),
        );
        match inner {
            Ok(delta) => (made, dropped_to_first(delta, pushed)),
            Err(e) => (made, Err(e)),
        }
    } else {
        // What is inferred must be a subtype of what is asked for.
        let (made, inferred) = infer_rule((depth - 1) as nat, names, ctx, e);
        match inferred {
            Ok((theta, found)) => subtype_rule(
                (depth - 1) as nat,
                made,
                theta,
                applied(theta, found),
                applied(theta, ty),
            ),
            Err(e) => (made, Err(e)),
        }
    }
}

/// Inference: the type of `e` and the context in which it has that type.
pub open spec fn infer_rule(depth: nat, names: nat, ctx: Seq<Elem>, e: Term) -> (
    nat,
    Result<(Seq<Elem>, Ty), Failure>,
)
    decreases depth,
{
    if depth == 0 {
        (names, Err(Failure::Exhausted))
    } else {
        match e {
            Term::Literal(Literal::Int(_)) => (names, Ok((ctx, Ty::Int))),
            Term::Literal(Literal::Bool(_)) => (names, Ok((ctx, Ty::Bool))),
            Term::Var(x) => match annotation(ctx, x) {
                Some(ty) => (names, Ok((ctx, ty))),
                None => (names, Err(Failure::UnknownVar(x))),
            },
            Term::Ann { expr, ty } => if type_wf(ctx, ty) {
                let (made, checked) = check_rule((depth - 1) as nat, names, ctx, *expr, ty);
                match checked {
                    Ok(delta) => (made, Ok((delta, ty))),
                    Err(e) => (made, Err(e)),
                }
            } else {
                (names, Err(Failure::InvalidAnnotation(ty)))
            },
            Term::Lambda { binder, body } => {
                // The binder gets a fresh name, so that it shadows nothing.
                let x = fresh_name(names + 1);
                let a = fresh_name(names + 2);
                let b = fresh_name(names + 3);
                let marker = Elem::Anno(x, Ty::Existential(a));
                let (made, checked) = check_rule(
                    (depth - 1) as nat,
                    names + 3,
                    ctx + seq![Elem::ExVar(a), Elem::ExVar(b), marker],
                    body.subst(binder, Term::Var(x)),
                    Ty::Existential(b),
                );
                match checked {
                    Ok(delta) => match dropped(delta, marker) {
                        Ok(out) => (made, Ok((out, arrow(a, b)))),
                        Err(e) => (made, Err(e)),
                    },
                    Err(e) => (made, Err(e)),
                }
            },
            Term::App { func, arg } => {
                let (made, inferred) = infer_rule((depth - 1) as nat, names, ctx, *func);
                match inferred {
                    Ok((theta, found)) => infer_application_rule(
                        (depth - 1) as nat,
                        made,
                        theta,
                        applied(theta, found),
                        *arg,
                    ),
                    Err(e) => (made, Err(e)),
                }
            },
        }
    }
}

/// Application: the type of what a function of type `ty` gives for `e`.
pub open spec fn infer_application_rule(depth: nat, names: nat, ctx: Seq<Elem>, ty: Ty, e: Term) -> (
    nat,
    Result<(Seq<Elem>, Ty), Failure>,
)
    decreases depth,
{
    if depth == 0 {
        (names, Err(Failure::Exhausted))
    } else {
        match ty {
            Ty::Poly { vars, body } => {
                // The existentials of the quantifier outlive the application:
                // they get no marker.
                let count = vars.len();
                let fresh = fresh_names(names, count);
                infer_application_rule(
                    (depth - 1) as nat,
                    names + count,
                    ctx + as_existentials(fresh),
                    renamed(*body, vars, fresh, true),
                    e,
                )
            },
            Ty::Existential(a) => {
                if !ctx.contains(Elem::ExVar(a)) {
                    (names, Err(Failure::MalformedContext))
                } else {
                    let a1 = fresh_name(names + 1);
                    let a2 = fresh_name(names + 2);
                    let (made, checked) = check_rule(
                        (depth - 1) as nat,
                        names + 2,
                        articulated(ctx, a, a1, a2),
                        e,
                        Ty::Existential(a1),
                    );
                    match checked {
                        Ok(delta) => (made, Ok((delta, Ty::Existential(a2)))),
                        Err(e) => (made, Err(e)),
                    }
                }
            },
            Ty::Fun { arg, result } => {
                let (made, checked) = check_rule((depth - 1) as nat, names, ctx, e, *arg);
                match checked {
                    Ok(delta) => (made, Ok((delta, applied(delta, *result)))),
                    Err(e) => (made, Err(e)),
                }
            },
            _ => (names, Err(Failure::IsNotAFunction(ty))),
        }
    }
}

/// Synthesis: the type of `e` in the empty context, with every solved
/// existential replaced by its solution.
pub open spec fn synth_rule(depth: nat, names: nat, e: Term) -> (nat, Result<Ty, Failure>) {
    let (made, inferred) = infer_rule(depth, names, Seq::empty(), e);
    match inferred {
        Ok((delta, ty)) => (made, Ok(applied(delta, ty))),
        Err(e) => (made, Err(e)),
    }
}

/// Renaming brings in no existential but the fresh ones, and none where
/// the fresh names stand for rigid variables.
pub proof fn lemma_renamed_existentials(
    body: Ty,
    vars: Seq<Seq<char>>,
    fresh: Seq<Seq<char>>,
    existential: bool,
    name: Seq<char>,
)
    requires
        renamed(body, vars, fresh, existential).existentials().contains(name),
    ensures
        body.existentials().contains(name) || (existential && fresh.contains(name)),
    decreases vars.len(),
{
    if vars.len() == 0 || fresh.len() == 0 {
    } else {
        let inner = renamed(body, vars.drop_last(), fresh.drop_last(), existential);
        crate::types::lemma_subst_existentials(inner, vars.last(), named(fresh.last(), existential));
        if inner.existentials().contains(name) {
            lemma_renamed_existentials(body, vars.drop_last(), fresh.drop_last(), existential, name);
            if existential && fresh.drop_last().contains(name) {
                let k = choose|k: int| 0 <= k < fresh.drop_last().len() && fresh.drop_last()[k] == name;
                assert(fresh[k] == name);
            }
        } else {
            assert(fresh[fresh.len() - 1] == name);
        }
    }
}

/// Renaming changes neither the number of nodes nor the number of
/// quantifiers.
pub proof fn lemma_renamed_size(body: Ty, vars: Seq<Seq<char>>, fresh: Seq<Seq<char>>, existential: bool)
    ensures
        renamed(body, vars, fresh, existential).size() == body.size(),
        renamed(body, vars, fresh, existential).quantifiers() == body.quantifiers(),
    decreases vars.len(),
{
    if vars.len() == 0 || fresh.len() == 0 {
    } else {
        let inner = renamed(body, vars.drop_last(), fresh.drop_last(), existential);
        lemma_renamed_size(body, vars.drop_last(), fresh.drop_last(), existential);
        crate::types::lemma_subst_atom(inner, vars.last(), named(fresh.last(), existential));
    }
}

/// Renaming brings in no binder.
pub proof fn lemma_renamed_binders(
    body: Ty,
    vars: Seq<Seq<char>>,
    fresh: Seq<Seq<char>>,
    existential: bool,
)
    ensures
        renamed(body, vars, fresh, existential).binders().subset_of(body.binders()),
    decreases vars.len(),
{
    if vars.len() == 0 || fresh.len() == 0 {
    } else {
        let inner = renamed(body, vars.drop_last(), fresh.drop_last(), existential);
        lemma_renamed_binders(body, vars.drop_last(), fresh.drop_last(), existential);
        crate::types::lemma_subst_binders(inner, vars.last(), named(fresh.last(), existential));
    }
}

/// Subtyping makes names in order: the number of names made never falls.
pub proof fn lemma_subtype_counts_up(depth: nat, names: nat, ctx: Seq<Elem>, a: Ty, b: Ty)
    ensures
        names <= subtype_rule(depth, names, ctx, a, b).0,
    decreases depth,
{
    if depth == 0 {
    } else if same_atom(a, b) {
    } else if a is Fun && b is Fun {
        let d = (depth - 1) as nat;
        lemma_subtype_counts_up(d, names, ctx, *b->arg, *a->arg);
        let (made, first) = subtype_rule(d, names, ctx, *b->arg, *a->arg);
        if let Ok(theta) = first {
            lemma_subtype_counts_up(d, made, theta, applied(theta, *a->result), applied(theta, *b->result));
        }
    } else if b is Poly {
        let count = b->vars.len();
        let fresh = fresh_names(names, count);
        lemma_subtype_counts_up(
            (depth - 1) as nat,
            names + count,
            ctx + as_universals(fresh),
            a,
            renamed(*b->body, b->vars, fresh, false),
        );
    } else if a is Poly {
        let count = a->vars.len();
        let fresh = fresh_names(names, count);
        lemma_subtype_counts_up(
            (depth - 1) as nat,
            names + count,
            ctx + as_marked_existentials(fresh),
            renamed(*a->body, a->vars, fresh, true),
            b,
        );
    } else if a is Existential && !b.free_vars().contains(a->Existential_0) {
        lemma_instantiate_l_counts_up((depth - 1) as nat, names, ctx, a->Existential_0, b);
    } else if b is Existential && !a.free_vars().contains(b->Existential_0) {
        lemma_instantiate_r_counts_up((depth - 1) as nat, names, ctx, a, b->Existential_0);
    } else {
    }
}

/// Instantiation to the left makes names in order.
pub proof fn lemma_instantiate_l_counts_up(depth: nat, names: nat, ctx: Seq<Elem>, a: Seq<char>, ty: Ty)
    ensures
        names <= instantiate_l_rule(depth, names, ctx, a, ty).0,
    decreases depth,
{
    if depth == 0 {
    } else if ty is Existential && ordered(ctx, a, ty->Existential_0) {
    } else if ty is Fun {
        if ctx.contains(Elem::ExVar(a)) {
            let d = (depth - 1) as nat;
            let a2 = fresh_name(names + 1);
            let a1 = fresh_name(names + 2);
            let start = articulated(ctx, a, a1, a2);
            lemma_instantiate_r_counts_up(d, names + 2, start, *ty->arg, a1);
            let (made, first) = instantiate_r_rule(d, names + 2, start, *ty->arg, a1);
            if let Ok(theta) = first {
                lemma_instantiate_l_counts_up(d, made, theta, a2, applied(theta, *ty->result));
            }
        }
    } else if ty is Poly {
        let count = ty->vars.len();
        let fresh = fresh_names(names, count);
        lemma_instantiate_l_counts_up(
            (depth - 1) as nat,
            names + count,
            ctx + as_universals(fresh),
            a,
            renamed(*ty->body, ty->vars, fresh, false),
        );
    } else {
    }
}

/// Instantiation to the right makes names in order.
pub proof fn lemma_instantiate_r_counts_up(depth: nat, names: nat, ctx: Seq<Elem>, ty: Ty, a: Seq<char>)
    ensures
        names <= instantiate_r_rule(depth, names, ctx, ty, a).0,
    decreases depth,
{
    if depth == 0 {
    } else if ty is Existential && ordered(ctx, a, ty->Existential_0) {
    } else if ty is Fun {
        if ctx.contains(Elem::ExVar(a)) {
            let d = (depth - 1) as nat;
            let a1 = fresh_name(names + 1);
            let a2 = fresh_name(names + 2);
            let start = articulated(ctx, a, a1, a2);
            lemma_instantiate_l_counts_up(d, names + 2, start, a1, *ty->arg);
            let (made, first) = instantiate_l_rule(d, names + 2, start, a1, *ty->arg);
            if let Ok(theta) = first {
                lemma_instantiate_r_counts_up(d, made, theta, applied(theta, *ty->result), a2);
            }
        }
    } else if ty is Poly {
        let count = ty->vars.len();
        let fresh = fresh_names(names, count);
        lemma_instantiate_r_counts_up(
            (depth - 1) as nat,
            names + count,
            ctx + as_marked_existentials(fresh),
            renamed(*ty->body, ty->vars, fresh, true),
            a,
        );
    } else {
    }
}

/// Checking makes names in order.
pub proof fn lemma_check_counts_up(depth: nat, names: nat, ctx: Seq<Elem>, e: Term, ty: Ty)
    ensures
        names <= check_rule(depth, names, ctx, e, ty).0,
    decreases depth,
{
    if depth == 0 {
    } else if literal_of(e, ty) {
    } else if e is Lambda && ty is Fun {
        lemma_check_counts_up(
            (depth - 1) as nat,
            names,
            ctx.push(Elem::Anno(e->binder, *ty->arg)),
            *e->body,
            *ty->result,
        );
    } else if ty is Poly {
        let count = ty->vars.len();
        let fresh = fresh_names(names, count);
        lemma_check_counts_up(
            (depth - 1) as nat,
            names + count,
            ctx + as_universals(fresh),
            e,
            renamed(*ty->body, ty->vars, fresh, false),
        );
    } else {
        let d = (depth - 1) as nat;
        lemma_infer_counts_up(d, names, ctx, e);
        let (made, inferred) = infer_rule(d, names, ctx, e);
        if let Ok((theta, found)) = inferred {
            lemma_subtype_counts_up(d, made, theta, applied(theta, found), applied(theta, ty));
        }
    }
}

/// Inference makes names in order.
pub proof fn lemma_infer_counts_up(depth: nat, names: nat, ctx: Seq<Elem>, e: Term)
    ensures
        names <= infer_rule(depth, names, ctx, e).0,
    decreases depth,
{
    if depth > 0 {
        let d = (depth - 1) as nat;
        match e {
            Term::Ann { expr, ty } => {
                if type_wf(ctx, ty) {
                    lemma_check_counts_up(d, names, ctx, *expr, ty);
                }
            },
            Term::Lambda { binder, body } => {
                let x = fresh_name(names + 1);
                let a = fresh_name(names + 2);
                let b = fresh_name(names + 3);
                let marker = Elem::Anno(x, Ty::Existential(a));
                lemma_check_counts_up(
                    d,
                    names + 3,
                    ctx + seq![Elem::ExVar(a), Elem::ExVar(b), marker],
                    body.subst(binder, Term::Var(x)),
                    Ty::Existential(b),
                );
            },
            Term::App { func, arg } => {
                lemma_infer_counts_up(d, names, ctx, *func);
                let (made, inferred) = infer_rule(d, names, ctx, *func);
                if let Ok((theta, found)) = inferred {
                    lemma_infer_application_counts_up(d, made, theta, applied(theta, found), *arg);
                }
            },
            _ => {},
        }
    }
}

/// Application makes names in order.
pub proof fn lemma_infer_application_counts_up(depth: nat, names: nat, ctx: Seq<Elem>, ty: Ty, e: Term)
    ensures
        names <= infer_application_rule(depth, names, ctx, ty, e).0,
    decreases depth,
{
    if depth > 0 {
        let d = (depth - 1) as nat;
        match ty {
            Ty::Poly { vars, body } => {
                let count = vars.len();
                let fresh = fresh_names(names, count);
                lemma_infer_application_counts_up(
                    d,
                    names + count,
                    ctx + as_existentials(fresh),
                    renamed(*body, vars, fresh, true),
                    e,
                );
            },
            Ty::Existential(a) => {
                if ctx.contains(Elem::ExVar(a)) {
                    let a1 = fresh_name(names + 1);
                    let a2 = fresh_name(names + 2);
                    lemma_check_counts_up(d, names + 2, articulated(ctx, a, a1, a2), e, Ty::Existential(a1));
                }
            },
            Ty::Fun { arg, result } => {
                lemma_check_counts_up(d, names, ctx, e, *arg);
            },
            _ => {},
        }
    }
}

} // verus!
