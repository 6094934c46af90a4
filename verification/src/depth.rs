//! The depth only decides whether the rules give up: a result that is
//! reached at one depth, and is not that the rules were given up, is the
//! result at every greater depth.

use crate::context::{applied, as_universals, ordered, type_wf, Elem};
use crate::error::Failure;
use crate::expr::Term;
use crate::names::{fresh_name, fresh_names};
use crate::rules::{
    articulated, as_existentials, as_marked_existentials, check_rule, infer_application_rule,
    infer_rule, instantiate_l_rule, instantiate_r_rule, literal_of,  renamed,
    same_atom, subtype_rule, synth_rule,
};
use crate::types::Ty;
use vstd::prelude::*;

verus! {

/// Whether a result is that the rules were given up.
pub open spec fn gave_up<T>(r: Result<T, Failure>) -> bool {
    r matches Err(Failure::Exhausted)
}

/// Subtyping at the next depth.
pub proof fn lemma_subtype_deeper(depth: nat, names: nat, ctx: Seq<Elem>, a: Ty, b: Ty)
    requires
        !gave_up(subtype_rule(depth, names, ctx, a, b).1),
    ensures
        subtype_rule(depth + 1, names, ctx, a, b) == subtype_rule(depth, names, ctx, a, b),
    decreases depth,
{
    if depth == 0 {
    } else if same_atom(a, b) {
    } else if a is Fun && b is Fun {
        let d = (depth - 1) as nat;
        lemma_subtype_deeper(d, names, ctx, *b->arg, *a->arg);
        let (made, first) = subtype_rule(d, names, ctx, *b->arg, *a->arg);
        if let Ok(theta) = first {
            lemma_subtype_deeper(d, made, theta, applied(theta, *a->result), applied(theta, *b->result));
        }
    } else if b is Poly {
        let count = b->vars.len();
        let fresh = fresh_names(names, count);
        lemma_subtype_deeper(
            (depth - 1) as nat,
            names + count,
            ctx + as_universals(fresh),
            a,
            renamed(*b->body, b->vars, fresh, false),
        );
    } else if a is Poly {
        let count = a->vars.len();
        let fresh = fresh_names(names, count);
        lemma_subtype_deeper(
            (depth - 1) as nat,
            names + count,
            ctx + as_marked_existentials(fresh),
            renamed(*a->body, a->vars, fresh, true),
            b,
        );
    } else if a is Existential && !b.free_vars().contains(a->Existential_0) {
        lemma_instantiate_l_deeper((depth - 1) as nat, names, ctx, a->Existential_0, b);
    } else if b is Existential && !a.free_vars().contains(b->Existential_0) {
        lemma_instantiate_r_deeper((depth - 1) as nat, names, ctx, a, b->Existential_0);
    } else {
    }
}

/// Instantiation to the left at the next depth.
pub proof fn lemma_instantiate_l_deeper(depth: nat, names: nat, ctx: Seq<Elem>, a: Seq<char>, ty: Ty)
    requires
        !gave_up(instantiate_l_rule(depth, names, ctx, a, ty).1),
    ensures
        instantiate_l_rule(depth + 1, names, ctx, a, ty) == instantiate_l_rule(depth, names, ctx, a, ty),
    decreases depth,
{
    if depth == 0 {
    } else if ty is Existential && ordered(ctx, a, ty->Existential_0) {
    } else if ty is Fun {
        if ctx.contains(Elem::ExVar(a)) {
            let d = (depth - 1) as nat;
            let a2 = fresh_name(names + 1);
            let a1 = fresh_name(names + 2);
            let start = articulated(ctx, a, a1, a2);
            lemma_instantiate_r_deeper(d, names + 2, start, *ty->arg, a1);
            let (made, first) = instantiate_r_rule(d, names + 2, start, *ty->arg, a1);
            if let Ok(theta) = first {
                lemma_instantiate_l_deeper(d, made, theta, a2, applied(theta, *ty->result));
            }
        }
    } else if ty is Poly {
        let count = ty->vars.len();
        let fresh = fresh_names(names, count);
        lemma_instantiate_l_deeper(
            (depth - 1) as nat,
            names + count,
            ctx + as_universals(fresh),
            a,
            renamed(*ty->body, ty->vars, fresh, false),
        );
    } else {
    }
}

/// Instantiation to the right at the next depth.
pub proof fn lemma_instantiate_r_deeper(depth: nat, names: nat, ctx: Seq<Elem>, ty: Ty, a: Seq<char>)
    requires
        !gave_up(instantiate_r_rule(depth, names, ctx, ty, a).1),
    ensures
        instantiate_r_rule(depth + 1, names, ctx, ty, a) == instantiate_r_rule(depth, names, ctx, ty, a),
    decreases depth,
{
    if depth == 0 {
    } else if ty is Existential && ordered(ctx, a, ty->Existential_0) {
    } else if ty is Fun {
        if ctx.contains(Elem::ExVar(a)) {
            let d = (depth - 1) as nat;
            let a1 = fresh_name(names + 1);
            let a2 = fresh_name(names + 2);
            let start = articulated(ctx, a, a1, a2);
            lemma_instantiate_l_deeper(d, names + 2, start, a1, *ty->arg);
            let (made, first) = instantiate_l_rule(d, names + 2, start, a1, *ty->arg);
            if let Ok(theta) = first {
                lemma_instantiate_r_deeper(d, made, theta, applied(theta, *ty->result), a2);
            }
        }
    } else if ty is Poly {
        let count = ty->vars.len();
        let fresh = fresh_names(names, count);
        lemma_instantiate_r_deeper(
            (depth - 1) as nat,
            names + count,
            ctx + as_marked_existentials(fresh),
            renamed(*ty->body, ty->vars, fresh, true),
            a,
        );
    } else {
    }
}

/// Checking at the next depth.
pub proof fn lemma_check_deeper(depth: nat, names: nat, ctx: Seq<Elem>, e: Term, ty: Ty)
    requires
        !gave_up(check_rule(depth, names, ctx, e, ty).1),
    ensures
        check_rule(depth + 1, names, ctx, e, ty) == check_rule(depth, names, ctx, e, ty),
    decreases depth,
{
    if depth == 0 {
    } else if literal_of(e, ty) {
    } else if e is Lambda && ty is Fun {
        lemma_check_deeper(
            (depth - 1) as nat,
            names,
            ctx.push(Elem::Anno(e->binder, *ty->arg)),
            *e->body,
            *ty->result,
        );
    } else if ty is Poly {
        let count = ty->vars.len();
        let fresh = fresh_names(names, count);
        lemma_check_deeper(
            (depth - 1) as nat,
            names + count,
            ctx + as_universals(fresh),
            e,
            renamed(*ty->body, ty->vars, fresh, false),
        );
    } else {
        let d = (depth - 1) as nat;
        lemma_infer_deeper(d, names, ctx, e);
        let (made, inferred) = infer_rule(d, names, ctx, e);
        if let Ok((theta, found)) = inferred {
            lemma_subtype_deeper(d, made, theta, applied(theta, found), applied(theta, ty));
        }
    }
}

/// Inference at the next depth.
pub proof fn lemma_infer_deeper(depth: nat, names: nat, ctx: Seq<Elem>, e: Term)
    requires
        !gave_up(infer_rule(depth, names, ctx, e).1),
    ensures
        infer_rule(depth + 1, names, ctx, e) == infer_rule(depth, names, ctx, e),
    decreases depth,
{
    if depth > 0 {
        let d = (depth - 1) as nat;
        match e {
            Term::Ann { expr, ty } => {
                if type_wf(ctx, ty) {
                    lemma_check_deeper(d, names, ctx, *expr, ty);
                }
            },
            Term::Lambda { binder, body } => {
                let x = fresh_name(names + 1);
                let a = fresh_name(names + 2);
                let b = fresh_name(names + 3);
                let marker = Elem::Anno(x, Ty::Existential(a));
                lemma_check_deeper(
                    d,
                    names + 3,
                    ctx + seq![Elem::ExVar(a), Elem::ExVar(b), marker],
                    body.subst(binder, Term::Var(x)),
                    Ty::Existential(b),
                );
            },
            Term::App { func, arg } => {
                lemma_infer_deeper(d, names, ctx, *func);
                let (made, inferred) = infer_rule(d, names, ctx, *func);
                if let Ok((theta, found)) = inferred {
                    lemma_infer_application_deeper(d, made, theta, applied(theta, found), *arg);
                }
            },
            _ => {},
        }
    }
}

/// Application at the next depth.
pub proof fn lemma_infer_application_deeper(depth: nat, names: nat, ctx: Seq<Elem>, ty: Ty, e: Term)
    requires
        !gave_up(infer_application_rule(depth, names, ctx, ty, e).1),
    ensures
        infer_application_rule(depth + 1, names, ctx, ty, e) == infer_application_rule(
            depth,
            names,
            ctx,
            ty,
            e,
        ),
    decreases depth,
{
    if depth > 0 {
        let d = (depth - 1) as nat;
        match ty {
            Ty::Poly { vars, body } => {
                let count = vars.len();
                let fresh = fresh_names(names, count);
                lemma_infer_application_deeper(
                    d,
                    names + count,
                    ctx + as_existentials(fresh),
                    renamed(*body, vars, fresh, true),
                    e,
                );
            },
            Ty::Existential(a) => {
                if ctx.contains(Elem::ExVar(a)) {
                    let a1 = fresh_name(names + 1);
                    let a2 = fresh_name(names + 2);
                    lemma_check_deeper(d, names + 2, articulated(ctx, a, a1, a2), e, Ty::Existential(a1));
                }
            },
            Ty::Fun { arg, result } => {
                lemma_check_deeper(d, names, ctx, e, *arg);
            },
            _ => {},
        }
    }
}

/// What checking reaches at one depth, it reaches at every greater depth.
pub proof fn lemma_check_stable(depth: nat, deeper: nat, names: nat, ctx: Seq<Elem>, e: Term, ty: Ty)
    requires
        depth <= deeper,
        !gave_up(check_rule(depth, names, ctx, e, ty).1),
    ensures
        check_rule(deeper, names, ctx, e, ty) == check_rule(depth, names, ctx, e, ty),
    decreases deeper - depth,
{
    if depth < deeper {
        lemma_check_deeper(depth, names, ctx, e, ty);
        lemma_check_stable(depth + 1, deeper, names, ctx, e, ty);
    }
}

/// What inference reaches at one depth, it reaches at every greater depth.
pub proof fn lemma_infer_stable(depth: nat, deeper: nat, names: nat, ctx: Seq<Elem>, e: Term)
    requires
        depth <= deeper,
        !gave_up(infer_rule(depth, names, ctx, e).1),
    ensures
        infer_rule(deeper, names, ctx, e) == infer_rule(depth, names, ctx, e),
    decreases deeper - depth,
{
    if depth < deeper {
        lemma_infer_deeper(depth, names, ctx, e);
        lemma_infer_stable(depth + 1, deeper, names, ctx, e);
    }
}

/// What application reaches at one depth, it reaches at every greater
/// depth.
pub proof fn lemma_infer_application_stable(
    depth: nat,
    deeper: nat,
    names: nat,
    ctx: Seq<Elem>,
    ty: Ty,
    e: Term,
)
    requires
        depth <= deeper,
        !gave_up(infer_application_rule(depth, names, ctx, ty, e).1),
    ensures
        infer_application_rule(deeper, names, ctx, ty, e) == infer_application_rule(depth, names, ctx, ty, e),
    decreases deeper - depth,
{
    if depth < deeper {
        lemma_infer_application_deeper(depth, names, ctx, ty, e);
        lemma_infer_application_stable(depth + 1, deeper, names, ctx, ty, e);
    }
}

/// A type that synthesis reaches at one depth, it reaches at every greater
/// depth; and so an error, but that the rules were given up.
pub proof fn lemma_synth_stable(depth: nat, deeper: nat, names: nat, e: Term)
    requires
        depth <= deeper,
        !gave_up(synth_rule(depth, names, e).1),
    ensures
        synth_rule(deeper, names, e) == synth_rule(depth, names, e),
    decreases deeper - depth,
{
    if depth < deeper {
        lemma_infer_deeper(depth, names, Seq::empty(), e);
        lemma_synth_stable(depth + 1, deeper, names, e);
    }
}

/// A context that subtyping reaches at one depth, it reaches at every
/// greater depth; and so an error, but that the rules were given up.
pub proof fn lemma_subtype_stable(depth: nat, deeper: nat, names: nat, ctx: Seq<Elem>, a: Ty, b: Ty)
    requires
        depth <= deeper,
        !gave_up(subtype_rule(depth, names, ctx, a, b).1),
    ensures
        subtype_rule(deeper, names, ctx, a, b) == subtype_rule(depth, names, ctx, a, b),
    decreases deeper - depth,
{
    if depth < deeper {
        lemma_subtype_deeper(depth, names, ctx, a, b);
        lemma_subtype_stable(depth + 1, deeper, names, ctx, a, b);
    }
}

} // verus!
