//! The rules come to an end: for every input on which they find what they
//! rely on, there is a depth at which they are not given up; and by then
//! the result no longer depends on the depth.

use crate::context::{
    applied, as_universals, before, declared, lemma_applied_composed, lemma_applied_existential,
    lemma_applied_existentials, lemma_applied_open, lemma_applied_parts, lemma_applied_prefix,
    lemma_applied_quantifiers, lemma_applied_size, lemma_applied_unsolved,
    lemma_applied_unsolved_existential, lemma_declared_unsolved, lemma_position_exists,
    lemma_solution_of, lemma_unsolved_inserted, ordered, position, type_wf, unsolved, wf, Elem,
};
use crate::depth::{
    gave_up, lemma_infer_application_stable, lemma_infer_stable, lemma_subtype_stable,
    lemma_synth_stable,
};
use crate::expr::{tidy, Term};
use crate::rules::{
    as_existentials, check_rule, infer_application_rule, infer_rule, literal_of, synth_rule,
};
use crate::synthesis::{
    lemma_apply_existential_step, lemma_apply_poly_step, lemma_check_lambda_step,
    lemma_check_poly_step, lemma_check_sub_step, lemma_infer_app_step, lemma_infer_defined,
    lemma_infer_lambda_step, lemma_plain_parts, lemma_synth_defined, steady, unbound,
};
use crate::error::Failure;
use crate::extension::{extends, lemma_extends_keeps};
use crate::names::{fresh_name, fresh_names};
use crate::progress::{
    allowed, fits, grown, lemma_applied_allowed, lemma_articulated_next, lemma_articulated_step,
    lemma_fits_free, lemma_fits_parts, lemma_fits_pushed, lemma_fits_renamed, lemma_fits_applied,
    lemma_grown_articulated, lemma_grown_weaken, lemma_inserted_elements,
    lemma_instantiate_l_defined, lemma_instantiate_r_defined, lemma_names_old,
    lemma_reach_defined, lemma_subtype_defined, lemma_unsolved_declared, made_after, open_in,
    within,
};
use crate::rules::{
    arrow, articulated, as_marked_existentials, dropped_to_first, instantiate_l_rule,
    instantiate_r_rule, lemma_renamed_size, renamed, same_atom, subtype_rule,
};
use crate::types::{lemma_quantifiers_mono, lemma_size_atom, plain_binders, Ty};
use crate::validity::{lemma_wf_marked, lemma_wf_universals, names_below};
use vstd::prelude::*;

verus! {

/// Whether `out` takes every unsolved existential of `ctx`, but for `a`, to
/// a primitive, a variable or an existential.
pub open spec fn atoms_kept(ctx: Seq<Elem>, out: Seq<Elem>, a: Seq<char>) -> bool {
    forall|n: Seq<char>|
        ctx.contains(Elem::ExVar(n)) && n != a ==> (#[trigger] applied(out, Ty::Existential(n))).is_atom()
}

/// Solving an existential keeps the others as they are.
proof fn lemma_atoms_solved(ctx: Seq<Elem>, a: Seq<char>, ty: Ty)
    requires
        ctx.contains(Elem::ExVar(a)),
        wf(crate::context::inserted_at(ctx, a, seq![Elem::ExVarSolved(a, ty)])),
    ensures
        atoms_kept(ctx, crate::context::inserted_at(ctx, a, seq![Elem::ExVarSolved(a, ty)]), a),
{
    let elems = seq![Elem::ExVarSolved(a, ty)];
    let out = crate::context::inserted_at(ctx, a, elems);
    lemma_inserted_elements(ctx, a, elems);
    assert forall|n: Seq<char>| ctx.contains(Elem::ExVar(n)) && n != a implies (#[trigger] applied(
        out,
        Ty::Existential(n),
    )).is_atom() by {
        let j = choose|j: int| 0 <= j < ctx.len() && ctx[j] == Elem::ExVar(n);
        assert(ctx[j] != Elem::ExVar(a));
        lemma_applied_unsolved_existential(out, n);
    }
}

/// Solving a later existential to an earlier one takes the later one to
/// the earlier one, and keeps the others as they are.
proof fn lemma_atoms_reach(ctx: Seq<Elem>, a: Seq<char>, b: Seq<char>)
    requires
        ctx.contains(Elem::ExVar(a)),
        ctx.contains(Elem::ExVar(b)),
        a != b,
        wf(crate::context::inserted_at(ctx, b, seq![Elem::ExVarSolved(b, Ty::Existential(a))])),
    ensures
        atoms_kept(
            ctx,
            crate::context::inserted_at(ctx, b, seq![Elem::ExVarSolved(b, Ty::Existential(a))]),
            a,
        ),
{
    let entry = Elem::ExVarSolved(b, Ty::Existential(a));
    let elems = seq![entry];
    let out = crate::context::inserted_at(ctx, b, elems);
    lemma_inserted_elements(ctx, b, elems);
    assert(elems[0] == entry);
    let p = choose|p: int| 0 <= p < out.len() && out[p] == entry;
    let ja = choose|j: int| 0 <= j < ctx.len() && ctx[j] == Elem::ExVar(a);
    assert(ctx[ja] != Elem::ExVar(b));
    lemma_applied_unsolved_existential(out, a);
    assert forall|n: Seq<char>| ctx.contains(Elem::ExVar(n)) && n != a implies (#[trigger] applied(
        out,
        Ty::Existential(n),
    )).is_atom() by {
        if n == b {
            lemma_applied_existential(out, b);
            lemma_solution_of(out, p);
        } else {
            let j = choose|j: int| 0 <= j < ctx.len() && ctx[j] == Elem::ExVar(n);
            assert(ctx[j] != Elem::ExVar(b));
            lemma_applied_unsolved_existential(out, n);
        }
    }
}

/// Leaving a scope keeps what the existentials of the context in which the
/// scope was opened are taken to.
proof fn lemma_atoms_scope(ctx: Seq<Elem>, pushed: Seq<Elem>, delta: Seq<Elem>, out: Seq<Elem>, a: Seq<char>)
    requires
        wf(delta),
        atoms_kept(ctx + pushed, delta, a),
        dropped_to_first(delta, pushed) == Ok::<Seq<Elem>, Failure>(out),
        extends(ctx, out),
    ensures
        atoms_kept(ctx, out, a),
{
    lemma_extends_keeps(ctx, out);
    assert forall|n: Seq<char>| ctx.contains(Elem::ExVar(n)) && n != a implies (#[trigger] applied(
        out,
        Ty::Existential(n),
    )).is_atom() by {
        let j = choose|j: int| 0 <= j < ctx.len() && ctx[j] == Elem::ExVar(n);
        assert((ctx + pushed)[j] == Elem::ExVar(n));
        assert(applied(delta, Ty::Existential(n)).is_atom());
        lemma_unsolved_declared(ctx, n);
        if pushed.len() > 0 {
            lemma_position_exists(delta, pushed[0]);
            let p = position(delta, pushed[0]);
            assert forall|m: Seq<char>| #[trigger] Ty::Existential(n).existentials().contains(m) implies declared(
                delta.take(p),
                m,
            ) by {}
            lemma_applied_prefix(delta, p, Ty::Existential(n));
        }
    }
}

/// The two instantiations that follow the commitment of an existential to
/// the shape of a function keep what the existentials of the context are
/// taken to.
proof fn lemma_atoms_articulated(
    ctx: Seq<Elem>,
    a: Seq<char>,
    ty: Ty,
    made: nat,
    a1: Seq<char>,
    a2: Seq<char>,
    theta: Seq<Elem>,
    out: Seq<Elem>,
)
    requires
        wf(ctx),
        names_below(ctx, made),
        ctx.contains(Elem::ExVar(a)),
        fits(ctx, ty, made),
        !ty.existentials().contains(a),
        ty is Fun,
        a1 != a2,
        made_after(a1, made),
        made_after(a2, made),
        !made_after(a2, made + 2),
        wf(articulated(ctx, a, a1, a2)),
        names_below(articulated(ctx, a, a1, a2), made + 2),
        articulated(ctx, a, a1, a2).contains(Elem::ExVar(a1)),
        wf(theta),
        extends(articulated(ctx, a, a1, a2), theta),
        grown(articulated(ctx, a, a1, a2), theta, ty->arg.existentials().insert(a1), made + 2),
        atoms_kept(articulated(ctx, a, a1, a2), theta, a1),
        wf(out),
        extends(theta, out),
        atoms_kept(theta, out, a2),
    ensures
        atoms_kept(ctx, out, a),
{
    let start = articulated(ctx, a, a1, a2);
    let arg = *ty->arg;
    lemma_grown_articulated(ctx, a, a1, a2, Set::empty().insert(a), made);
    lemma_extends_keeps(start, theta);
    lemma_extends_keeps(theta, out);
    lemma_fits_parts(ctx, ty, made);
    assert forall|n: Seq<char>| ctx.contains(Elem::ExVar(n)) && n != a implies (#[trigger] applied(
        out,
        Ty::Existential(n),
    )).is_atom() by {
        let name = Ty::Existential(n);
        lemma_unsolved_declared(ctx, n);
        lemma_names_old(ctx, made, n);
        assert(start.contains(Elem::ExVar(n)));
        let got = applied(theta, name);
        assert(got.is_atom());
        lemma_applied_composed(theta, out, name);
        lemma_applied_parts(out, got);
        if let Ty::Existential(m) = got {
            assert(got.existentials().contains(m));
            lemma_applied_unsolved(theta, name, m);
            lemma_applied_existentials(theta, name, m);
            lemma_unsolved_declared(start, n);
            lemma_declared_unsolved(theta, m);
            // The second existential is none that the first instantiation
            // may solve to.
            let touched = arg.existentials().insert(a1).insert(n);
            lemma_grown_weaken(start, theta, arg.existentials().insert(a1), made + 2, touched, made + 2);
            assert forall|x: Seq<char>| touched.contains(x) implies start.contains(Elem::ExVar(x)) by {
                if arg.existentials().contains(x) {
                    assert(ty.existentials().contains(x));
                    assert(ctx.contains(Elem::ExVar(x)) && x != a);
                }
            }
            assert(within(name, touched, made + 2));
            lemma_applied_allowed(start, theta, touched, made + 2, name);
            assert(allowed(touched, made + 2, m));
            if m == a2 {
                if arg.existentials().contains(a2) {
                    assert(ty.existentials().contains(a2));
                    lemma_unsolved_declared(ctx, a2);
                    lemma_names_old(ctx, made, a2);
                }
            }
        }
    }
}

/// Instantiation to the left takes the other unsolved existentials to
/// primitives, variables or existentials.
pub proof fn lemma_instantiate_l_atoms(depth: nat, made: nat, ctx: Seq<Elem>, a: Seq<char>, ty: Ty)
    requires
        wf(ctx),
        names_below(ctx, made),
        ctx.contains(Elem::ExVar(a)),
        fits(ctx, ty, made),
        !ty.existentials().contains(a),
    ensures
        instantiate_l_rule(depth, made, ctx, a, ty).1 matches Ok(out) ==> atoms_kept(ctx, out, a),
    decreases depth,
{
    lemma_instantiate_l_defined(depth, made, ctx, a, ty);
    if depth == 0 {
    } else if ty is Existential && ordered(ctx, a, ty->Existential_0) {
        let b = ty->Existential_0;
        assert(ty.existentials().contains(b));
        lemma_reach_defined(ctx, a, b, ty.existentials().insert(a), made);
        lemma_atoms_reach(ctx, a, b);
    } else if ty is Fun {
        let d = (depth - 1) as nat;
        let a2 = fresh_name(made + 1);
        let a1 = fresh_name(made + 2);
        lemma_articulated_step(ctx, a, ty, made, a1, a2);
        let start = articulated(ctx, a, a1, a2);
        let arg = *ty->arg;
        let result = *ty->result;
        lemma_instantiate_r_defined(d, made + 2, start, arg, a1);
        lemma_instantiate_r_atoms(d, made + 2, start, arg, a1);
        let (next, first) = instantiate_r_rule(d, made + 2, start, arg, a1);
        if let Ok(theta) = first {
            let rest = applied(theta, result);
            lemma_articulated_next(ctx, a, ty, made, a1, a2, theta, next);
            lemma_instantiate_l_defined(d, next, theta, a2, rest);
            lemma_instantiate_l_atoms(d, next, theta, a2, rest);
            if let Ok(out) = instantiate_l_rule(d, next, theta, a2, rest).1 {
                lemma_atoms_articulated(ctx, a, ty, made, a1, a2, theta, out);
            }
        }
    } else if ty is Poly {
        let count = ty->vars.len();
        let d = (depth - 1) as nat;
        let fresh = fresh_names(made, count);
        let pushed = as_universals(fresh);
        let body = *ty->body;
        let renamed_body = renamed(body, ty->vars, fresh, false);
        lemma_fits_parts(ctx, ty, made);
        lemma_fits_renamed(ctx, ty->vars, body, made, false);
        lemma_wf_universals(ctx, made, count);
        assert(!renamed_body.existentials().contains(a)) by {
            if renamed_body.existentials().contains(a) {
                lemma_unsolved_declared(ctx, a);
                lemma_names_old(ctx, made, a);
            }
        }
        lemma_instantiate_l_defined(d, made + count, ctx + pushed, a, renamed_body);
        lemma_instantiate_l_atoms(d, made + count, ctx + pushed, a, renamed_body);
        if let Ok(delta) = instantiate_l_rule(d, made + count, ctx + pushed, a, renamed_body).1 {
            if let Ok(out) = dropped_to_first(delta, pushed) {
                lemma_atoms_scope(ctx, pushed, delta, out, a);
            }
        }
    } else {
        if type_wf(before(ctx, Elem::ExVar(a)), ty) {
            lemma_atoms_solved(ctx, a, ty);
        }
    }
}

/// Instantiation to the right takes the other unsolved existentials to
/// primitives, variables or existentials.
pub proof fn lemma_instantiate_r_atoms(depth: nat, made: nat, ctx: Seq<Elem>, ty: Ty, a: Seq<char>)
    requires
        wf(ctx),
        names_below(ctx, made),
        ctx.contains(Elem::ExVar(a)),
        fits(ctx, ty, made),
        !ty.existentials().contains(a),
    ensures
        instantiate_r_rule(depth, made, ctx, ty, a).1 matches Ok(out) ==> atoms_kept(ctx, out, a),
    decreases depth,
{
    lemma_instantiate_r_defined(depth, made, ctx, ty, a);
    if depth == 0 {
    } else if ty is Existential && ordered(ctx, a, ty->Existential_0) {
        let b = ty->Existential_0;
        assert(ty.existentials().contains(b));
        lemma_reach_defined(ctx, a, b, ty.existentials().insert(a), made);
        lemma_atoms_reach(ctx, a, b);
    } else if ty is Fun {
        let d = (depth - 1) as nat;
        let a1 = fresh_name(made + 1);
        let a2 = fresh_name(made + 2);
        lemma_articulated_step(ctx, a, ty, made, a1, a2);
        let start = articulated(ctx, a, a1, a2);
        let arg = *ty->arg;
        let result = *ty->result;
        lemma_instantiate_l_defined(d, made + 2, start, a1, arg);
        lemma_instantiate_l_atoms(d, made + 2, start, a1, arg);
        let (next, first) = instantiate_l_rule(d, made + 2, start, a1, arg);
        if let Ok(theta) = first {
            let rest = applied(theta, result);
            lemma_articulated_next(ctx, a, ty, made, a1, a2, theta, next);
            lemma_instantiate_r_defined(d, next, theta, rest, a2);
            lemma_instantiate_r_atoms(d, next, theta, rest, a2);
            if let Ok(out) = instantiate_r_rule(d, next, theta, rest, a2).1 {
                lemma_atoms_articulated(ctx, a, ty, made, a1, a2, theta, out);
            }
        }
    } else if ty is Poly {
        let count = ty->vars.len();
        let d = (depth - 1) as nat;
        let fresh = fresh_names(made, count);
        let pushed = as_marked_existentials(fresh);
        let body = *ty->body;
        let renamed_body = renamed(body, ty->vars, fresh, true);
        lemma_fits_parts(ctx, ty, made);
        lemma_fits_renamed(ctx, ty->vars, body, made, true);
        lemma_wf_marked(ctx, made, count);
        assert(!renamed_body.existentials().contains(a)) by {
            if renamed_body.existentials().contains(a) {
                lemma_unsolved_declared(ctx, a);
                lemma_names_old(ctx, made, a);
            }
        }
        lemma_instantiate_r_defined(d, made + count, ctx + pushed, renamed_body, a);
        lemma_instantiate_r_atoms(d, made + count, ctx + pushed, renamed_body, a);
        if let Ok(delta) = instantiate_r_rule(d, made + count, ctx + pushed, renamed_body, a).1 {
            if let Ok(out) = dropped_to_first(delta, pushed) {
                lemma_atoms_scope(ctx, pushed, delta, out, a);
            }
        }
    } else {
        if type_wf(before(ctx, Elem::ExVar(a)), ty) {
            lemma_atoms_solved(ctx, a, ty);
        }
    }
}

/// What the first of the two instantiations gives, applied to the result
/// of the function, has as many nodes as the result.
proof fn lemma_articulated_size(
    ctx: Seq<Elem>,
    a: Seq<char>,
    ty: Ty,
    made: nat,
    a1: Seq<char>,
    a2: Seq<char>,
    theta: Seq<Elem>,
)
    requires
        wf(ctx),
        names_below(ctx, made),
        ctx.contains(Elem::ExVar(a)),
        fits(ctx, ty, made),
        !ty.existentials().contains(a),
        ty is Fun,
        made_after(a1, made),
        made_after(a2, made),
        atoms_kept(articulated(ctx, a, a1, a2), theta, a1),
    ensures
        applied(theta, *ty->result).size() == ty->result.size(),
        ty.size() == 1 + ty->arg.size() + ty->result.size(),
{
    let result = *ty->result;
    lemma_grown_articulated(ctx, a, a1, a2, Set::empty().insert(a), made);
    assert forall|n: Seq<char>| #[trigger] result.existentials().contains(n) implies applied(
        theta,
        Ty::Existential(n),
    ).size() == 1 by {
        assert(ty.existentials().contains(n));
        lemma_unsolved_declared(ctx, n);
        lemma_names_old(ctx, made, n);
        lemma_size_atom(applied(theta, Ty::Existential(n)));
    }
    lemma_applied_size(theta, result);
}

/// Instantiation to the left comes to an end: at a depth of no less than
/// the number of nodes of the type it is not given up.
pub proof fn lemma_instantiate_l_terminates(depth: nat, made: nat, ctx: Seq<Elem>, a: Seq<char>, ty: Ty)
    requires
        wf(ctx),
        names_below(ctx, made),
        ctx.contains(Elem::ExVar(a)),
        fits(ctx, ty, made),
        !ty.existentials().contains(a),
        depth >= ty.size(),
    ensures
        !gave_up(instantiate_l_rule(depth, made, ctx, a, ty).1),
    decreases depth,
{
    lemma_size_atom(ty);
    if ty is Existential && ordered(ctx, a, ty->Existential_0) {
    } else if ty is Fun {
        let d = (depth - 1) as nat;
        let a2 = fresh_name(made + 1);
        let a1 = fresh_name(made + 2);
        lemma_articulated_step(ctx, a, ty, made, a1, a2);
        let start = articulated(ctx, a, a1, a2);
        let arg = *ty->arg;
        let result = *ty->result;
        lemma_size_atom(result);
        lemma_instantiate_r_defined(d, made + 2, start, arg, a1);
        lemma_instantiate_r_atoms(d, made + 2, start, arg, a1);
        lemma_instantiate_r_terminates(d, made + 2, start, arg, a1);
        let (next, first) = instantiate_r_rule(d, made + 2, start, arg, a1);
        if let Ok(theta) = first {
            let rest = applied(theta, result);
            lemma_articulated_next(ctx, a, ty, made, a1, a2, theta, next);
            lemma_articulated_size(ctx, a, ty, made, a1, a2, theta);
            lemma_size_atom(arg);
            lemma_instantiate_l_terminates(d, next, theta, a2, rest);
        }
    } else if ty is Poly {
        let count = ty->vars.len();
        let d = (depth - 1) as nat;
        let fresh = fresh_names(made, count);
        let pushed = as_universals(fresh);
        let body = *ty->body;
        let renamed_body = renamed(body, ty->vars, fresh, false);
        lemma_fits_parts(ctx, ty, made);
        lemma_fits_renamed(ctx, ty->vars, body, made, false);
        lemma_wf_universals(ctx, made, count);
        lemma_renamed_size(body, ty->vars, fresh, false);
        assert(!renamed_body.existentials().contains(a)) by {
            if renamed_body.existentials().contains(a) {
                lemma_unsolved_declared(ctx, a);
                lemma_names_old(ctx, made, a);
            }
        }
        lemma_instantiate_l_terminates(d, made + count, ctx + pushed, a, renamed_body);
    } else {
    }
}

/// Instantiation to the right comes to an end.
pub proof fn lemma_instantiate_r_terminates(depth: nat, made: nat, ctx: Seq<Elem>, ty: Ty, a: Seq<char>)
    requires
        wf(ctx),
        names_below(ctx, made),
        ctx.contains(Elem::ExVar(a)),
        fits(ctx, ty, made),
        !ty.existentials().contains(a),
        depth >= ty.size(),
    ensures
        !gave_up(instantiate_r_rule(depth, made, ctx, ty, a).1),
    decreases depth,
{
    lemma_size_atom(ty);
    if ty is Existential && ordered(ctx, a, ty->Existential_0) {
    } else if ty is Fun {
        let d = (depth - 1) as nat;
        let a1 = fresh_name(made + 1);
        let a2 = fresh_name(made + 2);
        lemma_articulated_step(ctx, a, ty, made, a1, a2);
        let start = articulated(ctx, a, a1, a2);
        let arg = *ty->arg;
        let result = *ty->result;
        lemma_size_atom(result);
        lemma_instantiate_l_defined(d, made + 2, start, a1, arg);
        lemma_instantiate_l_atoms(d, made + 2, start, a1, arg);
        lemma_instantiate_l_terminates(d, made + 2, start, a1, arg);
        let (next, first) = instantiate_l_rule(d, made + 2, start, a1, arg);
        if let Ok(theta) = first {
            let rest = applied(theta, result);
            lemma_articulated_next(ctx, a, ty, made, a1, a2, theta, next);
            lemma_articulated_size(ctx, a, ty, made, a1, a2, theta);
            lemma_size_atom(arg);
            lemma_instantiate_r_terminates(d, next, theta, rest, a2);
        }
    } else if ty is Poly {
        let count = ty->vars.len();
        let d = (depth - 1) as nat;
        let fresh = fresh_names(made, count);
        let pushed = as_marked_existentials(fresh);
        let body = *ty->body;
        let renamed_body = renamed(body, ty->vars, fresh, true);
        lemma_fits_parts(ctx, ty, made);
        lemma_fits_renamed(ctx, ty->vars, body, made, true);
        lemma_wf_marked(ctx, made, count);
        lemma_renamed_size(body, ty->vars, fresh, true);
        assert(!renamed_body.existentials().contains(a)) by {
            if renamed_body.existentials().contains(a) {
                lemma_unsolved_declared(ctx, a);
                lemma_names_old(ctx, made, a);
            }
        }
        lemma_instantiate_r_terminates(d, made + count, ctx + pushed, renamed_body, a);
    } else {
    }
}

/// Instantiation to the left against a monotype solves one existential:
/// what it gives back has one unsolved existential less.
pub proof fn lemma_instantiate_l_solves(depth: nat, made: nat, ctx: Seq<Elem>, a: Seq<char>, ty: Ty)
    requires
        wf(ctx),
        names_below(ctx, made),
        ctx.contains(Elem::ExVar(a)),
        fits(ctx, ty, made),
        !ty.existentials().contains(a),
        ty.is_mono(),
    ensures
        instantiate_l_rule(depth, made, ctx, a, ty).1 matches Ok(out) ==> unsolved(out) + 1 == unsolved(ctx),
    decreases depth,
{
    if depth == 0 {
    } else if ty is Existential && ordered(ctx, a, ty->Existential_0) {
        let b = ty->Existential_0;
        assert(ty.existentials().contains(b));
        lemma_solved_count(ctx, b, Ty::Existential(a));
    } else if ty is Fun {
        let d = (depth - 1) as nat;
        let a2 = fresh_name(made + 1);
        let a1 = fresh_name(made + 2);
        lemma_articulated_step(ctx, a, ty, made, a1, a2);
        lemma_articulated_count(ctx, a, a1, a2);
        let start = articulated(ctx, a, a1, a2);
        let arg = *ty->arg;
        let result = *ty->result;
        lemma_instantiate_r_defined(d, made + 2, start, arg, a1);
        lemma_instantiate_r_solves(d, made + 2, start, arg, a1);
        let (next, first) = instantiate_r_rule(d, made + 2, start, arg, a1);
        if let Ok(theta) = first {
            let rest = applied(theta, result);
            lemma_articulated_next(ctx, a, ty, made, a1, a2, theta, next);
            lemma_applied_quantifiers(theta, result);
            lemma_quantifiers_mono(result);
            lemma_quantifiers_mono(rest);
            lemma_instantiate_l_solves(d, next, theta, a2, rest);
        }
    } else if ty is Poly {
    } else {
        lemma_solved_count(ctx, a, ty);
    }
}

/// Instantiation to the right against a monotype solves one existential.
pub proof fn lemma_instantiate_r_solves(depth: nat, made: nat, ctx: Seq<Elem>, ty: Ty, a: Seq<char>)
    requires
        wf(ctx),
        names_below(ctx, made),
        ctx.contains(Elem::ExVar(a)),
        fits(ctx, ty, made),
        !ty.existentials().contains(a),
        ty.is_mono(),
    ensures
        instantiate_r_rule(depth, made, ctx, ty, a).1 matches Ok(out) ==> unsolved(out) + 1 == unsolved(ctx),
    decreases depth,
{
    if depth == 0 {
    } else if ty is Existential && ordered(ctx, a, ty->Existential_0) {
        let b = ty->Existential_0;
        assert(ty.existentials().contains(b));
        lemma_solved_count(ctx, b, Ty::Existential(a));
    } else if ty is Fun {
        let d = (depth - 1) as nat;
        let a1 = fresh_name(made + 1);
        let a2 = fresh_name(made + 2);
        lemma_articulated_step(ctx, a, ty, made, a1, a2);
        lemma_articulated_count(ctx, a, a1, a2);
        let start = articulated(ctx, a, a1, a2);
        let arg = *ty->arg;
        let result = *ty->result;
        lemma_instantiate_l_defined(d, made + 2, start, a1, arg);
        lemma_instantiate_l_solves(d, made + 2, start, a1, arg);
        let (next, first) = instantiate_l_rule(d, made + 2, start, a1, arg);
        if let Ok(theta) = first {
            let rest = applied(theta, result);
            lemma_articulated_next(ctx, a, ty, made, a1, a2, theta, next);
            lemma_applied_quantifiers(theta, result);
            lemma_quantifiers_mono(result);
            lemma_quantifiers_mono(rest);
            lemma_instantiate_r_solves(d, next, theta, rest, a2);
        }
    } else if ty is Poly {
    } else {
        lemma_solved_count(ctx, a, ty);
    }
}

/// Solving an existential leaves one unsolved existential less.
proof fn lemma_solved_count(ctx: Seq<Elem>, a: Seq<char>, ty: Ty)
    requires
        ctx.contains(Elem::ExVar(a)),
    ensures
        unsolved(crate::context::inserted_at(ctx, a, seq![Elem::ExVarSolved(a, ty)])) + 1 == unsolved(ctx),
{
    let elems = seq![Elem::ExVarSolved(a, ty)];
    lemma_unsolved_inserted(ctx, a, elems);
    assert(elems.drop_last() =~= Seq::<Elem>::empty());
    assert(unsolved(elems) == 0) by {
        reveal_with_fuel(unsolved, 2);
    }
}

/// Committing an existential to the shape of a function leaves one
/// unsolved existential more.
proof fn lemma_articulated_count(ctx: Seq<Elem>, a: Seq<char>, a1: Seq<char>, a2: Seq<char>)
    requires
        ctx.contains(Elem::ExVar(a)),
    ensures
        unsolved(articulated(ctx, a, a1, a2)) == unsolved(ctx) + 1,
{
    let elems = seq![Elem::ExVar(a2), Elem::ExVar(a1), Elem::ExVarSolved(a, arrow(a1, a2))];
    lemma_unsolved_inserted(ctx, a, elems);
    let two = elems.drop_last();
    let one = two.drop_last();
    assert(one.drop_last() =~= Seq::<Elem>::empty());
    assert(two.last() == Elem::ExVar(a1));
    assert(one.last() == Elem::ExVar(a2));
    assert(unsolved(elems) == 2) by {
        reveal_with_fuel(unsolved, 4);
    }
}

/// Subtyping between monotypes solves existentials or changes nothing:
/// what it gives back is the context, or has fewer unsolved existentials.
pub proof fn lemma_subtype_mono(depth: nat, made: nat, ctx: Seq<Elem>, a: Ty, b: Ty)
    requires
        wf(ctx),
        names_below(ctx, made),
        fits(ctx, a, made),
        fits(ctx, b, made),
        a.is_mono(),
        b.is_mono(),
    ensures
        subtype_rule(depth, made, ctx, a, b).1 matches Ok(out) ==> out == ctx || unsolved(out) < unsolved(ctx),
    decreases depth,
{
    if depth == 0 {
    } else if same_atom(a, b) {
    } else if a is Fun && b is Fun {
        let d = (depth - 1) as nat;
        let a1 = *a->arg;
        let a2 = *a->result;
        let b1 = *b->arg;
        let b2 = *b->result;
        lemma_fits_parts(ctx, a, made);
        lemma_fits_parts(ctx, b, made);
        lemma_subtype_defined(d, made, ctx, b1, a1);
        lemma_subtype_mono(d, made, ctx, b1, a1);
        let (next, first) = subtype_rule(d, made, ctx, b1, a1);
        if let Ok(theta) = first {
            let touched = b1.existentials().union(a1.existentials());
            let left = applied(theta, a2);
            let right = applied(theta, b2);
            lemma_fits_applied(ctx, theta, touched, made, next, a2);
            lemma_fits_applied(ctx, theta, touched, made, next, b2);
            lemma_applied_quantifiers(theta, a2);
            lemma_applied_quantifiers(theta, b2);
            lemma_quantifiers_mono(a2);
            lemma_quantifiers_mono(b2);
            lemma_quantifiers_mono(left);
            lemma_quantifiers_mono(right);
            lemma_subtype_mono(d, next, theta, left, right);
        }
    } else if b is Poly {
    } else if a is Poly {
    } else if a is Existential && !b.free_vars().contains(a->Existential_0) {
        let name = a->Existential_0;
        assert(a.existentials().contains(name));
        lemma_fits_free(ctx, b, made);
        lemma_instantiate_l_solves((depth - 1) as nat, made, ctx, name, b);
    } else if b is Existential && !a.free_vars().contains(b->Existential_0) {
        let name = b->Existential_0;
        assert(b.existentials().contains(name));
        lemma_fits_free(ctx, a, made);
        lemma_instantiate_r_solves((depth - 1) as nat, made, ctx, a, name);
    } else {
    }
}

/// The greater of two numbers.
pub open spec fn greater(x: nat, y: nat) -> nat {
    if x >= y {
        x
    } else {
        y
    }
}

/// Subtyping comes to an end: where the context is well formed and
/// declares no name that is still to be made, and both types fit it,
/// there is a depth at which subtyping is not given up.
pub proof fn lemma_subtype_terminates(made: nat, ctx: Seq<Elem>, a: Ty, b: Ty) -> (depth: nat)
    requires
        wf(ctx),
        names_below(ctx, made),
        fits(ctx, a, made),
        fits(ctx, b, made),
    ensures
        !gave_up(subtype_rule(depth, made, ctx, a, b).1),
    decreases a.quantifiers() + b.quantifiers(), unsolved(ctx), a.size() + b.size(),
{
    lemma_size_atom(a);
    lemma_size_atom(b);
    if same_atom(a, b) {
        1
    } else if a is Fun && b is Fun {
        let a1 = *a->arg;
        let a2 = *a->result;
        let b1 = *b->arg;
        let b2 = *b->result;
        lemma_fits_parts(ctx, a, made);
        lemma_fits_parts(ctx, b, made);
        lemma_size_atom(a2);
        lemma_size_atom(b2);
        let d1 = lemma_subtype_terminates(made, ctx, b1, a1);
        lemma_subtype_defined(d1, made, ctx, b1, a1);
        let (next, first) = subtype_rule(d1, made, ctx, b1, a1);
        match first {
            Ok(theta) => {
                let touched = b1.existentials().union(a1.existentials());
                let left = applied(theta, a2);
                let right = applied(theta, b2);
                lemma_fits_applied(ctx, theta, touched, made, next, a2);
                lemma_fits_applied(ctx, theta, touched, made, next, b2);
                lemma_applied_quantifiers(theta, a2);
                lemma_applied_quantifiers(theta, b2);
                if a1.quantifiers() + b1.quantifiers() == 0 {
                    lemma_quantifiers_mono(a1);
                    lemma_quantifiers_mono(b1);
                    lemma_subtype_mono(d1, made, ctx, b1, a1);
                    if theta == ctx {
                        lemma_applied_open(ctx, a2);
                        lemma_applied_open(ctx, b2);
                    }
                }
                let d2 = lemma_subtype_terminates(next, theta, left, right);
                let sub = greater(d1, d2);
                lemma_subtype_stable(d1, sub, made, ctx, b1, a1);
                lemma_subtype_stable(d2, sub, next, theta, left, right);
                sub + 1
            },
            Err(e) => d1 + 1,
        }
    } else if b is Poly {
        let count = b->vars.len();
        let fresh = fresh_names(made, count);
        let pushed = as_universals(fresh);
        let body = *b->body;
        let renamed_body = renamed(body, b->vars, fresh, false);
        lemma_fits_parts(ctx, b, made);
        lemma_fits_renamed(ctx, b->vars, body, made, false);
        lemma_fits_pushed(ctx, pushed, a, made, made + count);
        lemma_wf_universals(ctx, made, count);
        lemma_renamed_size(body, b->vars, fresh, false);
        let d = lemma_subtype_terminates(made + count, ctx + pushed, a, renamed_body);
        d + 1
    } else if a is Poly {
        let count = a->vars.len();
        let fresh = fresh_names(made, count);
        let pushed = as_marked_existentials(fresh);
        let body = *a->body;
        let renamed_body = renamed(body, a->vars, fresh, true);
        lemma_fits_parts(ctx, a, made);
        lemma_fits_renamed(ctx, a->vars, body, made, true);
        lemma_fits_pushed(ctx, pushed, b, made, made + count);
        lemma_wf_marked(ctx, made, count);
        lemma_renamed_size(body, a->vars, fresh, true);
        let d = lemma_subtype_terminates(made + count, ctx + pushed, renamed_body, b);
        d + 1
    } else if a is Existential && !b.free_vars().contains(a->Existential_0) {
        let name = a->Existential_0;
        assert(a.existentials().contains(name));
        lemma_fits_free(ctx, b, made);
        lemma_instantiate_l_terminates(b.size(), made, ctx, name, b);
        b.size() + 1
    } else if b is Existential && !a.free_vars().contains(b->Existential_0) {
        let name = b->Existential_0;
        assert(b.existentials().contains(name));
        lemma_fits_free(ctx, a, made);
        lemma_instantiate_r_terminates(a.size(), made, ctx, a, name);
        a.size() + 1
    } else {
        1
    }
}

/// From the depth at which subtyping comes to an end on, the depth makes
/// no difference.
pub proof fn lemma_subtype_settles(made: nat, ctx: Seq<Elem>, a: Ty, b: Ty) -> (depth: nat)
    requires
        wf(ctx),
        names_below(ctx, made),
        fits(ctx, a, made),
        fits(ctx, b, made),
    ensures
        !gave_up(subtype_rule(depth, made, ctx, a, b).1),
        forall|deeper: nat|
            deeper >= depth ==> #[trigger] subtype_rule(deeper, made, ctx, a, b) == subtype_rule(
                depth,
                made,
                ctx,
                a,
                b,
            ),
{
    let depth = lemma_subtype_terminates(made, ctx, a, b);
    assert forall|deeper: nat| deeper >= depth implies #[trigger] subtype_rule(deeper, made, ctx, a, b)
        == subtype_rule(depth, made, ctx, a, b) by {
        lemma_subtype_stable(depth, deeper, made, ctx, a, b);
    }
    depth
}

/// Checking comes to an end: for a tidy expression, in a steady context
/// that annotates none of the variables that the expression binds, and
/// against a type that is well formed, binds no generated name and holds
/// none but unsolved existentials, there is a depth at which checking is
/// not given up.
pub proof fn lemma_check_terminates(made: nat, ctx: Seq<Elem>, e: Term, ty: Ty) -> (depth: nat)
    requires
        steady(ctx, made),
        tidy(e),
        unbound(ctx, e),
        type_wf(ctx, ty),
        plain_binders(ty),
        open_in(ctx, ty),
    ensures
        !gave_up(check_rule(depth, made, ctx, e, ty).1),
    decreases e.size(), 1nat, ty.quantifiers(),
{
    if literal_of(e, ty) {
        1
    } else if e is Lambda && ty is Fun {
        let marker = Elem::Anno(e->binder, *ty->arg);
        lemma_check_lambda_step(ctx, made, e, ty);
        let d = lemma_check_terminates(made, ctx.push(marker), *e->body, *ty->result);
        d + 1
    } else if ty is Poly {
        let count = ty->vars.len();
        let fresh = fresh_names(made, count);
        let pushed = as_universals(fresh);
        let renamed_body = renamed(*ty->body, ty->vars, fresh, false);
        lemma_check_poly_step(ctx, made, e, ty);
        let d = lemma_check_terminates(made + count, ctx + pushed, e, renamed_body);
        d + 1
    } else {
        let d1 = lemma_infer_terminates(made, ctx, e);
        lemma_infer_defined(d1, made, ctx, e);
        let (next, inferred) = infer_rule(d1, made, ctx, e);
        match inferred {
            Ok((theta, found)) => {
                let left = applied(theta, found);
                let right = applied(theta, ty);
                lemma_check_sub_step(ctx, theta, found, ty, next);
                let d2 = lemma_subtype_terminates(next, theta, left, right);
                let sub = greater(d1, d2);
                lemma_infer_stable(d1, sub, made, ctx, e);
                lemma_subtype_stable(d2, sub, next, theta, left, right);
                sub + 1
            },
            Err(err) => d1 + 1,
        }
    }
}

/// Inference comes to an end.
pub proof fn lemma_infer_terminates(made: nat, ctx: Seq<Elem>, e: Term) -> (depth: nat)
    requires
        steady(ctx, made),
        tidy(e),
        unbound(ctx, e),
    ensures
        !gave_up(infer_rule(depth, made, ctx, e).1),
    decreases e.size(), 0nat, 0nat,
{
    match e {
        Term::Ann { expr, ty } => {
            if type_wf(ctx, ty) {
                assert(open_in(ctx, ty));
                assert forall|y: Seq<char>| #[trigger] expr.binders().contains(y) implies !crate::validity::annotated_in(
                    ctx,
                    y,
                ) by {
                    assert(e.binders().contains(y));
                }
                let d = lemma_check_terminates(made, ctx, *expr, ty);
                d + 1
            } else {
                1
            }
        },
        Term::Lambda { binder, body } => {
            let x = fresh_name(made + 1);
            let a = fresh_name(made + 2);
            let b = fresh_name(made + 3);
            let pushed = seq![Elem::ExVar(a), Elem::ExVar(b), Elem::Anno(x, Ty::Existential(a))];
            lemma_infer_lambda_step(ctx, made, e);
            let d = lemma_check_terminates(
                made + 3,
                ctx + pushed,
                body.subst(binder, Term::Var(x)),
                Ty::Existential(b),
            );
            d + 1
        },
        Term::App { func, arg } => {
            assert forall|y: Seq<char>| #[trigger] func.binders().contains(y) implies !crate::validity::annotated_in(
                ctx,
                y,
            ) by {
                assert(e.binders().contains(y));
            }
            let d1 = lemma_infer_terminates(made, ctx, *func);
            lemma_infer_defined(d1, made, ctx, *func);
            let (next, inferred) = infer_rule(d1, made, ctx, *func);
            match inferred {
                Ok((theta, found)) => {
                    let applied_type = applied(theta, found);
                    lemma_infer_app_step(ctx, theta, found, e, next);
                    let d2 = lemma_infer_application_terminates(next, theta, applied_type, *arg);
                    let sub = greater(d1, d2);
                    lemma_infer_stable(d1, sub, made, ctx, *func);
                    lemma_infer_application_stable(d2, sub, next, theta, applied_type, *arg);
                    sub + 1
                },
                Err(err) => d1 + 1,
            }
        },
        _ => 1,
    }
}

/// Application comes to an end.
pub proof fn lemma_infer_application_terminates(made: nat, ctx: Seq<Elem>, ty: Ty, e: Term) -> (depth: nat)
    requires
        steady(ctx, made),
        tidy(e),
        unbound(ctx, e),
        type_wf(ctx, ty),
        plain_binders(ty),
        open_in(ctx, ty),
    ensures
        !gave_up(infer_application_rule(depth, made, ctx, ty, e).1),
    decreases e.size(), 2nat, ty.quantifiers(),
{
    lemma_plain_parts(ty);
    match ty {
        Ty::Poly { vars, body } => {
            let count = vars.len();
            let fresh = fresh_names(made, count);
            lemma_apply_poly_step(ctx, made, ty, e);
            let d = lemma_infer_application_terminates(
                made + count,
                ctx + as_existentials(fresh),
                renamed(*body, vars, fresh, true),
                e,
            );
            d + 1
        },
        Ty::Existential(a) => {
            assert(ty.existentials().contains(a));
            let a1 = fresh_name(made + 1);
            let a2 = fresh_name(made + 2);
            lemma_apply_existential_step(ctx, made, a, e);
            let d = lemma_check_terminates(made + 2, articulated(ctx, a, a1, a2), e, Ty::Existential(a1));
            d + 1
        },
        Ty::Fun { arg, result } => {
            assert forall|n: Seq<char>| #[trigger] arg.existentials().contains(n) implies ctx.contains(
                Elem::ExVar(n),
            ) by {
                assert(ty.existentials().contains(n));
            }
            let d = lemma_check_terminates(made, ctx, e, *arg);
            d + 1
        },
        _ => 1,
    }
}

/// Synthesis comes to an end: for a tidy expression there is a depth at
/// which synthesis is not given up, and from which on the depth makes no
/// difference; and no element that a rule relies on is found missing.
pub proof fn lemma_synth_settles(made: nat, e: Term) -> (depth: nat)
    requires
        tidy(e),
    ensures
        !gave_up(synth_rule(depth, made, e).1),
        !(synth_rule(depth, made, e).1 matches Err(Failure::MalformedContext)),
        forall|deeper: nat|
            deeper >= depth ==> #[trigger] synth_rule(deeper, made, e) == synth_rule(depth, made, e),
{
    let ctx = Seq::<Elem>::empty();
    assert(steady(ctx, made));
    assert(unbound(ctx, e));
    let depth = lemma_infer_terminates(made, ctx, e);
    lemma_synth_defined(depth, made, e);
    assert forall|deeper: nat| deeper >= depth implies #[trigger] synth_rule(deeper, made, e)
        == synth_rule(depth, made, e) by {
        lemma_synth_stable(depth, deeper, made, e);
    }
    depth
}

} // verus!
