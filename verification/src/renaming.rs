//! Renaming: the names that a generator hands out, taken for the names
//! that it hands out later. The functions on types and contexts go along
//! with such a renaming, since it keeps different names different.

use crate::context::{
    annotates, annotation, applied, as_universals, before, carried, declares, first_annotation_at,
    first_at, first_declaration_at, has_solution, inserted_at, lemma_position,
    lemma_position_exists, ordered, position, solves, type_wf, Elem,
};
use crate::names::{fresh_name, fresh_names, lemma_fresh_name_injective, generated};
use crate::types::Ty;
use vstd::prelude::*;

verus! {

/// The number of the generated name.
pub open spec fn number_of(name: Seq<char>) -> nat {
    choose|k: nat| name == #[trigger] fresh_name(k)
}

/// The name, or where it is a generated name, the name that is generated
/// `delta` names later.
pub open spec fn shifted(delta: nat, name: Seq<char>) -> Seq<char> {
    if generated(name) {
        fresh_name(number_of(name) + delta)
    } else {
        name
    }
}

/// The names of a list, shifted.
pub open spec fn shifted_names(delta: nat, names: Seq<Seq<char>>) -> Seq<Seq<char>> {
    Seq::new(names.len(), |i: int| shifted(delta, names[i]))
}

/// The type with its names shifted.
pub open spec fn shifted_ty(delta: nat, ty: Ty) -> Ty
    decreases ty,
{
    match ty {
        Ty::Int => Ty::Int,
        Ty::Bool => Ty::Bool,
        Ty::Var(v) => Ty::Var(shifted(delta, v)),
        Ty::Existential(a) => Ty::Existential(shifted(delta, a)),
        Ty::Poly { vars, body } => Ty::Poly {
            vars: shifted_names(delta, vars),
            body: Box::new(shifted_ty(delta, *body)),
        },
        Ty::Fun { arg, result } => Ty::Fun {
            arg: Box::new(shifted_ty(delta, *arg)),
            result: Box::new(shifted_ty(delta, *result)),
        },
    }
}

/// The element with its names shifted.
pub open spec fn shifted_elem(delta: nat, e: Elem) -> Elem {
    match e {
        Elem::Universal(v) => Elem::Universal(shifted(delta, v)),
        Elem::ExVar(a) => Elem::ExVar(shifted(delta, a)),
        Elem::ExVarSolved(a, t) => Elem::ExVarSolved(shifted(delta, a), shifted_ty(delta, t)),
        Elem::Marker(m) => Elem::Marker(shifted(delta, m)),
        Elem::Anno(x, t) => Elem::Anno(shifted(delta, x), shifted_ty(delta, t)),
    }
}

/// The context with its names shifted.
pub open spec fn shifted_ctx(delta: nat, ctx: Seq<Elem>) -> Seq<Elem> {
    Seq::new(ctx.len(), |i: int| shifted_elem(delta, ctx[i]))
}

/// A generated name, shifted, is the name that is generated later.
pub proof fn lemma_shifted_fresh(delta: nat, k: nat)
    ensures
        shifted(delta, fresh_name(k)) == fresh_name(k + delta),
{
    let name = fresh_name(k);
    assert(generated(name));
    lemma_fresh_name_injective(number_of(name), k);
}

/// Different names stay different when they are shifted.
pub proof fn lemma_shifted_injective(delta: nat, x: Seq<char>, y: Seq<char>)
    requires
        shifted(delta, x) == shifted(delta, y),
    ensures
        x == y,
{
    if generated(x) {
        let kx = number_of(x);
        assert(generated(shifted(delta, x)));
        if generated(y) {
            let ky = number_of(y);
            lemma_fresh_name_injective(kx + delta, ky + delta);
        }
    } else if generated(y) {
        assert(generated(shifted(delta, y)));
    }
}

/// A list holds a name where the shifted list holds the shifted name.
pub proof fn lemma_shifted_names_contains(delta: nat, names: Seq<Seq<char>>, x: Seq<char>)
    ensures
        shifted_names(delta, names).contains(shifted(delta, x)) <==> names.contains(x),
        shifted_names(delta, names).to_set().contains(shifted(delta, x)) <==> names.to_set().contains(x),
{
    let out = shifted_names(delta, names);
    if out.contains(shifted(delta, x)) {
        let i = choose|i: int| 0 <= i < out.len() && out[i] == shifted(delta, x);
        lemma_shifted_injective(delta, names[i], x);
        assert(names[i] == x);
    }
    if names.contains(x) {
        let i = choose|i: int| 0 <= i < names.len() && names[i] == x;
        assert(out[i] == shifted(delta, x));
    }
}

/// Different types stay different when they are shifted.
pub proof fn lemma_shifted_ty_injective(delta: nat, a: Ty, b: Ty)
    requires
        shifted_ty(delta, a) == shifted_ty(delta, b),
    ensures
        a == b,
    decreases a,
{
    match a {
        Ty::Var(x) => {
            lemma_shifted_injective(delta, x, b->Var_0);
        },
        Ty::Existential(x) => {
            lemma_shifted_injective(delta, x, b->Existential_0);
        },
        Ty::Poly { vars, body } => {
            lemma_shifted_ty_injective(delta, *body, *b->body);
            let other = b->vars;
            assert(shifted_names(delta, vars).len() == shifted_names(delta, other).len());
            assert forall|i: int| 0 <= i < vars.len() implies vars[i] == other[i] by {
                assert(shifted_names(delta, vars)[i] == shifted_names(delta, other)[i]);
                lemma_shifted_injective(delta, vars[i], other[i]);
            }
            assert(vars =~= other);
        },
        Ty::Fun { arg, result } => {
            lemma_shifted_ty_injective(delta, *arg, *b->arg);
            lemma_shifted_ty_injective(delta, *result, *b->result);
        },
        _ => {},
    }
}

/// Different elements stay different when they are shifted.
pub proof fn lemma_shifted_elem_injective(delta: nat, a: Elem, b: Elem)
    requires
        shifted_elem(delta, a) == shifted_elem(delta, b),
    ensures
        a == b,
{
    match a {
        Elem::Universal(x) => {
            lemma_shifted_injective(delta, x, b->Universal_0);
        },
        Elem::ExVar(x) => {
            lemma_shifted_injective(delta, x, b->ExVar_0);
        },
        Elem::ExVarSolved(x, t) => {
            lemma_shifted_injective(delta, x, b->ExVarSolved_0);
            lemma_shifted_ty_injective(delta, t, b->ExVarSolved_1);
        },
        Elem::Marker(x) => {
            lemma_shifted_injective(delta, x, b->Marker_0);
        },
        Elem::Anno(x, t) => {
            lemma_shifted_injective(delta, x, b->Anno_0);
            lemma_shifted_ty_injective(delta, t, b->Anno_1);
        },
    }
}

/// Substitution goes along with shifting.
pub proof fn lemma_shifted_subst(delta: nat, ty: Ty, var: Seq<char>, replacement: Ty)
    ensures
        shifted_ty(delta, ty.subst(var, replacement)) == shifted_ty(delta, ty).subst(
            shifted(delta, var),
            shifted_ty(delta, replacement),
        ),
    decreases ty,
{
    match ty {
        Ty::Var(v) => {
            if shifted(delta, v) == shifted(delta, var) {
                lemma_shifted_injective(delta, v, var);
            }
        },
        Ty::Existential(v) => {
            if shifted(delta, v) == shifted(delta, var) {
                lemma_shifted_injective(delta, v, var);
            }
        },
        Ty::Poly { vars, body } => {
            lemma_shifted_names_contains(delta, vars, var);
            if !vars.contains(var) {
                lemma_shifted_subst(delta, *body, var, replacement);
            }
        },
        Ty::Fun { arg, result } => {
            lemma_shifted_subst(delta, *arg, var, replacement);
            lemma_shifted_subst(delta, *result, var, replacement);
        },
        _ => {},
    }
}

/// Putting a solution in goes along with shifting.
pub proof fn lemma_shifted_with_solution(delta: nat, ty: Ty, name: Seq<char>, solution: Ty)
    ensures
        shifted_ty(delta, ty.with_solution(name, solution)) == shifted_ty(delta, ty).with_solution(
            shifted(delta, name),
            shifted_ty(delta, solution),
        ),
    decreases ty,
{
    match ty {
        Ty::Existential(v) => {
            if shifted(delta, v) == shifted(delta, name) {
                lemma_shifted_injective(delta, v, name);
            }
        },
        Ty::Poly { vars, body } => {
            lemma_shifted_with_solution(delta, *body, name, solution);
        },
        Ty::Fun { arg, result } => {
            lemma_shifted_with_solution(delta, *arg, name, solution);
            lemma_shifted_with_solution(delta, *result, name, solution);
        },
        _ => {},
    }
}

/// A name is free in a type where the shifted name is free in the shifted
/// type.
pub proof fn lemma_shifted_free_vars(delta: nat, ty: Ty, x: Seq<char>)
    ensures
        shifted_ty(delta, ty).free_vars().contains(shifted(delta, x)) <==> ty.free_vars().contains(x),
    decreases ty,
{
    match ty {
        Ty::Var(v) => {
            if shifted(delta, v) == shifted(delta, x) {
                lemma_shifted_injective(delta, v, x);
            }
        },
        Ty::Existential(v) => {
            if shifted(delta, v) == shifted(delta, x) {
                lemma_shifted_injective(delta, v, x);
            }
        },
        Ty::Poly { vars, body } => {
            lemma_shifted_names_contains(delta, vars, x);
            lemma_shifted_free_vars(delta, *body, x);
        },
        Ty::Fun { arg, result } => {
            lemma_shifted_free_vars(delta, *arg, x);
            lemma_shifted_free_vars(delta, *result, x);
        },
        _ => {},
    }
}

/// Shifting goes into the parts of a context.
pub proof fn lemma_shifted_ctx_parts(delta: nat, ctx: Seq<Elem>, more: Seq<Elem>, k: int)
    requires
        0 <= k <= ctx.len(),
    ensures
        shifted_ctx(delta, ctx + more) == shifted_ctx(delta, ctx) + shifted_ctx(delta, more),
        shifted_ctx(delta, ctx.take(k)) == shifted_ctx(delta, ctx).take(k),
        shifted_ctx(delta, ctx.skip(k)) == shifted_ctx(delta, ctx).skip(k),
        ctx.len() > 0 ==> shifted_ctx(delta, ctx.drop_last()) == shifted_ctx(delta, ctx).drop_last()
            && shifted_ctx(delta, ctx).last() == shifted_elem(delta, ctx.last()),
        forall|e: Elem| shifted_ctx(delta, ctx.push(e)) == shifted_ctx(delta, ctx).push(shifted_elem(delta, e)),
{
    assert(shifted_ctx(delta, ctx + more) =~= shifted_ctx(delta, ctx) + shifted_ctx(delta, more));
    assert(shifted_ctx(delta, ctx.take(k)) =~= shifted_ctx(delta, ctx).take(k));
    assert(shifted_ctx(delta, ctx.skip(k)) =~= shifted_ctx(delta, ctx).skip(k));
    if ctx.len() > 0 {
        assert(shifted_ctx(delta, ctx.drop_last()) =~= shifted_ctx(delta, ctx).drop_last());
    }
    assert forall|e: Elem| shifted_ctx(delta, ctx.push(e)) == shifted_ctx(delta, ctx).push(
        shifted_elem(delta, e),
    ) by {
        assert(shifted_ctx(delta, ctx.push(e)) =~= shifted_ctx(delta, ctx).push(shifted_elem(delta, e)));
    }
}

/// A context holds an element where the shifted context holds the shifted
/// element, and at the same first position.
pub proof fn lemma_shifted_contains(delta: nat, ctx: Seq<Elem>, e: Elem)
    ensures
        shifted_ctx(delta, ctx).contains(shifted_elem(delta, e)) <==> ctx.contains(e),
        ctx.contains(e) ==> position(shifted_ctx(delta, ctx), shifted_elem(delta, e)) == position(ctx, e),
{
    let out = shifted_ctx(delta, ctx);
    let f = shifted_elem(delta, e);
    if out.contains(f) {
        let i = choose|i: int| 0 <= i < out.len() && out[i] == f;
        lemma_shifted_elem_injective(delta, ctx[i], e);
        assert(ctx[i] == e);
    }
    if ctx.contains(e) {
        lemma_position_exists(ctx, e);
        let p = position(ctx, e);
        assert(out[p] == f);
        assert(first_at(out, f, p)) by {
            assert forall|j: int| 0 <= j < p implies out[j] != f by {
                if out[j] == f {
                    lemma_shifted_elem_injective(delta, ctx[j], e);
                }
            }
        }
        lemma_position(out, f, p);
    }
}

/// What stands before and after an element, and what is put in place of
/// an existential, goes along with shifting.
pub proof fn lemma_shifted_inserted(delta: nat, ctx: Seq<Elem>, a: Seq<char>, elems: Seq<Elem>)
    requires
        ctx.contains(Elem::ExVar(a)),
    ensures
        shifted_ctx(delta, before(ctx, Elem::ExVar(a))) == before(
            shifted_ctx(delta, ctx),
            Elem::ExVar(shifted(delta, a)),
        ),
        shifted_ctx(delta, inserted_at(ctx, a, elems)) == inserted_at(
            shifted_ctx(delta, ctx),
            shifted(delta, a),
            shifted_ctx(delta, elems),
        ),
{
    let e = Elem::ExVar(a);
    lemma_shifted_contains(delta, ctx, e);
    lemma_position_exists(ctx, e);
    let p = position(ctx, e);
    let out = shifted_ctx(delta, ctx);
    assert(shifted_elem(delta, e) == Elem::ExVar(shifted(delta, a)));
    assert(shifted_ctx(delta, ctx.take(p)) =~= out.take(p));
    assert(shifted_ctx(delta, inserted_at(ctx, a, elems)) =~= out.take(p) + shifted_ctx(delta, elems)
        + out.skip(p + 1));
}

/// What stands before the first occurrence of an element goes along with
/// shifting.
pub proof fn lemma_shifted_before(delta: nat, ctx: Seq<Elem>, e: Elem)
    requires
        ctx.contains(e),
    ensures
        shifted_ctx(delta, before(ctx, e)) == before(shifted_ctx(delta, ctx), shifted_elem(delta, e)),
{
    lemma_shifted_contains(delta, ctx, e);
    lemma_position_exists(ctx, e);
    let p = position(ctx, e);
    assert(shifted_ctx(delta, ctx.take(p)) =~= shifted_ctx(delta, ctx).take(p));
}

/// A context solves or declares a name where the shifted context does the
/// shifted name.
pub proof fn lemma_shifted_has_solution(delta: nat, ctx: Seq<Elem>, a: Seq<char>)
    ensures
        has_solution(shifted_ctx(delta, ctx), shifted(delta, a)) <==> has_solution(ctx, a),
        forall|i: int|
            0 <= i < ctx.len() ==> (solves(shifted_ctx(delta, ctx)[i], shifted(delta, a)) <==> solves(
                #[trigger] ctx[i],
                a,
            )),
        forall|i: int|
            0 <= i < ctx.len() ==> (declares(shifted_ctx(delta, ctx)[i], shifted(delta, a)) <==> declares(
                #[trigger] ctx[i],
                a,
            )),
        forall|i: int|
            0 <= i < ctx.len() ==> (annotates(shifted_ctx(delta, ctx)[i], shifted(delta, a)) <==> annotates(
                #[trigger] ctx[i],
                a,
            )),
{
    let out = shifted_ctx(delta, ctx);
    let b = shifted(delta, a);
    assert forall|i: int| 0 <= i < ctx.len() implies (solves(out[i], b) <==> solves(#[trigger] ctx[i], a)) by {
        if let Elem::ExVarSolved(x, t) = ctx[i] {
            if shifted(delta, x) == b {
                lemma_shifted_injective(delta, x, a);
            }
        }
    }
    assert forall|i: int| 0 <= i < ctx.len() implies (declares(out[i], b) <==> declares(
        #[trigger] ctx[i],
        a,
    )) by {
        match ctx[i] {
            Elem::ExVarSolved(x, t) => {
                if shifted(delta, x) == b {
                    lemma_shifted_injective(delta, x, a);
                }
            },
            Elem::ExVar(x) => {
                if shifted(delta, x) == b {
                    lemma_shifted_injective(delta, x, a);
                }
            },
            _ => {},
        }
    }
    assert forall|i: int| 0 <= i < ctx.len() implies (annotates(out[i], b) <==> annotates(
        #[trigger] ctx[i],
        a,
    )) by {
        if let Elem::Anno(x, t) = ctx[i] {
            if shifted(delta, x) == b {
                lemma_shifted_injective(delta, x, a);
            }
        }
    }
    if has_solution(out, b) {
        let i = choose|i: int| 0 <= i < out.len() && solves(#[trigger] out[i], b);
        assert(solves(ctx[i], a));
    }
    if has_solution(ctx, a) {
        let i = choose|i: int| 0 <= i < ctx.len() && solves(#[trigger] ctx[i], a);
        assert(solves(out[i], b));
    }
}

/// The elements that bring rigid variables into scope go along with
/// shifting.
pub proof fn lemma_shifted_universals(delta: nat, vars: Seq<Seq<char>>)
    ensures
        shifted_ctx(delta, as_universals(vars)) == as_universals(shifted_names(delta, vars)),
{
    assert(shifted_ctx(delta, as_universals(vars)) =~= as_universals(shifted_names(delta, vars)));
}

/// A type is well formed in a context where the shifted type is well
/// formed in the shifted context.
pub proof fn lemma_shifted_type_wf(delta: nat, ctx: Seq<Elem>, ty: Ty)
    ensures
        type_wf(shifted_ctx(delta, ctx), shifted_ty(delta, ty)) <==> type_wf(ctx, ty),
    decreases ty,
{
    match ty {
        Ty::Var(v) => {
            lemma_shifted_contains(delta, ctx, Elem::Universal(v));
        },
        Ty::Existential(a) => {
            lemma_shifted_contains(delta, ctx, Elem::ExVar(a));
            lemma_shifted_has_solution(delta, ctx, a);
        },
        Ty::Fun { arg, result } => {
            lemma_shifted_type_wf(delta, ctx, *arg);
            lemma_shifted_type_wf(delta, ctx, *result);
        },
        Ty::Poly { vars, body } => {
            let more = as_universals(vars);
            lemma_shifted_universals(delta, vars);
            lemma_shifted_ctx_parts(delta, ctx, more, 0);
            lemma_shifted_type_wf(delta, ctx + more, *body);
        },
        _ => {},
    }
}

/// Applying a context goes along with shifting.
pub proof fn lemma_shifted_applied(delta: nat, ctx: Seq<Elem>, ty: Ty)
    ensures
        applied(shifted_ctx(delta, ctx), shifted_ty(delta, ty)) == shifted_ty(delta, applied(ctx, ty)),
    decreases ctx.len(),
{
    if ctx.len() > 0 {
        let rest = ctx.drop_last();
        lemma_shifted_ctx_parts(delta, ctx, Seq::empty(), 0);
        match ctx.last() {
            Elem::ExVarSolved(a, t) => {
                lemma_shifted_with_solution(delta, ty, a, t);
                lemma_shifted_applied(delta, rest, ty.with_solution(a, t));
            },
            _ => {
                lemma_shifted_applied(delta, rest, ty);
            },
        }
    }
}

/// The order of the declarations of two existentials goes along with
/// shifting.
pub proof fn lemma_shifted_ordered(delta: nat, ctx: Seq<Elem>, a: Seq<char>, b: Seq<char>)
    ensures
        ordered(shifted_ctx(delta, ctx), shifted(delta, a), shifted(delta, b)) <==> ordered(ctx, a, b),
{
    let out = shifted_ctx(delta, ctx);
    lemma_shifted_has_solution(delta, ctx, a);
    lemma_shifted_has_solution(delta, ctx, b);
    assert forall|i: int| first_declaration_at(out, shifted(delta, a), i) <==> first_declaration_at(
        ctx,
        a,
        i,
    ) by {
        if first_declaration_at(out, shifted(delta, a), i) {
            assert forall|j: int| 0 <= j < i implies !declares(#[trigger] ctx[j], a) by {
                assert(!declares(out[j], shifted(delta, a)));
            }
        }
        if first_declaration_at(ctx, a, i) {
            assert forall|j: int| 0 <= j < i implies !declares(#[trigger] out[j], shifted(delta, a)) by {
                assert(!declares(ctx[j], a));
            }
        }
    }
    assert forall|j: int| first_declaration_at(out, shifted(delta, b), j) <==> first_declaration_at(
        ctx,
        b,
        j,
    ) by {
        if first_declaration_at(out, shifted(delta, b), j) {
            assert forall|k: int| 0 <= k < j implies !declares(#[trigger] ctx[k], b) by {
                assert(!declares(out[k], shifted(delta, b)));
            }
        }
        if first_declaration_at(ctx, b, j) {
            assert forall|k: int| 0 <= k < j implies !declares(#[trigger] out[k], shifted(delta, b)) by {
                assert(!declares(ctx[k], b));
            }
        }
    }
    if ordered(out, shifted(delta, a), shifted(delta, b)) {
        let (i, j) = choose|i: int, j: int|
            first_declaration_at(out, shifted(delta, a), i) && first_declaration_at(
                out,
                shifted(delta, b),
                j,
            ) && i < j;
        assert(first_declaration_at(ctx, a, i) && first_declaration_at(ctx, b, j) && i < j);
    }
    if ordered(ctx, a, b) {
        let (i, j) = choose|i: int, j: int|
            first_declaration_at(ctx, a, i) && first_declaration_at(ctx, b, j) && i < j;
        assert(first_declaration_at(out, shifted(delta, a), i) && first_declaration_at(
            out,
            shifted(delta, b),
            j,
        ) && i < j);
    }
}

/// The type of a term variable goes along with shifting.
pub proof fn lemma_shifted_annotation(delta: nat, ctx: Seq<Elem>, x: Seq<char>)
    ensures
        annotation(shifted_ctx(delta, ctx), shifted(delta, x)) == match annotation(ctx, x) {
            Some(ty) => Some(shifted_ty(delta, ty)),
            None => None,
        },
{
    let out = shifted_ctx(delta, ctx);
    let y = shifted(delta, x);
    lemma_shifted_has_solution(delta, ctx, x);
    assert forall|i: int| first_annotation_at(out, y, i) <==> first_annotation_at(ctx, x, i) by {
        if first_annotation_at(out, y, i) {
            assert forall|j: int| 0 <= j < i implies !annotates(#[trigger] ctx[j], x) by {
                assert(!annotates(out[j], y));
            }
        }
        if first_annotation_at(ctx, x, i) {
            assert forall|j: int| 0 <= j < i implies !annotates(#[trigger] out[j], y) by {
                assert(!annotates(ctx[j], x));
            }
        }
    }
    if exists|i: int| first_annotation_at(ctx, x, i) {
        let i = choose|i: int| first_annotation_at(ctx, x, i);
        assert(first_annotation_at(out, y, i));
        let k = choose|k: int| first_annotation_at(out, y, k);
        assert(first_annotation_at(ctx, x, k));
        assert(k == i);
        assert(carried(out[i]) == shifted_ty(delta, carried(ctx[i])));
    } else {
        if exists|k: int| first_annotation_at(out, y, k) {
            let k = choose|k: int| first_annotation_at(out, y, k);
            assert(first_annotation_at(ctx, x, k));
        }
    }
}

/// The fresh names go along with shifting.
pub proof fn lemma_shifted_fresh_names(delta: nat, made: nat, count: nat)
    ensures
        shifted_names(delta, fresh_names(made, count)) == fresh_names(made + delta, count),
{
    assert forall|i: int| 0 <= i < count implies shifted_names(delta, fresh_names(made, count))[i]
        == fresh_names(made + delta, count)[i] by {
        lemma_shifted_fresh(delta, (made + 1 + i) as nat);
    }
    assert(shifted_names(delta, fresh_names(made, count)) =~= fresh_names(made + delta, count));
}

} // verus!
