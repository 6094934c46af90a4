//! Well-formed types stay well formed: under the solutions of a
//! well-formed context, and under the renaming of the variables that a
//! quantifier binds.

use crate::context::{applied, as_universals, carried, lemma_wf_entry, type_wf, wf, Elem};
use crate::names::fresh_names;
use crate::rules::{as_existentials, named, renamed};
use crate::scoping::{covers, lemma_type_wf_covers, supported, supports};
use crate::types::Ty;
use vstd::prelude::*;

verus! {

/// A context covers what stands before one of its elements.
pub proof fn lemma_covers_take(ctx: Seq<Elem>, k: int)
    requires
        0 <= k <= ctx.len(),
    ensures
        covers(ctx.take(k), ctx),
{
    let part = ctx.take(k);
    assert forall|m: int| 0 <= m < part.len() implies supported(#[trigger] part[m], ctx) by {
        assert(supports(part[m], ctx[m]));
    }
}

/// A context followed by more elements covers the context.
pub proof fn lemma_covers_more(ctx: Seq<Elem>, more: Seq<Elem>)
    ensures
        covers(ctx, ctx + more),
{
    let to = ctx + more;
    assert forall|m: int| 0 <= m < ctx.len() implies supported(#[trigger] ctx[m], to) by {
        assert(supports(ctx[m], to[m]));
    }
}

/// Putting a well-formed solution in place of an existential keeps a type
/// well formed.
pub proof fn lemma_with_solution_wf(ctx: Seq<Elem>, ty: Ty, name: Seq<char>, solution: Ty)
    requires
        type_wf(ctx, ty),
        type_wf(ctx, solution),
    ensures
        type_wf(ctx, ty.with_solution(name, solution)),
    decreases ty,
{
    match ty {
        Ty::Fun { arg, result } => {
            lemma_with_solution_wf(ctx, *arg, name, solution);
            lemma_with_solution_wf(ctx, *result, name, solution);
        },
        Ty::Poly { vars, body } => {
            let longer = ctx + as_universals(vars);
            lemma_covers_more(ctx, as_universals(vars));
            lemma_type_wf_covers(ctx, longer, solution);
            lemma_with_solution_wf(longer, *body, name, solution);
        },
        _ => {},
    }
}

/// Applying a part of a context keeps a type well formed in a context in
/// which the solutions of the part are well formed.
pub proof fn lemma_applied_wf_in(part: Seq<Elem>, scope: Seq<Elem>, ty: Ty)
    requires
        type_wf(scope, ty),
        forall|i: int|
            0 <= i < part.len() && (#[trigger] part[i]) is ExVarSolved ==> type_wf(scope, carried(part[i])),
    ensures
        type_wf(scope, applied(part, ty)),
    decreases part.len(),
{
    if part.len() > 0 {
        let rest = part.drop_last();
        assert forall|i: int| 0 <= i < rest.len() && (#[trigger] rest[i]) is ExVarSolved implies type_wf(
            scope,
            carried(rest[i]),
        ) by {
            assert(rest[i] == part[i]);
        }
        match part.last() {
            Elem::ExVarSolved(a, t) => {
                assert(part[part.len() - 1] is ExVarSolved);
                lemma_with_solution_wf(scope, ty, a, t);
                lemma_applied_wf_in(rest, scope, ty.with_solution(a, t));
            },
            _ => {
                lemma_applied_wf_in(rest, scope, ty);
            },
        }
    }
}

/// In a well-formed context, applying the context keeps a type well
/// formed.
pub proof fn lemma_applied_wf(ctx: Seq<Elem>, ty: Ty)
    requires
        wf(ctx),
        type_wf(ctx, ty),
    ensures
        type_wf(ctx, applied(ctx, ty)),
{
    assert forall|i: int| 0 <= i < ctx.len() && (#[trigger] ctx[i]) is ExVarSolved implies type_wf(
        ctx,
        carried(ctx[i]),
    ) by {
        lemma_wf_entry(ctx, i);
        lemma_covers_take(ctx, i);
        lemma_type_wf_covers(ctx.take(i), ctx, carried(ctx[i]));
    }
    lemma_applied_wf_in(ctx, ctx, ty);
}

/// Whether `to` brings into scope what `from` does, but for the rigid
/// variable `var`.
pub open spec fn covers_but(from: Seq<Elem>, to: Seq<Elem>, var: Seq<char>) -> bool {
    forall|m: int|
        0 <= m < from.len() ==> #[trigger] from[m] == Elem::Universal(var) || supported(from[m], to)
}

/// A substitution for a variable keeps a type well formed in a context
/// that brings into scope what the replacement needs, and what the type
/// needed but for the variable.
pub proof fn lemma_subst_wf(from: Seq<Elem>, to: Seq<Elem>, ty: Ty, var: Seq<char>, replacement: Ty)
    requires
        type_wf(from, ty),
        type_wf(to, replacement),
        covers_but(from, to, var),
    ensures
        type_wf(to, ty.subst(var, replacement)),
    decreases ty,
{
    match ty {
        Ty::Var(v) => {
            if v != var {
                let m = choose|m: int| 0 <= m < from.len() && from[m] == Elem::Universal(v);
                assert(supported(from[m], to));
                let n = choose|n: int| 0 <= n < to.len() && supports(from[m], #[trigger] to[n]);
                assert(to[n] == Elem::Universal(v));
            }
        },
        Ty::Existential(a) => {
            if a != var {
                if from.contains(Elem::ExVar(a)) {
                    let m = choose|m: int| 0 <= m < from.len() && from[m] == Elem::ExVar(a);
                    assert(supported(from[m], to));
                    let n = choose|n: int| 0 <= n < to.len() && supports(from[m], #[trigger] to[n]);
                    if to[n] == Elem::ExVar(a) {
                        assert(to.contains(Elem::ExVar(a)));
                    } else {
                        assert(crate::context::solves(to[n], a));
                    }
                } else {
                    let m = choose|m: int|
                        0 <= m < from.len() && crate::context::solves(#[trigger] from[m], a);
                    assert(supported(from[m], to));
                    let n = choose|n: int| 0 <= n < to.len() && supports(from[m], #[trigger] to[n]);
                    assert(crate::context::solves(to[n], a));
                }
            }
        },
        Ty::Fun { arg, result } => {
            lemma_subst_wf(from, to, *arg, var, replacement);
            lemma_subst_wf(from, to, *result, var, replacement);
        },
        Ty::Poly { vars, body } => {
            let more = as_universals(vars);
            let from2 = from + more;
            let to2 = to + more;
            if vars.contains(var) {
                // The quantifier binds the variable again: nothing changes
                // below it, and the variable is in scope there.
                let k = choose|k: int| 0 <= k < vars.len() && vars[k] == var;
                assert forall|m: int| 0 <= m < from2.len() implies supported(#[trigger] from2[m], to2) by {
                    if m < from.len() {
                        assert(from2[m] == from[m]);
                        if from[m] == Elem::Universal(var) {
                            assert(to2[to.len() + k] == more[k]);
                            assert(supports(from2[m], to2[to.len() + k]));
                        } else {
                            assert(supported(from[m], to));
                            let n = choose|n: int| 0 <= n < to.len() && supports(from[m], #[trigger] to[n]);
                            assert(to2[n] == to[n]);
                            assert(supports(from2[m], to2[n]));
                        }
                    } else {
                        let j = m - from.len();
                        assert(to2[to.len() + j] == more[j]);
                        assert(supports(from2[m], to2[to.len() + j]));
                    }
                }
                lemma_type_wf_covers(from2, to2, *body);
            } else {
                assert forall|m: int| 0 <= m < from2.len() implies #[trigger] from2[m] == Elem::Universal(
                    var,
                ) || supported(from2[m], to2) by {
                    if m < from.len() {
                        assert(from2[m] == from[m]);
                        if from[m] != Elem::Universal(var) {
                            assert(supported(from[m], to));
                            let n = choose|n: int| 0 <= n < to.len() && supports(from[m], #[trigger] to[n]);
                            assert(to2[n] == to[n]);
                            assert(supports(from2[m], to2[n]));
                        }
                    } else {
                        let j = m - from.len();
                        assert(to2[to.len() + j] == more[j]);
                        assert(supports(from2[m], to2[to.len() + j]));
                    }
                }
                lemma_covers_more(to, more);
                lemma_type_wf_covers(to, to2, replacement);
                lemma_subst_wf(from2, to2, *body, var, replacement);
            }
        },
        _ => {},
    }
}

/// The elements that declare fresh names in place of the variables of a
/// quantifier: rigid variables, or unsolved existentials.
pub open spec fn declaring(fresh: Seq<Seq<char>>, existential: bool) -> Seq<Elem> {
    if existential {
        as_existentials(fresh)
    } else {
        as_universals(fresh)
    }
}

/// The body of a quantifier with the first `k` of its variables renamed is
/// well formed where the fresh names of those stand in place of them.
proof fn lemma_renamed_wf_steps(
    ctx: Seq<Elem>,
    vars: Seq<Seq<char>>,
    fresh: Seq<Seq<char>>,
    body: Ty,
    existential: bool,
    k: int,
)
    requires
        type_wf(ctx + as_universals(vars), body),
        vars.len() == fresh.len(),
        0 <= k <= vars.len(),
    ensures
        type_wf(
            ctx + declaring(fresh.take(k), existential) + as_universals(vars.skip(k)),
            renamed(body, vars.take(k), fresh.take(k), existential),
        ),
    decreases k,
{
    if k == 0 {
        assert(vars.skip(0) =~= vars);
        assert(declaring(fresh.take(0), existential) =~= Seq::<Elem>::empty());
        assert(ctx + declaring(fresh.take(0), existential) + as_universals(vars.skip(0)) =~= ctx
            + as_universals(vars));
    } else {
        lemma_renamed_wf_steps(ctx, vars, fresh, body, existential, k - 1);
        let before = renamed(body, vars.take(k - 1), fresh.take(k - 1), existential);
        let from = ctx + declaring(fresh.take(k - 1), existential) + as_universals(vars.skip(k - 1));
        let to = ctx + declaring(fresh.take(k), existential) + as_universals(vars.skip(k));
        let var = vars[k - 1];
        let name = fresh[k - 1];
        let replacement = named(name, existential);
        assert(vars.take(k).drop_last() =~= vars.take(k - 1));
        assert(fresh.take(k).drop_last() =~= fresh.take(k - 1));
        assert(vars.take(k).last() == var);
        assert(fresh.take(k).last() == name);
        let base = ctx.len();
        // The fresh name is declared in the new context.
        let at = base + k - 1;
        assert(to[at] == declaring(fresh.take(k), existential)[k - 1]);
        if existential {
            assert(to[at] == Elem::ExVar(name));
            assert(to.contains(Elem::ExVar(name)));
        } else {
            assert(to[at] == Elem::Universal(name));
            assert(to.contains(Elem::Universal(name)));
        }
        assert(type_wf(to, replacement));
        assert forall|m: int| 0 <= m < from.len() implies #[trigger] from[m] == Elem::Universal(var)
            || supported(from[m], to) by {
            if m < base {
                assert(to[m] == from[m]);
                assert(supports(from[m], to[m]));
            } else if m < base + k - 1 {
                assert(from[m] == declaring(fresh.take(k - 1), existential)[m - base]);
                assert(to[m] == declaring(fresh.take(k), existential)[m - base]);
                assert(supports(from[m], to[m]));
            } else if m == base + k - 1 {
                assert(from[m] == as_universals(vars.skip(k - 1))[0]);
            } else {
                let j = m - (base + k - 1);
                assert(from[m] == as_universals(vars.skip(k - 1))[j]);
                assert(to[m] == as_universals(vars.skip(k))[j - 1]);
                assert(supports(from[m], to[m]));
            }
        }
        lemma_subst_wf(from, to, before, var, replacement);
    }
}

/// The body of a well-formed quantifier, its variables renamed, is well
/// formed where the fresh names are declared.
pub proof fn lemma_renamed_wf(
    ctx: Seq<Elem>,
    vars: Seq<Seq<char>>,
    body: Ty,
    made: nat,
    existential: bool,
)
    requires
        type_wf(ctx + as_universals(vars), body),
    ensures
        type_wf(
            ctx + declaring(fresh_names(made, vars.len()), existential),
            renamed(body, vars, fresh_names(made, vars.len()), existential),
        ),
{
    let fresh = fresh_names(made, vars.len());
    lemma_renamed_wf_steps(ctx, vars, fresh, body, existential, vars.len() as int);
    assert(vars.take(vars.len() as int) =~= vars);
    assert(fresh.take(vars.len() as int) =~= fresh);
    assert(as_universals(vars.skip(vars.len() as int)) =~= Seq::<Elem>::empty());
    assert(ctx + declaring(fresh, existential) + as_universals(vars.skip(vars.len() as int)) =~= ctx
        + declaring(fresh, existential));
}

} // verus!
