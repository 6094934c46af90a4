//! Escape safety: every solution that the rules write into a context is well
//! formed in what stands before its entry, so that it speaks of no variable
//! that is brought into scope after its existential.

use crate::context::{
    as_universals, before, carried, inserted_at, lemma_position_exists, position, solved, solves,
    type_wf, Elem,
};
use crate::expr::Term;
use crate::rules::{
    articulated, arrow, as_existentials, as_marked_existentials, check_rule, dropped,
    dropped_to_first, infer_application_rule, infer_rule, instantiate_l_rule, instantiate_r_rule,
    reach, renamed, solve_to, subtype_rule,
};
use crate::names::{fresh_name, fresh_names};
use crate::types::Ty;
use vstd::prelude::*;

verus! {

/// Whether an element is a solved existential.
pub open spec fn is_solved(e: Elem) -> bool {
    e is ExVarSolved
}

/// Whether every solution of a context is well formed in what stands before
/// its entry.
pub open spec fn scoped(ctx: Seq<Elem>) -> bool {
    forall|i: int|
        0 <= i < ctx.len() && is_solved(#[trigger] ctx[i]) ==> type_wf(ctx.take(i), carried(ctx[i]))
}

/// Whether `y` brings into scope what `x` does: it is `x`, or it solves the
/// existential that `x` declares.
pub open spec fn supports(x: Elem, y: Elem) -> bool {
    x == y || (x matches Elem::ExVar(a) && solves(y, a))
}

/// Whether some element of `big` brings into scope what `x` does.
pub open spec fn supported(x: Elem, big: Seq<Elem>) -> bool {
    exists|n: int| 0 <= n < big.len() && supports(x, #[trigger] big[n])
}

/// Whether every element of `small` has an element of `big` that brings
/// into scope what it does.
pub open spec fn covers(small: Seq<Elem>, big: Seq<Elem>) -> bool {
    forall|m: int| 0 <= m < small.len() ==> supported(#[trigger] small[m], big)
}

/// Covering goes on under the variables of a quantifier.
proof fn lemma_covers_extended(small: Seq<Elem>, big: Seq<Elem>, more: Seq<Elem>)
    requires
        covers(small, big),
    ensures
        covers(small + more, big + more),
{
    let s2 = small + more;
    let b2 = big + more;
    assert forall|m: int| 0 <= m < s2.len() implies supported(#[trigger] s2[m], b2) by {
        if m < small.len() {
            assert(s2[m] == small[m]);
            assert(supported(small[m], big));
            let n = choose|n: int| 0 <= n < big.len() && supports(small[m], #[trigger] big[n]);
            assert(b2[n] == big[n]);
            assert(supports(s2[m], b2[n]));
        } else {
            let n = m - small.len() + big.len();
            assert(b2[n] == more[m - small.len()]);
            assert(supports(s2[m], b2[n]));
        }
    }
}

/// A type that is well formed in a context is well formed in one that
/// covers it.
pub proof fn lemma_type_wf_covers(small: Seq<Elem>, big: Seq<Elem>, ty: Ty)
    requires
        covers(small, big),
        type_wf(small, ty),
    ensures
        type_wf(big, ty),
    decreases ty,
{
    match ty {
        Ty::Var(v) => {
            let m = choose|m: int| 0 <= m < small.len() && small[m] == Elem::Universal(v);
            assert(supported(small[m], big));
            let n = choose|n: int| 0 <= n < big.len() && supports(small[m], #[trigger] big[n]);
            assert(big[n] == Elem::Universal(v));
        },
        Ty::Existential(a) => {
            if small.contains(Elem::ExVar(a)) {
                let m = choose|m: int| 0 <= m < small.len() && small[m] == Elem::ExVar(a);
                assert(supported(small[m], big));
                let n = choose|n: int| 0 <= n < big.len() && supports(small[m], #[trigger] big[n]);
                if big[n] == Elem::ExVar(a) {
                    assert(big.contains(Elem::ExVar(a)));
                } else {
                    assert(solves(big[n], a));
                }
            } else {
                let m = choose|m: int| 0 <= m < small.len() && solves(#[trigger] small[m], a);
                assert(supported(small[m], big));
                let n = choose|n: int| 0 <= n < big.len() && supports(small[m], #[trigger] big[n]);
                assert(solves(big[n], a));
            }
        },
        Ty::Fun { arg, result } => {
            lemma_type_wf_covers(small, big, *arg);
            lemma_type_wf_covers(small, big, *result);
        },
        Ty::Poly { vars, body } => {
            lemma_covers_extended(small, big, as_universals(vars));
            lemma_type_wf_covers(small + as_universals(vars), big + as_universals(vars), *body);
        },
        _ => {},
    }
}

/// Elements that are no solutions may follow a scoped context.
pub proof fn lemma_scoped_append(ctx: Seq<Elem>, more: Seq<Elem>)
    requires
        scoped(ctx),
        forall|k: int| 0 <= k < more.len() ==> !is_solved(#[trigger] more[k]),
    ensures
        scoped(ctx + more),
{
    let out = ctx + more;
    assert forall|i: int| 0 <= i < out.len() && is_solved(#[trigger] out[i]) implies type_wf(
        out.take(i),
        carried(out[i]),
    ) by {
        if i < ctx.len() {
            assert(out[i] == ctx[i]);
            assert(out.take(i) =~= ctx.take(i));
        } else {
            assert(out[i] == more[i - ctx.len()]);
        }
    }
}

/// What stands before an element of a scoped context is scoped.
pub proof fn lemma_scoped_take(ctx: Seq<Elem>, k: int)
    requires
        scoped(ctx),
        0 <= k <= ctx.len(),
    ensures
        scoped(ctx.take(k)),
{
    let out = ctx.take(k);
    assert forall|i: int| 0 <= i < out.len() && is_solved(#[trigger] out[i]) implies type_wf(
        out.take(i),
        carried(out[i]),
    ) by {
        assert(out[i] == ctx[i]);
        assert(out.take(i) =~= ctx.take(i));
    }
}

/// Leaving a scope keeps a context scoped.
pub proof fn lemma_scoped_dropped(ctx: Seq<Elem>, marker: Elem)
    requires
        scoped(ctx),
    ensures
        dropped(ctx, marker) matches Ok(out) ==> scoped(out),
{
    if ctx.contains(marker) {
        lemma_position_exists(ctx, marker);
        lemma_scoped_take(ctx, position(ctx, marker));
    }
}

/// Leaving the scope of pushed elements keeps a context scoped.
pub proof fn lemma_scoped_dropped_to_first(ctx: Seq<Elem>, pushed: Seq<Elem>)
    requires
        scoped(ctx),
    ensures
        dropped_to_first(ctx, pushed) matches Ok(out) ==> scoped(out),
{
    if pushed.len() > 0 {
        lemma_scoped_dropped(ctx, pushed[0]);
    }
}

/// Putting elements in place of an unsolved existential keeps a context
/// scoped, where the elements keep the existential declared and each
/// solution among them is well formed in what then stands before it.
pub proof fn lemma_scoped_inserted(ctx: Seq<Elem>, a: Seq<char>, elems: Seq<Elem>)
    requires
        scoped(ctx),
        ctx.contains(Elem::ExVar(a)),
        exists|k: int| 0 <= k < elems.len() && supports(Elem::ExVar(a), #[trigger] elems[k]),
        forall|k: int|
            0 <= k < elems.len() && is_solved(#[trigger] elems[k]) ==> type_wf(
                before(ctx, Elem::ExVar(a)) + elems.take(k),
                carried(elems[k]),
            ),
    ensures
        scoped(inserted_at(ctx, a, elems)),
{
    let e = Elem::ExVar(a);
    lemma_position_exists(ctx, e);
    let p = position(ctx, e);
    let out = inserted_at(ctx, a, elems);
    let w = choose|k: int| 0 <= k < elems.len() && supports(Elem::ExVar(a), #[trigger] elems[k]);
    assert forall|i: int| 0 <= i < out.len() && is_solved(#[trigger] out[i]) implies type_wf(
        out.take(i),
        carried(out[i]),
    ) by {
        if i < p {
            assert(out[i] == ctx[i]);
            assert(out.take(i) =~= ctx.take(i));
        } else if i < p + elems.len() {
            assert(out[i] == elems[i - p]);
            assert(out.take(i) =~= before(ctx, e) + elems.take(i - p));
        } else {
            let j = i - elems.len() + 1;
            assert(out[i] == ctx[j]);
            let small = ctx.take(j);
            let big = out.take(i);
            assert forall|m: int| 0 <= m < small.len() implies supported(#[trigger] small[m], big) by {
                if m < p {
                    assert(big[m] == ctx[m]);
                    assert(supports(small[m], big[m]));
                } else if m == p {
                    assert(big[p + w] == elems[w]);
                    assert(supports(small[m], big[p + w]));
                } else {
                    let n = m + elems.len() - 1;
                    assert(big[n] == ctx[m]);
                    assert(supports(small[m], big[n]));
                }
            }
            lemma_type_wf_covers(small, big, carried(ctx[j]));
        }
    }
}

/// Solving an existential to a type that is well formed in what stands
/// before it keeps a context scoped.
pub proof fn lemma_scoped_solved(ctx: Seq<Elem>, a: Seq<char>, ty: Ty)
    requires
        scoped(ctx),
        ctx.contains(Elem::ExVar(a)),
    ensures
        solved(ctx, a, ty) matches Some(out) ==> scoped(out),
{
    if type_wf(before(ctx, Elem::ExVar(a)), ty) {
        let elems = seq![Elem::ExVarSolved(a, ty)];
        assert(supports(Elem::ExVar(a), elems[0]));
        assert(elems.take(0) =~= Seq::empty());
        assert(before(ctx, Elem::ExVar(a)) + elems.take(0) =~= before(ctx, Elem::ExVar(a)));
        lemma_scoped_inserted(ctx, a, elems);
    }
}

/// Committing an existential to the shape of a function keeps a context
/// scoped.
pub proof fn lemma_scoped_articulated(ctx: Seq<Elem>, a: Seq<char>, a1: Seq<char>, a2: Seq<char>)
    requires
        scoped(ctx),
        ctx.contains(Elem::ExVar(a)),
    ensures
        scoped(articulated(ctx, a, a1, a2)),
{
    let elems = seq![Elem::ExVar(a2), Elem::ExVar(a1), Elem::ExVarSolved(a, arrow(a1, a2))];
    assert(supports(Elem::ExVar(a), elems[2]));
    let prefix = before(ctx, Elem::ExVar(a)) + elems.take(2);
    assert(prefix[prefix.len() - 2] == Elem::ExVar(a2));
    assert(prefix[prefix.len() - 1] == Elem::ExVar(a1));
    assert(prefix.contains(Elem::ExVar(a1)));
    assert(prefix.contains(Elem::ExVar(a2)));
    assert(type_wf(prefix, arrow(a1, a2))) by {
        reveal_with_fuel(type_wf, 3);
    }
    lemma_scoped_inserted(ctx, a, elems);
}

/// The rule that solves a later existential keeps a context scoped.
pub proof fn lemma_scoped_reach(ctx: Seq<Elem>, a: Seq<char>, b: Seq<char>)
    requires
        scoped(ctx),
    ensures
        reach(ctx, a, b) matches Ok(out) ==> scoped(out),
{
    if ctx.contains(Elem::ExVar(b)) {
        lemma_scoped_solved(ctx, b, Ty::Existential(a));
    }
}

/// The rule that solves an existential to a monotype keeps a context scoped.
pub proof fn lemma_scoped_solve_to(ctx: Seq<Elem>, a: Seq<char>, ty: Ty)
    requires
        scoped(ctx),
    ensures
        solve_to(ctx, a, ty) matches Ok(out) ==> scoped(out),
{
    if ctx.contains(Elem::ExVar(a)) {
        lemma_scoped_solved(ctx, a, ty);
    }
}

/// Subtyping keeps a context scoped.
pub proof fn lemma_subtype_scoped(depth: nat, names: nat, ctx: Seq<Elem>, a: Ty, b: Ty)
    requires
        scoped(ctx),
    ensures
        subtype_rule(depth, names, ctx, a, b).1 matches Ok(out) ==> scoped(out),
    decreases depth,
{
    if depth == 0 {
    } else if crate::rules::same_atom(a, b) {
    } else if a is Fun && b is Fun {
        let d = (depth - 1) as nat;
        lemma_subtype_scoped(d, names, ctx, *b->arg, *a->arg);
        let (made, first) = subtype_rule(d, names, ctx, *b->arg, *a->arg);
        if let Ok(theta) = first {
            lemma_subtype_scoped(d, made, theta, crate::context::applied(theta, *a->result), crate::context::applied(theta, *b->result));
        }
    } else if b is Poly {
        let count = b->vars.len();
        let d = (depth - 1) as nat;
        let fresh = fresh_names(names, count);
        let pushed = as_universals(fresh);
        lemma_scoped_append(ctx, pushed);
        let body = renamed(*b->body, b->vars, fresh, false);
        lemma_subtype_scoped(d, names + count, ctx + pushed, a, body);
        let (made, inner) = subtype_rule(d, names + count, ctx + pushed, a, body);
        if let Ok(delta) = inner {
            lemma_scoped_dropped_to_first(delta, pushed);
        }
    } else if a is Poly {
        let count = a->vars.len();
        let d = (depth - 1) as nat;
        let fresh = fresh_names(names, count);
        let pushed = as_marked_existentials(fresh);
        lemma_scoped_append(ctx, pushed);
        let body = renamed(*a->body, a->vars, fresh, true);
        lemma_subtype_scoped(d, names + count, ctx + pushed, body, b);
        let (made, inner) = subtype_rule(d, names + count, ctx + pushed, body, b);
        if let Ok(delta) = inner {
            lemma_scoped_dropped_to_first(delta, pushed);
        }
    } else if a is Existential && !b.free_vars().contains(a->Existential_0) {
        lemma_instantiate_l_scoped((depth - 1) as nat, names, ctx, a->Existential_0, b);
    } else if b is Existential && !a.free_vars().contains(b->Existential_0) {
        lemma_instantiate_r_scoped((depth - 1) as nat, names, ctx, a, b->Existential_0);
    } else {
    }
}

/// Instantiation to the left keeps a context scoped.
pub proof fn lemma_instantiate_l_scoped(depth: nat, names: nat, ctx: Seq<Elem>, a: Seq<char>, ty: Ty)
    requires
        scoped(ctx),
    ensures
        instantiate_l_rule(depth, names, ctx, a, ty).1 matches Ok(out) ==> scoped(out),
    decreases depth,
{
    if depth == 0 {
    } else if ty is Existential && crate::context::ordered(ctx, a, ty->Existential_0) {
        lemma_scoped_reach(ctx, a, ty->Existential_0);
    } else if ty is Fun {
        if ctx.contains(Elem::ExVar(a)) {
            let d = (depth - 1) as nat;
            let a2 = fresh_name(names + 1);
            let a1 = fresh_name(names + 2);
            let start = articulated(ctx, a, a1, a2);
            lemma_scoped_articulated(ctx, a, a1, a2);
            lemma_instantiate_r_scoped(d, names + 2, start, *ty->arg, a1);
            let (made, first) = instantiate_r_rule(d, names + 2, start, *ty->arg, a1);
            if let Ok(theta) = first {
                lemma_instantiate_l_scoped(d, made, theta, a2, crate::context::applied(theta, *ty->result));
            }
        }
    } else if ty is Poly {
        let count = ty->vars.len();
        let d = (depth - 1) as nat;
        let fresh = fresh_names(names, count);
        let pushed = as_universals(fresh);
        lemma_scoped_append(ctx, pushed);
        let body = renamed(*ty->body, ty->vars, fresh, false);
        lemma_instantiate_l_scoped(d, names + count, ctx + pushed, a, body);
        let (made, inner) = instantiate_l_rule(d, names + count, ctx + pushed, a, body);
        if let Ok(delta) = inner {
            lemma_scoped_dropped_to_first(delta, pushed);
        }
    } else {
        lemma_scoped_solve_to(ctx, a, ty);
    }
}

/// Instantiation to the right keeps a context scoped.
pub proof fn lemma_instantiate_r_scoped(depth: nat, names: nat, ctx: Seq<Elem>, ty: Ty, a: Seq<char>)
    requires
        scoped(ctx),
    ensures
        instantiate_r_rule(depth, names, ctx, ty, a).1 matches Ok(out) ==> scoped(out),
    decreases depth,
{
    if depth == 0 {
    } else if ty is Existential && crate::context::ordered(ctx, a, ty->Existential_0) {
        lemma_scoped_reach(ctx, a, ty->Existential_0);
    } else if ty is Fun {
        if ctx.contains(Elem::ExVar(a)) {
            let d = (depth - 1) as nat;
            let a1 = fresh_name(names + 1);
            let a2 = fresh_name(names + 2);
            let start = articulated(ctx, a, a1, a2);
            lemma_scoped_articulated(ctx, a, a1, a2);
            lemma_instantiate_l_scoped(d, names + 2, start, a1, *ty->arg);
            let (made, first) = instantiate_l_rule(d, names + 2, start, a1, *ty->arg);
            if let Ok(theta) = first {
                lemma_instantiate_r_scoped(d, made, theta, crate::context::applied(theta, *ty->result), a2);
            }
        }
    } else if ty is Poly {
        let count = ty->vars.len();
        let d = (depth - 1) as nat;
        let fresh = fresh_names(names, count);
        let pushed = as_marked_existentials(fresh);
        lemma_scoped_append(ctx, pushed);
        let body = renamed(*ty->body, ty->vars, fresh, true);
        lemma_instantiate_r_scoped(d, names + count, ctx + pushed, body, a);
        let (made, inner) = instantiate_r_rule(d, names + count, ctx + pushed, body, a);
        if let Ok(delta) = inner {
            lemma_scoped_dropped_to_first(delta, pushed);
        }
    } else {
        lemma_scoped_solve_to(ctx, a, ty);
    }
}

/// Checking keeps a context scoped.
pub proof fn lemma_check_scoped(depth: nat, names: nat, ctx: Seq<Elem>, e: Term, ty: Ty)
    requires
        scoped(ctx),
    ensures
        check_rule(depth, names, ctx, e, ty).1 matches Ok(out) ==> scoped(out),
    decreases depth,
{
    if depth == 0 {
    } else if crate::rules::literal_of(e, ty) {
    } else if e is Lambda && ty is Fun {
        let d = (depth - 1) as nat;
        let marker = Elem::Anno(e->binder, *ty->arg);
        assert(ctx.push(marker) =~= ctx + seq![marker]);
        lemma_scoped_append(ctx, seq![marker]);
        lemma_check_scoped(d, names, ctx.push(marker), *e->body, *ty->result);
        let (made, inner) = check_rule(d, names, ctx.push(marker), *e->body, *ty->result);
        if let Ok(delta) = inner {
            lemma_scoped_dropped(delta, marker);
        }
    } else if ty is Poly {
        let count = ty->vars.len();
        let d = (depth - 1) as nat;
        let fresh = fresh_names(names, count);
        let pushed = as_universals(fresh);
        lemma_scoped_append(ctx, pushed);
        let body = renamed(*ty->body, ty->vars, fresh, false);
        lemma_check_scoped(d, names + count, ctx + pushed, e, body);
        let (made, inner) = check_rule(d, names + count, ctx + pushed, e, body);
        if let Ok(delta) = inner {
            lemma_scoped_dropped_to_first(delta, pushed);
        }
    } else {
        let d = (depth - 1) as nat;
        lemma_infer_scoped(d, names, ctx, e);
        let (made, inferred) = infer_rule(d, names, ctx, e);
        if let Ok((theta, found)) = inferred {
            lemma_subtype_scoped(d, made, theta, crate::context::applied(theta, found), crate::context::applied(theta, ty));
        }
    }
}

/// Inference keeps a context scoped.
pub proof fn lemma_infer_scoped(depth: nat, names: nat, ctx: Seq<Elem>, e: Term)
    requires
        scoped(ctx),
    ensures
        infer_rule(depth, names, ctx, e).1 matches Ok((out, _)) ==> scoped(out),
    decreases depth,
{
    if depth > 0 {
        let d = (depth - 1) as nat;
        match e {
            Term::Ann { expr, ty } => {
                if type_wf(ctx, ty) {
                    lemma_check_scoped(d, names, ctx, *expr, ty);
                }
            },
            Term::Lambda { binder, body } => {
                let x = fresh_name(names + 1);
                let a = fresh_name(names + 2);
                let b = fresh_name(names + 3);
                let marker = Elem::Anno(x, Ty::Existential(a));
                let pushed = seq![Elem::ExVar(a), Elem::ExVar(b), marker];
                lemma_scoped_append(ctx, pushed);
                let renamed_body = body.subst(binder, Term::Var(x));
                lemma_check_scoped(d, names + 3, ctx + pushed, renamed_body, Ty::Existential(b));
                let (made, checked) = check_rule(d, names + 3, ctx + pushed, renamed_body, Ty::Existential(b));
                if let Ok(delta) = checked {
                    lemma_scoped_dropped(delta, marker);
                }
            },
            Term::App { func, arg } => {
                lemma_infer_scoped(d, names, ctx, *func);
                let (made, inferred) = infer_rule(d, names, ctx, *func);
                if let Ok((theta, found)) = inferred {
                    lemma_infer_application_scoped(d, made, theta, crate::context::applied(theta, found), *arg);
                }
            },
            _ => {},
        }
    }
}

/// Application keeps a context scoped.
pub proof fn lemma_infer_application_scoped(depth: nat, names: nat, ctx: Seq<Elem>, ty: Ty, e: Term)
    requires
        scoped(ctx),
    ensures
        infer_application_rule(depth, names, ctx, ty, e).1 matches Ok((out, _)) ==> scoped(out),
    decreases depth,
{
    if depth > 0 {
        let d = (depth - 1) as nat;
        match ty {
            Ty::Poly { vars, body } => {
                let count = vars.len();
                let fresh = fresh_names(names, count);
                lemma_scoped_append(ctx, as_existentials(fresh));
                lemma_infer_application_scoped(
                    d,
                    names + count,
                    ctx + as_existentials(fresh),
                    renamed(*body, vars, fresh, true),
                    e,
                );
            },
            Ty::Existential(a) => {
                if ctx.contains(Elem::ExVar(a)) {
                    let a1 = fresh_name(names + 1);
                    let a2 = fresh_name(names + 2);
                    lemma_scoped_articulated(ctx, a, a1, a2);
                    lemma_check_scoped(d, names + 2, articulated(ctx, a, a1, a2), e, Ty::Existential(a1));
                }
            },
            Ty::Fun { arg, result } => {
                lemma_check_scoped(d, names, ctx, e, *arg);
            },
            _ => {},
        }
    }
}

} // verus!
