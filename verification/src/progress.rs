//! The rules find what they rely on: where a context is well formed and
//! declares no name that is still to be made, and the types hold none but
//! unsolved existentials of the context, subtyping and instantiation never
//! report a context that lacks an element.

use crate::context::{
    applied, as_universals, before, carried, declared, declares, first_declaration_at, inserted_at,
    lemma_applied_binders, lemma_applied_closed, lemma_applied_existentials,
    lemma_applied_unsolved, lemma_declared_unsolved, lemma_position_exists, lemma_wf_unique,
    ordered, position, solved, solves, type_wf, wf, Elem,
};
use crate::error::Failure;
use crate::extension::{
    extends, is_existential, lemma_extends_covers, lemma_extends_keeps,
    lemma_instantiate_l_extends, lemma_instantiate_r_extends, lemma_subtype_extends, markers_below,
};
use crate::names::{fresh_name, fresh_names, lemma_fresh_name_injective};
use crate::rules::{
    arrow, articulated, as_marked_existentials, dropped_to_first, instantiate_l_rule,
    instantiate_r_rule, lemma_renamed_binders, lemma_renamed_existentials, reach, renamed,
    same_atom, subtype_rule,
};
use crate::scoping::{supported, supports};
use crate::types::{lemma_existentials_free, Ty};
use crate::validity::{
    declared_name, lemma_instantiate_l_wf, lemma_instantiate_r_wf, lemma_subtype_wf,
    lemma_wf_articulated, lemma_wf_marked, lemma_wf_universals, names, names_below,
};
use vstd::prelude::*;

verus! {

/// Whether a name is one that a generator hands out after its `made`-th.
pub open spec fn made_after(name: Seq<char>, made: nat) -> bool {
    exists|k: nat| k > made && name == #[trigger] fresh_name(k)
}

/// Whether every existential of the type is an unsolved existential of the
/// context.
pub open spec fn open_in(ctx: Seq<Elem>, ty: Ty) -> bool {
    forall|n: Seq<char>| #[trigger] ty.existentials().contains(n) ==> ctx.contains(Elem::ExVar(n))
}

/// Whether no quantifier of the type binds a name that the context declares
/// for an existential, or that is still to be made.
pub open spec fn hygienic(ctx: Seq<Elem>, ty: Ty, made: nat) -> bool {
    forall|v: Seq<char>| #[trigger] ty.binders().contains(v) ==> !declared(ctx, v) && !made_after(v, made)
}

/// Whether a type fits a context: its existentials are unsolved
/// existentials of the context, and its quantifiers bind none of the names
/// of the existentials.
pub open spec fn fits(ctx: Seq<Elem>, ty: Ty, made: nat) -> bool {
    open_in(ctx, ty) && hygienic(ctx, ty, made)
}

/// Whether a name is one of those that a rule may solve or solve to: one
/// that it was given, or one that is made while it runs.
pub open spec fn allowed(touched: Set<Seq<char>>, made: nat, name: Seq<char>) -> bool {
    touched.contains(name) || made_after(name, made)
}

/// Whether every existential of the type is allowed.
pub open spec fn within(ty: Ty, touched: Set<Seq<char>>, made: nat) -> bool {
    forall|n: Seq<char>| #[trigger] ty.existentials().contains(n) ==> allowed(touched, made, n)
}

/// Whether `out` has grown from `ctx` by allowed names alone: every solved
/// existential of `out` that is not an element of `ctx` bears an allowed
/// name and is solved to a type of allowed existentials, and every
/// existential of `out` is declared in `ctx` or newly made.
pub open spec fn grown(ctx: Seq<Elem>, out: Seq<Elem>, touched: Set<Seq<char>>, made: nat) -> bool {
    &&& forall|i: int|
        0 <= i < out.len() && (#[trigger] out[i]) is ExVarSolved && !ctx.contains(out[i]) ==> allowed(
            touched,
            made,
            out[i]->ExVarSolved_0,
        ) && within(carried(out[i]), touched, made)
    &&& forall|i: int, n: Seq<char>|
        0 <= i < out.len() && declares(#[trigger] out[i], n) ==> declared(ctx, n) || #[trigger] made_after(
            n,
            made,
        )
}

/// A name that is made later is made after.
pub proof fn lemma_made_after_later(name: Seq<char>, made: nat, later: nat)
    requires
        made <= later,
        made_after(name, later),
    ensures
        made_after(name, made),
{
    let k = choose|k: nat| k > later && name == #[trigger] fresh_name(k);
    assert(k > made && name == fresh_name(k));
}

/// The names that a generator hands out after its `made`-th are made after.
pub proof fn lemma_fresh_made_after(k: nat, made: nat)
    ensures
        k > made ==> made_after(fresh_name(k), made),
        k <= made ==> !made_after(fresh_name(k), made),
{
    if k <= made && made_after(fresh_name(k), made) {
        let j = choose|j: nat| j > made && fresh_name(k) == #[trigger] fresh_name(j);
        lemma_fresh_name_injective(k, j);
    }
}

/// A name of a context that declares no name that is still to be made is
/// not made after.
pub proof fn lemma_names_old(ctx: Seq<Elem>, made: nat, name: Seq<char>)
    requires
        names_below(ctx, made),
        names(ctx, name),
    ensures
        !made_after(name, made),
{
    if made_after(name, made) {
        let k = choose|k: nat| k > made && name == #[trigger] fresh_name(k);
        assert(!names(ctx, fresh_name(k)));
    }
}

/// What a context declares for an existential is one of its names.
pub proof fn lemma_declared_names(ctx: Seq<Elem>, name: Seq<char>)
    requires
        declared(ctx, name),
    ensures
        names(ctx, name),
{
    let i = choose|i: int| 0 <= i < ctx.len() && declares(#[trigger] ctx[i], name);
    assert(declared_name(ctx[i]) == Some(name));
}

/// An unsolved existential of a context is declared by it.
pub proof fn lemma_unsolved_declared(ctx: Seq<Elem>, name: Seq<char>)
    requires
        ctx.contains(Elem::ExVar(name)),
    ensures
        declared(ctx, name),
        names(ctx, name),
{
    let i = choose|i: int| 0 <= i < ctx.len() && ctx[i] == Elem::ExVar(name);
    assert(declares(ctx[i], name));
    assert(declared_name(ctx[i]) == Some(name));
}

/// A context that declares no name that is still to be made bears no such
/// marker name.
pub proof fn lemma_names_markers_below(ctx: Seq<Elem>, made: nat)
    requires
        names_below(ctx, made),
    ensures
        markers_below(ctx, made),
{
    assert forall|i: int, k: nat| 0 <= i < ctx.len() && k > made implies #[trigger] ctx[i]
        != Elem::Universal(#[trigger] fresh_name(k)) && ctx[i] != Elem::Marker(fresh_name(k)) by {
        if ctx[i] == Elem::Universal(fresh_name(k)) || ctx[i] == Elem::Marker(fresh_name(k)) {
            assert(declared_name(ctx[i]) == Some(fresh_name(k)));
            assert(names(ctx, fresh_name(k)));
        }
    }
}

/// A context has grown from itself.
pub proof fn lemma_grown_refl(ctx: Seq<Elem>, touched: Set<Seq<char>>, made: nat)
    ensures
        grown(ctx, ctx, touched, made),
{
}

/// Growing goes on.
pub proof fn lemma_grown_trans(
    a: Seq<Elem>,
    b: Seq<Elem>,
    c: Seq<Elem>,
    touched: Set<Seq<char>>,
    made: nat,
)
    requires
        grown(a, b, touched, made),
        grown(b, c, touched, made),
    ensures
        grown(a, c, touched, made),
{
    assert forall|i: int|
        0 <= i < c.len() && (#[trigger] c[i]) is ExVarSolved && !a.contains(c[i]) implies allowed(
        touched,
        made,
        c[i]->ExVarSolved_0,
    ) && within(carried(c[i]), touched, made) by {
        if b.contains(c[i]) {
            let j = choose|j: int| 0 <= j < b.len() && b[j] == c[i];
            assert(b[j] is ExVarSolved && !a.contains(b[j]));
        }
    }
    assert forall|i: int, n: Seq<char>| 0 <= i < c.len() && declares(#[trigger] c[i], n) implies declared(
        a,
        n,
    ) || #[trigger] made_after(n, made) by {
        if declared(b, n) {
            let j = choose|j: int| 0 <= j < b.len() && declares(#[trigger] b[j], n);
            assert(declared(a, n) || made_after(n, made));
        }
    }
}

/// What has grown by some names has grown by more names.
pub proof fn lemma_grown_weaken(
    ctx: Seq<Elem>,
    out: Seq<Elem>,
    touched: Set<Seq<char>>,
    made: nat,
    more: Set<Seq<char>>,
    earlier: nat,
)
    requires
        grown(ctx, out, touched, made),
        earlier <= made,
        forall|n: Seq<char>| touched.contains(n) ==> allowed(more, earlier, n),
    ensures
        grown(ctx, out, more, earlier),
{
    assert forall|n: Seq<char>| allowed(touched, made, n) implies allowed(more, earlier, n) by {
        if made_after(n, made) {
            lemma_made_after_later(n, earlier, made);
        }
    }
    assert forall|i: int|
        0 <= i < out.len() && (#[trigger] out[i]) is ExVarSolved && !ctx.contains(out[i]) implies allowed(
        more,
        earlier,
        out[i]->ExVarSolved_0,
    ) && within(carried(out[i]), more, earlier) by {
        assert(within(carried(out[i]), touched, made));
        assert forall|n: Seq<char>| #[trigger] carried(out[i]).existentials().contains(n) implies allowed(
            more,
            earlier,
            n,
        ) by {
            assert(allowed(touched, made, n));
        }
    }
    assert forall|i: int, n: Seq<char>| 0 <= i < out.len() && declares(#[trigger] out[i], n) implies declared(
        ctx,
        n,
    ) || #[trigger] made_after(n, earlier) by {
        if made_after(n, made) {
            lemma_made_after_later(n, earlier, made);
        }
    }
}

/// What is put in place of an existential: every element of the new
/// context is an element of the old one, or one of the elements put in;
/// and every element of the old context but the existential is an element
/// of the new one.
pub proof fn lemma_inserted_elements(ctx: Seq<Elem>, a: Seq<char>, elems: Seq<Elem>)
    requires
        ctx.contains(Elem::ExVar(a)),
    ensures
        forall|i: int|
            0 <= i < inserted_at(ctx, a, elems).len() ==> ctx.contains(
                #[trigger] inserted_at(ctx, a, elems)[i],
            ) || elems.contains(inserted_at(ctx, a, elems)[i]),
        forall|j: int|
            0 <= j < ctx.len() && #[trigger] ctx[j] != Elem::ExVar(a) ==> inserted_at(ctx, a, elems).contains(
                ctx[j],
            ),
        forall|k: int| 0 <= k < elems.len() ==> inserted_at(ctx, a, elems).contains(#[trigger] elems[k]),
{
    let e = Elem::ExVar(a);
    lemma_position_exists(ctx, e);
    let p = position(ctx, e);
    let out = inserted_at(ctx, a, elems);
    assert forall|i: int| 0 <= i < out.len() implies ctx.contains(#[trigger] out[i]) || elems.contains(
        out[i],
    ) by {
        if i < p {
            assert(ctx[i] == out[i]);
        } else if i < p + elems.len() {
            assert(elems[i - p] == out[i]);
        } else {
            assert(ctx[i - elems.len() + 1] == out[i]);
        }
    }
    assert forall|j: int| 0 <= j < ctx.len() && #[trigger] ctx[j] != e implies out.contains(ctx[j]) by {
        if j < p {
            assert(out[j] == ctx[j]);
        } else {
            assert(out[j + elems.len() - 1] == ctx[j]);
        }
    }
    assert forall|k: int| 0 <= k < elems.len() implies out.contains(#[trigger] elems[k]) by {
        assert(out[p + k] == elems[k]);
    }
}

/// Solving an allowed existential to a type of allowed existentials grows
/// the context by allowed names.
pub proof fn lemma_grown_solved(
    ctx: Seq<Elem>,
    a: Seq<char>,
    ty: Ty,
    touched: Set<Seq<char>>,
    made: nat,
)
    requires
        ctx.contains(Elem::ExVar(a)),
        touched.contains(a),
        within(ty, touched, made),
    ensures
        grown(ctx, inserted_at(ctx, a, seq![Elem::ExVarSolved(a, ty)]), touched, made),
{
    let elems = seq![Elem::ExVarSolved(a, ty)];
    let out = inserted_at(ctx, a, elems);
    lemma_inserted_elements(ctx, a, elems);
    lemma_unsolved_declared(ctx, a);
    assert forall|i: int|
        0 <= i < out.len() && (#[trigger] out[i]) is ExVarSolved && !ctx.contains(out[i]) implies allowed(
        touched,
        made,
        out[i]->ExVarSolved_0,
    ) && within(carried(out[i]), touched, made) by {
        let k = choose|k: int| 0 <= k < elems.len() && elems[k] == out[i];
        assert(out[i] == Elem::ExVarSolved(a, ty));
    }
    assert forall|i: int, n: Seq<char>| 0 <= i < out.len() && declares(#[trigger] out[i], n) implies declared(
        ctx,
        n,
    ) || #[trigger] made_after(n, made) by {
        if ctx.contains(out[i]) {
            let j = choose|j: int| 0 <= j < ctx.len() && ctx[j] == out[i];
            assert(declares(ctx[j], n));
        } else {
            let k = choose|k: int| 0 <= k < elems.len() && elems[k] == out[i];
            assert(n == a);
        }
    }
}

/// Committing an allowed existential to the shape of a function grows the
/// context by allowed names, where the two existentials that come in are
/// newly made.
pub proof fn lemma_grown_articulated(
    ctx: Seq<Elem>,
    a: Seq<char>,
    a1: Seq<char>,
    a2: Seq<char>,
    touched: Set<Seq<char>>,
    made: nat,
)
    requires
        ctx.contains(Elem::ExVar(a)),
        touched.contains(a),
        made_after(a1, made),
        made_after(a2, made),
    ensures
        grown(ctx, articulated(ctx, a, a1, a2), touched, made),
        articulated(ctx, a, a1, a2).contains(Elem::ExVar(a1)),
        articulated(ctx, a, a1, a2).contains(Elem::ExVar(a2)),
        forall|n: Seq<char>|
            declared(articulated(ctx, a, a1, a2), n) ==> declared(ctx, n) || n == a1 || n == a2,
        forall|n: Seq<char>|
            ctx.contains(Elem::ExVar(n)) && n != a ==> articulated(ctx, a, a1, a2).contains(
                Elem::ExVar(n),
            ),
{
    let elems = seq![Elem::ExVar(a2), Elem::ExVar(a1), Elem::ExVarSolved(a, arrow(a1, a2))];
    let out = inserted_at(ctx, a, elems);
    lemma_inserted_elements(ctx, a, elems);
    lemma_unsolved_declared(ctx, a);
    assert(elems[0] == Elem::ExVar(a2));
    assert(elems[1] == Elem::ExVar(a1));
    assert forall|i: int|
        0 <= i < out.len() && (#[trigger] out[i]) is ExVarSolved && !ctx.contains(out[i]) implies allowed(
        touched,
        made,
        out[i]->ExVarSolved_0,
    ) && within(carried(out[i]), touched, made) by {
        let k = choose|k: int| 0 <= k < elems.len() && elems[k] == out[i];
        assert(out[i] == Elem::ExVarSolved(a, arrow(a1, a2)));
        assert(within(arrow(a1, a2), touched, made)) by {
            reveal_with_fuel(Ty::existentials, 3);
        }
    }
    assert forall|i: int, n: Seq<char>| 0 <= i < out.len() && declares(#[trigger] out[i], n) implies declared(
        ctx,
        n,
    ) || #[trigger] made_after(n, made) by {
        if ctx.contains(out[i]) {
            let j = choose|j: int| 0 <= j < ctx.len() && ctx[j] == out[i];
            assert(declares(ctx[j], n));
        } else {
            let k = choose|k: int| 0 <= k < elems.len() && elems[k] == out[i];
        }
    }
    assert forall|n: Seq<char>| declared(out, n) implies declared(ctx, n) || n == a1 || n == a2 by {
        let i = choose|i: int| 0 <= i < out.len() && declares(#[trigger] out[i], n);
        if ctx.contains(out[i]) {
            let j = choose|j: int| 0 <= j < ctx.len() && ctx[j] == out[i];
            assert(declares(ctx[j], n));
        } else {
            let k = choose|k: int| 0 <= k < elems.len() && elems[k] == out[i];
        }
    }
    assert forall|n: Seq<char>| ctx.contains(Elem::ExVar(n)) && n != a implies out.contains(
        Elem::ExVar(n),
    ) by {
        let j = choose|j: int| 0 <= j < ctx.len() && ctx[j] == Elem::ExVar(n);
        assert(ctx[j] != Elem::ExVar(a));
    }
}

/// An unsolved existential that a rule is not allowed to solve stays
/// unsolved.
pub proof fn lemma_unsolved_kept(
    ctx: Seq<Elem>,
    out: Seq<Elem>,
    touched: Set<Seq<char>>,
    made: nat,
    name: Seq<char>,
)
    requires
        wf(ctx),
        extends(ctx, out),
        grown(ctx, out, touched, made),
        ctx.contains(Elem::ExVar(name)),
        !allowed(touched, made, name),
    ensures
        out.contains(Elem::ExVar(name)),
{
    lemma_extends_covers(ctx, out);
    let i = choose|i: int| 0 <= i < ctx.len() && ctx[i] == Elem::ExVar(name);
    assert(supported(ctx[i], out));
    let j = choose|j: int| 0 <= j < out.len() && supports(ctx[i], #[trigger] out[j]);
    if out[j] != Elem::ExVar(name) {
        assert(solves(out[j], name));
        if ctx.contains(out[j]) {
            let k = choose|k: int| 0 <= k < ctx.len() && ctx[k] == out[j];
            lemma_wf_unique(ctx, i, k, name);
        }
    }
}

/// What applying a grown context gives holds allowed existentials alone,
/// where the type does and the names that the rule was given are unsolved
/// existentials of the context from which it has grown.
pub proof fn lemma_applied_allowed(
    ctx: Seq<Elem>,
    out: Seq<Elem>,
    touched: Set<Seq<char>>,
    made: nat,
    ty: Ty,
)
    requires
        wf(ctx),
        names_below(ctx, made),
        grown(ctx, out, touched, made),
        forall|n: Seq<char>| touched.contains(n) ==> ctx.contains(Elem::ExVar(n)),
        within(ty, touched, made),
    ensures
        within(applied(out, ty), touched, made),
{
    let set = Set::new(|n: Seq<char>| allowed(touched, made, n));
    assert forall|i: int|
        0 <= i < out.len() && (#[trigger] out[i]) is ExVarSolved && set.contains(out[i]->ExVarSolved_0)
        implies carried(out[i]).existentials().subset_of(set) by {
        let m = out[i]->ExVarSolved_0;
        if ctx.contains(out[i]) {
            // An element of the context from which it has grown: but the
            // allowed names are not solved there.
            let k = choose|k: int| 0 <= k < ctx.len() && ctx[k] == out[i];
            assert(declares(ctx[k], m));
            if touched.contains(m) {
                let u = choose|u: int| 0 <= u < ctx.len() && ctx[u] == Elem::ExVar(m);
                lemma_wf_unique(ctx, u, k, m);
            } else {
                assert(declared_name(ctx[k]) == Some(m));
                lemma_names_old(ctx, made, m);
            }
        } else {
            assert(within(carried(out[i]), touched, made));
        }
    }
    assert(ty.existentials().subset_of(set));
    lemma_applied_closed(out, ty, set);
    assert forall|n: Seq<char>| #[trigger] applied(out, ty).existentials().contains(n) implies allowed(
        touched,
        made,
        n,
    ) by {
        assert(set.contains(n));
    }
}

/// A type that fits a context fits what has grown from it, once what has
/// grown is applied to it.
pub proof fn lemma_fits_applied(
    ctx: Seq<Elem>,
    out: Seq<Elem>,
    touched: Set<Seq<char>>,
    made: nat,
    later: nat,
    ty: Ty,
)
    requires
        wf(out),
        extends(ctx, out),
        grown(ctx, out, touched, made),
        fits(ctx, ty, made),
        made <= later,
    ensures
        fits(out, applied(out, ty), later),
{
    let got = applied(out, ty);
    lemma_extends_keeps(ctx, out);
    assert forall|n: Seq<char>| #[trigger] got.existentials().contains(n) implies out.contains(
        Elem::ExVar(n),
    ) by {
        lemma_applied_existentials(out, ty, n);
        if ty.existentials().contains(n) {
            lemma_unsolved_declared(ctx, n);
        }
        lemma_applied_unsolved(out, ty, n);
        lemma_declared_unsolved(out, n);
    }
    lemma_applied_binders(out, ty);
    assert forall|v: Seq<char>| #[trigger] got.binders().contains(v) implies !declared(out, v)
        && !made_after(v, later) by {
        assert(ty.binders().contains(v));
        if declared(out, v) {
            let i = choose|i: int| 0 <= i < out.len() && declares(#[trigger] out[i], v);
            assert(declared(ctx, v) || made_after(v, made));
        }
        if made_after(v, later) {
            lemma_made_after_later(v, made, later);
        }
    }
}

/// The parts of a type that fits a context fit it.
pub proof fn lemma_fits_parts(ctx: Seq<Elem>, ty: Ty, made: nat)
    requires
        fits(ctx, ty, made),
    ensures
        ty matches Ty::Fun { arg, result } ==> fits(ctx, *arg, made) && fits(ctx, *result, made),
        ty matches Ty::Poly { vars, body } ==> fits(ctx, *body, made),
{
    match ty {
        Ty::Fun { arg, result } => {
            assert forall|n: Seq<char>| #[trigger] arg.existentials().contains(n) implies ctx.contains(
                Elem::ExVar(n),
            ) by {
                assert(ty.existentials().contains(n));
            }
            assert forall|n: Seq<char>| #[trigger] result.existentials().contains(n) implies ctx.contains(
                Elem::ExVar(n),
            ) by {
                assert(ty.existentials().contains(n));
            }
            assert forall|v: Seq<char>| #[trigger] arg.binders().contains(v) implies !declared(ctx, v)
                && !made_after(v, made) by {
                assert(ty.binders().contains(v));
            }
            assert forall|v: Seq<char>| #[trigger] result.binders().contains(v) implies !declared(ctx, v)
                && !made_after(v, made) by {
                assert(ty.binders().contains(v));
            }
        },
        Ty::Poly { vars, body } => {
            assert forall|n: Seq<char>| #[trigger] body.existentials().contains(n) implies ctx.contains(
                Elem::ExVar(n),
            ) by {
                assert(ty.existentials().contains(n));
            }
            assert forall|v: Seq<char>| #[trigger] body.binders().contains(v) implies !declared(ctx, v)
                && !made_after(v, made) by {
                assert(ty.binders().contains(v));
            }
        },
        _ => {},
    }
}

/// The rule that solves a later existential finds what it relies on.
pub proof fn lemma_reach_defined(
    ctx: Seq<Elem>,
    a: Seq<char>,
    b: Seq<char>,
    touched: Set<Seq<char>>,
    made: nat,
)
    requires
        wf(ctx),
        ctx.contains(Elem::ExVar(a)),
        ctx.contains(Elem::ExVar(b)),
        ordered(ctx, a, b),
        touched.contains(a),
        touched.contains(b),
    ensures
        reach(ctx, a, b) is Ok,
        grown(ctx, reach(ctx, a, b)->Ok_0, touched, made),
{
    let (i, j) = choose|i: int, j: int|
        first_declaration_at(ctx, a, i) && first_declaration_at(ctx, b, j) && i < j;
    let e = Elem::ExVar(b);
    lemma_position_exists(ctx, e);
    let p = position(ctx, e);
    lemma_wf_unique(ctx, j, p, b);
    let u = choose|u: int| 0 <= u < ctx.len() && ctx[u] == Elem::ExVar(a);
    lemma_wf_unique(ctx, i, u, a);
    let prefix = before(ctx, e);
    assert(prefix[i] == Elem::ExVar(a));
    assert(prefix.contains(Elem::ExVar(a)));
    assert(type_wf(prefix, Ty::Existential(a)));
    lemma_grown_solved(ctx, b, Ty::Existential(a), touched, made);
}

/// Leaving the scope of newly made elements, none of them solved, leaves a
/// context that has grown from the one in which the scope was opened.
pub proof fn lemma_grown_scope(
    ctx: Seq<Elem>,
    pushed: Seq<Elem>,
    delta: Seq<Elem>,
    inner: Set<Seq<char>>,
    later: nat,
    touched: Set<Seq<char>>,
    made: nat,
)
    requires
        grown(ctx + pushed, delta, inner, later),
        made <= later,
        forall|n: Seq<char>| inner.contains(n) ==> allowed(touched, made, n),
        forall|k: int| 0 <= k < pushed.len() ==> !((#[trigger] pushed[k]) is ExVarSolved),
        forall|k: int, n: Seq<char>|
            0 <= k < pushed.len() && declares(#[trigger] pushed[k], n) ==> #[trigger] made_after(n, made),
        dropped_to_first(delta, pushed) is Ok,
    ensures
        grown(ctx, dropped_to_first(delta, pushed)->Ok_0, touched, made),
{
    let from = ctx + pushed;
    let out = dropped_to_first(delta, pushed)->Ok_0;
    lemma_grown_weaken(from, delta, inner, later, touched, made);
    if pushed.len() > 0 {
        lemma_position_exists(delta, pushed[0]);
    }
    assert forall|i: int| 0 <= i < out.len() implies out[i] == delta[i] by {}
    assert forall|i: int|
        0 <= i < out.len() && (#[trigger] out[i]) is ExVarSolved && !ctx.contains(out[i]) implies allowed(
        touched,
        made,
        out[i]->ExVarSolved_0,
    ) && within(carried(out[i]), touched, made) by {
        assert(out[i] == delta[i]);
        if from.contains(delta[i]) {
            let k = choose|k: int| 0 <= k < from.len() && from[k] == delta[i];
            if k < ctx.len() {
                assert(ctx[k] == delta[i]);
            } else {
                assert(pushed[k - ctx.len()] == delta[i]);
            }
        }
    }
    assert forall|i: int, n: Seq<char>| 0 <= i < out.len() && declares(#[trigger] out[i], n) implies declared(
        ctx,
        n,
    ) || #[trigger] made_after(n, made) by {
        assert(out[i] == delta[i]);
        assert(declared(from, n) || made_after(n, made));
        if declared(from, n) {
            let k = choose|k: int| 0 <= k < from.len() && declares(#[trigger] from[k], n);
            if k < ctx.len() {
                assert(declares(ctx[k], n));
            } else {
                assert(declares(pushed[k - ctx.len()], n));
            }
        }
    }
}

/// The body of a quantifier, its variables renamed, fits the context in
/// which the fresh names are declared.
pub proof fn lemma_fits_renamed(
    ctx: Seq<Elem>,
    vars: Seq<Seq<char>>,
    body: Ty,
    made: nat,
    existential: bool,
)
    requires
        fits(ctx, body, made),
    ensures
        ({
            let fresh = fresh_names(made, vars.len());
            let pushed = if existential {
                as_marked_existentials(fresh)
            } else {
                as_universals(fresh)
            };
            &&& fits(ctx + pushed, renamed(body, vars, fresh, existential), made + vars.len())
            &&& forall|k: int| 0 <= k < pushed.len() ==> !((#[trigger] pushed[k]) is ExVarSolved)
            &&& forall|k: int, n: Seq<char>|
                0 <= k < pushed.len() && declares(#[trigger] pushed[k], n) ==> #[trigger] made_after(n, made)
            &&& forall|n: Seq<char>|
                renamed(body, vars, fresh, existential).existentials().contains(n)
                    ==> body.existentials().contains(n) || made_after(n, made)
            &&& forall|n: Seq<char>| ctx.contains(Elem::ExVar(n)) ==> (ctx + pushed).contains(Elem::ExVar(n))
        }),
{
    let count = vars.len();
    let fresh = fresh_names(made, count);
    let pushed = if existential {
        as_marked_existentials(fresh)
    } else {
        as_universals(fresh)
    };
    let to = ctx + pushed;
    let got = renamed(body, vars, fresh, existential);
    assert forall|n: Seq<char>| ctx.contains(Elem::ExVar(n)) implies to.contains(Elem::ExVar(n)) by {
        let i = choose|i: int| 0 <= i < ctx.len() && ctx[i] == Elem::ExVar(n);
        assert(to[i] == Elem::ExVar(n));
    }
    assert forall|k: int, n: Seq<char>| 0 <= k < pushed.len() && declares(#[trigger] pushed[k], n) implies #[trigger] made_after(
        n,
        made,
    ) by {
        if existential {
            lemma_fresh_made_after((made + 1 + k / 2) as nat, made);
        }
    }
    assert forall|n: Seq<char>| got.existentials().contains(n) implies body.existentials().contains(n)
        || made_after(n, made) by {
        lemma_renamed_existentials(body, vars, fresh, existential, n);
        if !body.existentials().contains(n) {
            let j = choose|j: int| 0 <= j < fresh.len() && fresh[j] == n;
            lemma_fresh_made_after((made + 1 + j) as nat, made);
        }
    }
    assert forall|n: Seq<char>| #[trigger] got.existentials().contains(n) implies to.contains(
        Elem::ExVar(n),
    ) by {
        lemma_renamed_existentials(body, vars, fresh, existential, n);
        if body.existentials().contains(n) {
        } else {
            let j = choose|j: int| 0 <= j < fresh.len() && fresh[j] == n;
            assert(pushed[2 * j + 1] == Elem::ExVar(n));
            assert(to[ctx.len() + 2 * j + 1] == Elem::ExVar(n));
        }
    }
    lemma_renamed_binders(body, vars, fresh, existential);
    assert forall|v: Seq<char>| #[trigger] got.binders().contains(v) implies !declared(to, v)
        && !made_after(v, made + count) by {
        assert(body.binders().contains(v));
        if declared(to, v) {
            let i = choose|i: int| 0 <= i < to.len() && declares(#[trigger] to[i], v);
            if i < ctx.len() {
                assert(declares(ctx[i], v));
            } else {
                assert(declares(pushed[i - ctx.len()], v));
                assert(made_after(v, made));
            }
        }
        if made_after(v, made + count) {
            lemma_made_after_later(v, made, made + count);
        }
    }
}

/// Instantiation to the left finds what it relies on: where the context is
/// well formed and declares no name that is still to be made, the
/// existential is unsolved in it, and the type fits it and does not hold
/// the existential, the rule never reports a context that lacks an
/// element; and what it gives back is well formed, extends the context and
/// has grown from it by the names of the existential and of the type, and
/// by names newly made.
pub proof fn lemma_instantiate_l_defined(depth: nat, made: nat, ctx: Seq<Elem>, a: Seq<char>, ty: Ty)
    requires
        wf(ctx),
        names_below(ctx, made),
        ctx.contains(Elem::ExVar(a)),
        fits(ctx, ty, made),
        !ty.existentials().contains(a),
    ensures
        ({
            let (next, r) = instantiate_l_rule(depth, made, ctx, a, ty);
            &&& made <= next
            &&& !(r matches Err(Failure::MalformedContext))
            &&& r matches Ok(out) ==> wf(out) && names_below(out, next) && extends(ctx, out) && grown(
                ctx,
                out,
                ty.existentials().insert(a),
                made,
            )
        }),
    decreases depth,
{
    let touched = ty.existentials().insert(a);
    lemma_instantiate_l_wf(depth, made, ctx, a, ty);
    lemma_names_markers_below(ctx, made);
    lemma_instantiate_l_extends(depth, made, ctx, a, ty);
    if depth == 0 {
    } else if ty is Existential && ordered(ctx, a, ty->Existential_0) {
        let b = ty->Existential_0;
        assert(ty.existentials().contains(b));
        lemma_reach_defined(ctx, a, b, touched, made);
    } else if ty is Fun {
        let d = (depth - 1) as nat;
        let a2 = fresh_name(made + 1);
        let a1 = fresh_name(made + 2);
        lemma_articulated_step(ctx, a, ty, made, a1, a2);
        let start = articulated(ctx, a, a1, a2);
        let arg = *ty->arg;
        let result = *ty->result;
        lemma_instantiate_r_defined(d, made + 2, start, arg, a1);
        let (next, first) = instantiate_r_rule(d, made + 2, start, arg, a1);
        if let Ok(theta) = first {
            let rest = applied(theta, result);
            lemma_articulated_next(ctx, a, ty, made, a1, a2, theta, next);
            lemma_instantiate_l_defined(d, next, theta, a2, rest);
            let (last, second) = instantiate_l_rule(d, next, theta, a2, rest);
            if let Ok(out) = second {
                lemma_articulated_done(ctx, a, ty, made, a1, a2, theta, next, out, a2);
            }
        }
    } else if ty is Poly {
        let count = ty->vars.len();
        let d = (depth - 1) as nat;
        let fresh = fresh_names(made, count);
        let pushed = as_universals(fresh);
        let body = *ty->body;
        let renamed_body = renamed(body, ty->vars, fresh, false);
        lemma_fits_parts(ctx, ty, made);
        lemma_fits_renamed(ctx, ty->vars, body, made, false);
        lemma_wf_universals(ctx, made, count);
        crate::extension::lemma_markers_below_universals(ctx, made, count);
        assert(!renamed_body.existentials().contains(a)) by {
            if renamed_body.existentials().contains(a) {
                lemma_unsolved_declared(ctx, a);
                lemma_names_old(ctx, made, a);
            }
        }
        lemma_instantiate_l_defined(d, made + count, ctx + pushed, a, renamed_body);
        let (next, inner) = instantiate_l_rule(d, made + count, ctx + pushed, a, renamed_body);
        if let Ok(delta) = inner {
            lemma_scope_defined(ctx, pushed, delta);
            lemma_grown_scope(
                ctx,
                pushed,
                delta,
                renamed_body.existentials().insert(a),
                made + count,
                touched,
                made,
            );
        }
    } else {
        if type_wf(before(ctx, Elem::ExVar(a)), ty) {
            lemma_grown_solved(ctx, a, ty, touched, made);
        }
    }
}

/// Leaving the scope of pushed elements never fails, where what is left
/// extends the context with the pushed elements and the first of them is
/// no existential and new to the context.
pub proof fn lemma_scope_defined(ctx: Seq<Elem>, pushed: Seq<Elem>, delta: Seq<Elem>)
    requires
        extends(ctx + pushed, delta),
        pushed.len() > 0 ==> !is_existential(pushed[0]) && !ctx.contains(pushed[0]),
    ensures
        dropped_to_first(delta, pushed) is Ok,
{
    if pushed.len() > 0 {
        crate::extension::lemma_extends_cut(ctx, pushed, delta);
    }
}

/// Committing an existential to the shape of a function readies the
/// context for the instantiation of the first of the two existentials that
/// come in against the argument of the function.
pub proof fn lemma_articulated_step(
    ctx: Seq<Elem>,
    a: Seq<char>,
    ty: Ty,
    made: nat,
    a1: Seq<char>,
    a2: Seq<char>,
)
    requires
        wf(ctx),
        names_below(ctx, made),
        ctx.contains(Elem::ExVar(a)),
        fits(ctx, ty, made),
        !ty.existentials().contains(a),
        ty is Fun,
        (a1 == fresh_name(made + 1) && a2 == fresh_name(made + 2)) || (a1 == fresh_name(made + 2) && a2
            == fresh_name(made + 1)),
    ensures
        ({
            let start = articulated(ctx, a, a1, a2);
            &&& wf(start)
            &&& names_below(start, made + 2)
            &&& extends(ctx, start)
            &&& start.contains(Elem::ExVar(a1))
            &&& start.contains(Elem::ExVar(a2))
            &&& fits(start, *ty->arg, made + 2)
            &&& !ty->arg.existentials().contains(a1)
            &&& grown(ctx, start, ty.existentials().insert(a), made)
            &&& a1 != a2
            &&& !ty.existentials().contains(a1)
            &&& !ty.existentials().contains(a2)
            &&& made_after(a1, made)
            &&& made_after(a2, made)
            &&& !made_after(a1, made + 2)
            &&& !made_after(a2, made + 2)
        }),
{
    let start = articulated(ctx, a, a1, a2);
    let arg = *ty->arg;
    let n1: nat = if a1 == fresh_name(made + 1) {
        made + 1
    } else {
        made + 2
    };
    let n2: nat = if a1 == fresh_name(made + 1) {
        made + 2
    } else {
        made + 1
    };
    lemma_wf_articulated(ctx, a, made, a1, a2);
    lemma_fresh_made_after(n1, made);
    lemma_fresh_made_after(n2, made);
    lemma_fresh_made_after(n1, made + 2);
    lemma_fresh_made_after(n2, made + 2);
    if a1 == a2 {
        lemma_fresh_name_injective(n1, n2);
    }
    let elems = seq![Elem::ExVar(a2), Elem::ExVar(a1), Elem::ExVarSolved(a, arrow(a1, a2))];
    assert(elems.last() == Elem::ExVarSolved(a, arrow(a1, a2)));
    crate::extension::lemma_extends_inserted(ctx, a, elems);
    lemma_grown_articulated(ctx, a, a1, a2, ty.existentials().insert(a), made);
    lemma_fits_parts(ctx, ty, made);
    assert forall|n: Seq<char>| ty.existentials().contains(n) implies n != a1 && n != a2 by {
        lemma_unsolved_declared(ctx, n);
        lemma_names_old(ctx, made, n);
    }
    assert forall|n: Seq<char>| #[trigger] arg.existentials().contains(n) implies start.contains(
        Elem::ExVar(n),
    ) by {
        assert(ty.existentials().contains(n));
    }
    assert forall|v: Seq<char>| #[trigger] arg.binders().contains(v) implies !declared(start, v)
        && !made_after(v, made + 2) by {
        if made_after(v, made + 2) {
            lemma_made_after_later(v, made, made + 2);
        }
    }
}

/// Once the first existential is instantiated, the context is ready for
/// the instantiation of the second against the result of the function.
pub proof fn lemma_articulated_next(
    ctx: Seq<Elem>,
    a: Seq<char>,
    ty: Ty,
    made: nat,
    a1: Seq<char>,
    a2: Seq<char>,
    theta: Seq<Elem>,
    next: nat,
)
    requires
        wf(ctx),
        names_below(ctx, made),
        ctx.contains(Elem::ExVar(a)),
        fits(ctx, ty, made),
        !ty.existentials().contains(a),
        ty is Fun,
        made + 2 <= next,
        a1 != a2,
        made_after(a1, made),
        made_after(a2, made),
        !made_after(a1, made + 2),
        !made_after(a2, made + 2),
        !ty.existentials().contains(a1),
        !ty.existentials().contains(a2),
        wf(articulated(ctx, a, a1, a2)),
        names_below(articulated(ctx, a, a1, a2), made + 2),
        articulated(ctx, a, a1, a2).contains(Elem::ExVar(a1)),
        articulated(ctx, a, a1, a2).contains(Elem::ExVar(a2)),
        grown(ctx, articulated(ctx, a, a1, a2), ty.existentials().insert(a), made),
        wf(theta),
        extends(articulated(ctx, a, a1, a2), theta),
        grown(articulated(ctx, a, a1, a2), theta, ty->arg.existentials().insert(a1), made + 2),
    ensures
        theta.contains(Elem::ExVar(a2)),
        fits(theta, applied(theta, *ty->result), next),
        !applied(theta, *ty->result).existentials().contains(a2),
        within(applied(theta, *ty->result), ty.existentials().insert(a1), made + 2),
{
    let start = articulated(ctx, a, a1, a2);
    let arg = *ty->arg;
    let result = *ty->result;
    let touched1 = arg.existentials().insert(a1);
    let wide = ty.existentials().insert(a1);
    // The second existential is none that the first instantiation may solve.
    lemma_unsolved_kept(start, theta, touched1, made + 2, a2);
    lemma_grown_weaken(start, theta, touched1, made + 2, wide, made + 2);
    lemma_grown_articulated(ctx, a, a1, a2, ty.existentials().insert(a), made);
    assert forall|n: Seq<char>| wide.contains(n) implies start.contains(Elem::ExVar(n)) by {}
    assert(within(result, wide, made + 2));
    lemma_applied_allowed(start, theta, wide, made + 2, result);
    lemma_fits_parts(ctx, ty, made);
    // The result fits the context as it was once the existential was
    // committed.
    assert(fits(start, result, made + 2)) by {
        assert forall|n: Seq<char>| #[trigger] result.existentials().contains(n) implies start.contains(
            Elem::ExVar(n),
        ) by {
            assert(ty.existentials().contains(n));
        }
        assert forall|v: Seq<char>| #[trigger] result.binders().contains(v) implies !declared(start, v)
            && !made_after(v, made + 2) by {
            if made_after(v, made + 2) {
                lemma_made_after_later(v, made, made + 2);
            }
        }
    }
    lemma_fits_applied(start, theta, wide, made + 2, next, result);
}

/// Once both existentials are instantiated, what is given back has grown
/// from the context by the names of the existential and of the type.
pub proof fn lemma_articulated_done(
    ctx: Seq<Elem>,
    a: Seq<char>,
    ty: Ty,
    made: nat,
    a1: Seq<char>,
    a2: Seq<char>,
    theta: Seq<Elem>,
    next: nat,
    out: Seq<Elem>,
    second: Seq<char>,
)
    requires
        ty is Fun,
        made + 2 <= next,
        made_after(a1, made),
        made_after(a2, made),
        second == a1 || second == a2,
        grown(ctx, articulated(ctx, a, a1, a2), ty.existentials().insert(a), made),
        exists|part: Ty, first: Seq<char>|
            #![auto]
            (first == a1 || first == a2) && part.existentials().subset_of(ty.existentials()) && grown(
                articulated(ctx, a, a1, a2),
                theta,
                part.existentials().insert(first),
                made + 2,
            ),
        exists|got: Ty|
            #![auto]
            within(got, ty.existentials().insert(a1).insert(a2), made + 2) && grown(
                theta,
                out,
                got.existentials().insert(second),
                next,
            ),
    ensures
        grown(ctx, out, ty.existentials().insert(a), made),
{
    let touched = ty.existentials().insert(a);
    let start = articulated(ctx, a, a1, a2);
    let (part, first) = choose|part: Ty, first: Seq<char>|
        #![auto]
        (first == a1 || first == a2) && part.existentials().subset_of(ty.existentials()) && grown(
            start,
            theta,
            part.existentials().insert(first),
            made + 2,
        );
    let got = choose|got: Ty|
        #![auto]
        within(got, ty.existentials().insert(a1).insert(a2), made + 2) && grown(
            theta,
            out,
            got.existentials().insert(second),
            next,
        );
    lemma_grown_weaken(start, theta, part.existentials().insert(first), made + 2, touched, made);
    assert forall|n: Seq<char>| got.existentials().insert(second).contains(n) implies allowed(
        touched,
        made,
        n,
    ) by {
        if got.existentials().contains(n) {
            assert(allowed(ty.existentials().insert(a1).insert(a2), made + 2, n));
            if made_after(n, made + 2) {
                lemma_made_after_later(n, made, made + 2);
            }
        }
    }
    lemma_grown_weaken(theta, out, got.existentials().insert(second), next, touched, made);
    lemma_grown_trans(ctx, start, theta, touched, made);
    lemma_grown_trans(ctx, theta, out, touched, made);
}

/// Instantiation to the right finds what it relies on.
pub proof fn lemma_instantiate_r_defined(depth: nat, made: nat, ctx: Seq<Elem>, ty: Ty, a: Seq<char>)
    requires
        wf(ctx),
        names_below(ctx, made),
        ctx.contains(Elem::ExVar(a)),
        fits(ctx, ty, made),
        !ty.existentials().contains(a),
    ensures
        ({
            let (next, r) = instantiate_r_rule(depth, made, ctx, ty, a);
            &&& made <= next
            &&& !(r matches Err(Failure::MalformedContext))
            &&& r matches Ok(out) ==> wf(out) && names_below(out, next) && extends(ctx, out) && grown(
                ctx,
                out,
                ty.existentials().insert(a),
                made,
            )
        }),
    decreases depth,
{
    let touched = ty.existentials().insert(a);
    lemma_instantiate_r_wf(depth, made, ctx, ty, a);
    lemma_names_markers_below(ctx, made);
    lemma_instantiate_r_extends(depth, made, ctx, ty, a);
    if depth == 0 {
    } else if ty is Existential && ordered(ctx, a, ty->Existential_0) {
        let b = ty->Existential_0;
        assert(ty.existentials().contains(b));
        lemma_reach_defined(ctx, a, b, touched, made);
    } else if ty is Fun {
        let d = (depth - 1) as nat;
        let a1 = fresh_name(made + 1);
        let a2 = fresh_name(made + 2);
        lemma_articulated_step(ctx, a, ty, made, a1, a2);
        let start = articulated(ctx, a, a1, a2);
        let arg = *ty->arg;
        let result = *ty->result;
        lemma_instantiate_l_defined(d, made + 2, start, a1, arg);
        let (next, first) = instantiate_l_rule(d, made + 2, start, a1, arg);
        if let Ok(theta) = first {
            let rest = applied(theta, result);
            lemma_articulated_next(ctx, a, ty, made, a1, a2, theta, next);
            lemma_instantiate_r_defined(d, next, theta, rest, a2);
            let (last, second) = instantiate_r_rule(d, next, theta, rest, a2);
            if let Ok(out) = second {
                lemma_articulated_done(ctx, a, ty, made, a1, a2, theta, next, out, a2);
            }
        }
    } else if ty is Poly {
        let count = ty->vars.len();
        let d = (depth - 1) as nat;
        let fresh = fresh_names(made, count);
        let pushed = as_marked_existentials(fresh);
        let body = *ty->body;
        let renamed_body = renamed(body, ty->vars, fresh, true);
        lemma_fits_parts(ctx, ty, made);
        lemma_fits_renamed(ctx, ty->vars, body, made, true);
        lemma_wf_marked(ctx, made, count);
        crate::extension::lemma_markers_below_marked(ctx, made, count);
        assert(!renamed_body.existentials().contains(a)) by {
            if renamed_body.existentials().contains(a) {
                lemma_unsolved_declared(ctx, a);
                lemma_names_old(ctx, made, a);
            }
        }
        lemma_instantiate_r_defined(d, made + count, ctx + pushed, renamed_body, a);
        let (next, inner) = instantiate_r_rule(d, made + count, ctx + pushed, renamed_body, a);
        if let Ok(delta) = inner {
            lemma_scope_defined(ctx, pushed, delta);
            lemma_grown_scope(
                ctx,
                pushed,
                delta,
                renamed_body.existentials().insert(a),
                made + count,
                touched,
                made,
            );
        }
    } else {
        if type_wf(before(ctx, Elem::ExVar(a)), ty) {
            lemma_grown_solved(ctx, a, ty, touched, made);
        }
    }
}

/// A type that fits a context fits the context once newly made elements
/// follow it.
pub proof fn lemma_fits_pushed(ctx: Seq<Elem>, pushed: Seq<Elem>, ty: Ty, made: nat, later: nat)
    requires
        fits(ctx, ty, made),
        made <= later,
        forall|k: int, n: Seq<char>|
            0 <= k < pushed.len() && declares(#[trigger] pushed[k], n) ==> #[trigger] made_after(n, made),
    ensures
        fits(ctx + pushed, ty, later),
{
    let to = ctx + pushed;
    assert forall|n: Seq<char>| #[trigger] ty.existentials().contains(n) implies to.contains(
        Elem::ExVar(n),
    ) by {
        let i = choose|i: int| 0 <= i < ctx.len() && ctx[i] == Elem::ExVar(n);
        assert(to[i] == Elem::ExVar(n));
    }
    assert forall|v: Seq<char>| #[trigger] ty.binders().contains(v) implies !declared(to, v)
        && !made_after(v, later) by {
        if declared(to, v) {
            let i = choose|i: int| 0 <= i < to.len() && declares(#[trigger] to[i], v);
            if i < ctx.len() {
                assert(declares(ctx[i], v));
            } else {
                assert(declares(pushed[i - ctx.len()], v));
            }
        }
        if made_after(v, later) {
            lemma_made_after_later(v, made, later);
        }
    }
}

/// The existentials of a type that fits a context are among its free
/// names.
pub proof fn lemma_fits_free(ctx: Seq<Elem>, ty: Ty, made: nat)
    requires
        fits(ctx, ty, made),
    ensures
        ty.existentials().subset_of(ty.free_vars()),
{
    assert forall|v: Seq<char>| ty.binders().contains(v) implies !ty.existentials().contains(v) by {
        if ty.existentials().contains(v) {
            lemma_unsolved_declared(ctx, v);
        }
    }
    lemma_existentials_free(ty);
}

/// Subtyping finds what it relies on: where the context is well formed
/// and declares no name that is still to be made, and both types fit it,
/// subtyping never reports a context that lacks an element; and what it
/// gives back is well formed, extends the context and has grown from it
/// by the names of the existentials of the two types, and by names newly
/// made.
pub proof fn lemma_subtype_defined(depth: nat, made: nat, ctx: Seq<Elem>, a: Ty, b: Ty)
    requires
        wf(ctx),
        names_below(ctx, made),
        fits(ctx, a, made),
        fits(ctx, b, made),
    ensures
        ({
            let (next, r) = subtype_rule(depth, made, ctx, a, b);
            &&& made <= next
            &&& !(r matches Err(Failure::MalformedContext))
            &&& r matches Ok(out) ==> wf(out) && names_below(out, next) && extends(ctx, out) && grown(
                ctx,
                out,
                a.existentials().union(b.existentials()),
                made,
            )
        }),
    decreases depth,
{
    let touched = a.existentials().union(b.existentials());
    lemma_subtype_wf(depth, made, ctx, a, b);
    lemma_names_markers_below(ctx, made);
    lemma_subtype_extends(depth, made, ctx, a, b);
    if depth == 0 {
    } else if same_atom(a, b) {
        lemma_grown_refl(ctx, touched, made);
    } else if a is Fun && b is Fun {
        let d = (depth - 1) as nat;
        let a1 = *a->arg;
        let a2 = *a->result;
        let b1 = *b->arg;
        let b2 = *b->result;
        lemma_fits_parts(ctx, a, made);
        lemma_fits_parts(ctx, b, made);
        lemma_subtype_defined(d, made, ctx, b1, a1);
        let (next, first) = subtype_rule(d, made, ctx, b1, a1);
        if let Ok(theta) = first {
            let first_touched = b1.existentials().union(a1.existentials());
            let left = applied(theta, a2);
            let right = applied(theta, b2);
            lemma_fits_applied(ctx, theta, first_touched, made, next, a2);
            lemma_fits_applied(ctx, theta, first_touched, made, next, b2);
            lemma_subtype_defined(d, next, theta, left, right);
            let (last, second) = subtype_rule(d, next, theta, left, right);
            if let Ok(out) = second {
                lemma_grown_weaken(ctx, theta, first_touched, made, touched, made);
                lemma_applied_allowed(ctx, theta, touched, made, a2);
                lemma_applied_allowed(ctx, theta, touched, made, b2);
                let second_touched = left.existentials().union(right.existentials());
                assert forall|n: Seq<char>| second_touched.contains(n) implies allowed(touched, made, n) by {
                    if left.existentials().contains(n) {
                        assert(allowed(touched, made, n));
                    } else {
                        assert(right.existentials().contains(n));
                        assert(allowed(touched, made, n));
                    }
                }
                lemma_grown_weaken(theta, out, second_touched, next, touched, made);
                lemma_grown_trans(ctx, theta, out, touched, made);
            }
        }
    } else if b is Poly {
        let count = b->vars.len();
        let d = (depth - 1) as nat;
        let fresh = fresh_names(made, count);
        let pushed = as_universals(fresh);
        let body = *b->body;
        let renamed_body = renamed(body, b->vars, fresh, false);
        lemma_fits_parts(ctx, b, made);
        lemma_fits_renamed(ctx, b->vars, body, made, false);
        lemma_fits_pushed(ctx, pushed, a, made, made + count);
        lemma_wf_universals(ctx, made, count);
        crate::extension::lemma_markers_below_universals(ctx, made, count);
        lemma_subtype_defined(d, made + count, ctx + pushed, a, renamed_body);
        let (next, inner) = subtype_rule(d, made + count, ctx + pushed, a, renamed_body);
        if let Ok(delta) = inner {
            lemma_scope_defined(ctx, pushed, delta);
            lemma_grown_scope(
                ctx,
                pushed,
                delta,
                a.existentials().union(renamed_body.existentials()),
                made + count,
                touched,
                made,
            );
        }
    } else if a is Poly {
        let count = a->vars.len();
        let d = (depth - 1) as nat;
        let fresh = fresh_names(made, count);
        let pushed = as_marked_existentials(fresh);
        let body = *a->body;
        let renamed_body = renamed(body, a->vars, fresh, true);
        lemma_fits_parts(ctx, a, made);
        lemma_fits_renamed(ctx, a->vars, body, made, true);
        lemma_fits_pushed(ctx, pushed, b, made, made + count);
        lemma_wf_marked(ctx, made, count);
        crate::extension::lemma_markers_below_marked(ctx, made, count);
        lemma_subtype_defined(d, made + count, ctx + pushed, renamed_body, b);
        let (next, inner) = subtype_rule(d, made + count, ctx + pushed, renamed_body, b);
        if let Ok(delta) = inner {
            lemma_scope_defined(ctx, pushed, delta);
            lemma_grown_scope(
                ctx,
                pushed,
                delta,
                renamed_body.existentials().union(b.existentials()),
                made + count,
                touched,
                made,
            );
        }
    } else if a is Existential && !b.free_vars().contains(a->Existential_0) {
        let name = a->Existential_0;
        assert(a.existentials().contains(name));
        lemma_fits_free(ctx, b, made);
        lemma_instantiate_l_defined((depth - 1) as nat, made, ctx, name, b);
        if let Ok(out) = instantiate_l_rule((depth - 1) as nat, made, ctx, name, b).1 {
            lemma_grown_weaken(ctx, out, b.existentials().insert(name), made, touched, made);
        }
    } else if b is Existential && !a.free_vars().contains(b->Existential_0) {
        let name = b->Existential_0;
        assert(b.existentials().contains(name));
        lemma_fits_free(ctx, a, made);
        lemma_instantiate_r_defined((depth - 1) as nat, made, ctx, a, name);
        if let Ok(out) = instantiate_r_rule((depth - 1) as nat, made, ctx, a, name).1 {
            lemma_grown_weaken(ctx, out, a.existentials().insert(name), made, touched, made);
        }
    } else {
    }
}

} // verus!
