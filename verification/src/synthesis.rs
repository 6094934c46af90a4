//! Checking and inference find what they rely on: for an expression whose
//! lambdas bind names of the surface language, none of them within the
//! scope of a lambda that binds the same, and whose annotations hold no
//! existential, the rules never report a context that lacks an element.

use crate::closure::{lemma_applied_wf, lemma_covers_more, lemma_covers_take, lemma_renamed_wf};
use crate::context::{
    annotates, annotation, applied, as_universals, before, carried, declared, declares,
    first_annotation_at, lemma_applied_binders, lemma_applied_unsolved, lemma_declared_unsolved,
    lemma_position_exists, lemma_wf_entry, position, type_wf, wf, Elem,
};
use crate::error::Failure;
use crate::expr::{tidy, Term};
use crate::extension::{
    extends, is_existential, lemma_extends_added, lemma_extends_covers, lemma_extends_cut,
    lemma_extends_keeps, lemma_extends_origin, lemma_extends_refl, lemma_extends_trans,
};
use crate::names::{fresh_name, fresh_names, lemma_fresh_name_injective, generated};
use crate::progress::{
    fits, hygienic, lemma_fits_parts, lemma_fits_renamed, lemma_fresh_made_after,
    lemma_grown_articulated, lemma_made_after_later, lemma_subtype_defined,
    lemma_unsolved_declared, made_after, open_in,
};
use crate::rules::{
    arrow, articulated, as_existentials, check_rule, dropped, infer_application_rule, infer_rule,
    lemma_check_counts_up, lemma_infer_application_counts_up, lemma_infer_counts_up,
    lemma_renamed_binders, lemma_renamed_existentials, literal_of,  renamed,
    subtype_rule, synth_rule,
};
use crate::scoping::{lemma_type_wf_covers, supported, supports};
use crate::types::{plain_binders, Ty};
use crate::validity::{
    annotated_in, declared_name, elem_ok, lemma_names_below_take, lemma_wf_articulated,
    lemma_wf_by_entries, lemma_wf_entries, lemma_wf_take, lemma_wf_universals, names,
    names_below,
};
use vstd::prelude::*;

verus! {

/// Whether a context is steady: it is well formed and declares no name
/// that is still to be made, its existentials bear generated names, and
/// its annotations are for names that are not still to be made and of
/// types that bind no generated name.
pub open spec fn steady(ctx: Seq<Elem>, made: nat) -> bool {
    &&& wf(ctx)
    &&& names_below(ctx, made)
    &&& forall|i: int, n: Seq<char>| 0 <= i < ctx.len() && declares(#[trigger] ctx[i], n) ==> #[trigger] generated(n)
    &&& forall|i: int|
        0 <= i < ctx.len() && (#[trigger] ctx[i]) is Anno ==> plain_binders(carried(ctx[i])) && !made_after(
            ctx[i]->Anno_0,
            made,
        )
}

/// Whether the context annotates none of the variables that the lambdas
/// of the expression bind.
pub open spec fn unbound(ctx: Seq<Elem>, e: Term) -> bool {
    forall|x: Seq<char>| #[trigger] e.binders().contains(x) ==> !annotated_in(ctx, x)
}

/// A name that is still to be made is generated.
pub proof fn lemma_made_after_generated(name: Seq<char>, made: nat)
    requires
        made_after(name, made),
    ensures
        generated(name),
{
    let k = choose|k: nat| k > made && name == #[trigger] fresh_name(k);
    assert(name == fresh_name(k));
}

/// In a steady context, a type that binds no generated name binds none of
/// the names of the existentials.
pub proof fn lemma_steady_hygienic(ctx: Seq<Elem>, ty: Ty, made: nat)
    requires
        steady(ctx, made),
        plain_binders(ty),
    ensures
        hygienic(ctx, ty, made),
{
    assert forall|v: Seq<char>| #[trigger] ty.binders().contains(v) implies !declared(ctx, v)
        && !made_after(v, made) by {
        if declared(ctx, v) {
            let i = choose|i: int| 0 <= i < ctx.len() && declares(#[trigger] ctx[i], v);
            assert(generated(v));
        }
        if made_after(v, made) {
            lemma_made_after_generated(v, made);
        }
    }
}

/// A steady context stays steady as names are made.
pub proof fn lemma_steady_later(ctx: Seq<Elem>, made: nat, later: nat)
    requires
        steady(ctx, made),
        made <= later,
    ensures
        steady(ctx, later),
{
    assert forall|i: int| 0 <= i < ctx.len() && (#[trigger] ctx[i]) is Anno implies plain_binders(
        carried(ctx[i]),
    ) && !made_after(ctx[i]->Anno_0, later) by {
        if made_after(ctx[i]->Anno_0, later) {
            lemma_made_after_later(ctx[i]->Anno_0, made, later);
        }
    }
}

/// What stands before an element of a steady context is steady.
pub proof fn lemma_steady_take(ctx: Seq<Elem>, k: int, made: nat)
    requires
        steady(ctx, made),
        0 <= k <= ctx.len(),
    ensures
        steady(ctx.take(k), made),
{
    lemma_wf_take(ctx, k);
    lemma_names_below_take(ctx, k, made);
    let part = ctx.take(k);
    assert forall|i: int, n: Seq<char>| 0 <= i < part.len() && declares(#[trigger] part[i], n) implies #[trigger] generated(
        n,
    ) by {
        assert(part[i] == ctx[i]);
    }
    assert forall|i: int| 0 <= i < part.len() && (#[trigger] part[i]) is Anno implies plain_binders(
        carried(part[i]),
    ) && !made_after(part[i]->Anno_0, made) by {
        assert(part[i] == ctx[i]);
    }
}

/// An extension annotates what the context annotates, with the same
/// elements.
pub proof fn lemma_extends_annos(ctx: Seq<Elem>, out: Seq<Elem>)
    requires
        extends(ctx, out),
    ensures
        forall|x: Seq<char>| annotated_in(out, x) <==> annotated_in(ctx, x),
        forall|i: int| 0 <= i < out.len() && !is_existential(#[trigger] out[i]) ==> ctx.contains(out[i]),
        forall|j: int| 0 <= j < ctx.len() && !is_existential(#[trigger] ctx[j]) ==> out.contains(ctx[j]),
{
    lemma_extends_covers(ctx, out);
    assert forall|i: int| 0 <= i < out.len() && !is_existential(#[trigger] out[i]) implies ctx.contains(
        out[i],
    ) by {
        lemma_extends_origin(ctx, out, i);
    }
    assert forall|j: int| 0 <= j < ctx.len() && !is_existential(#[trigger] ctx[j]) implies out.contains(
        ctx[j],
    ) by {
        assert(supported(ctx[j], out));
        let n = choose|n: int| 0 <= n < out.len() && supports(ctx[j], #[trigger] out[n]);
        assert(out[n] == ctx[j]);
    }
    assert forall|x: Seq<char>| annotated_in(out, x) <==> annotated_in(ctx, x) by {
        if annotated_in(out, x) {
            let i = choose|i: int| 0 <= i < out.len() && annotates(#[trigger] out[i], x);
            assert(ctx.contains(out[i]));
            let j = choose|j: int| 0 <= j < ctx.len() && ctx[j] == out[i];
            assert(annotates(ctx[j], x));
        }
        if annotated_in(ctx, x) {
            let j = choose|j: int| 0 <= j < ctx.len() && annotates(#[trigger] ctx[j], x);
            assert(out.contains(ctx[j]));
            let i = choose|i: int| 0 <= i < out.len() && out[i] == ctx[j];
            assert(annotates(out[i], x));
        }
    }
}

/// A well-formed extension of a steady context is steady, where its
/// existentials are those of the context or newly made.
pub proof fn lemma_steady_extended(ctx: Seq<Elem>, out: Seq<Elem>, made: nat, later: nat)
    requires
        steady(ctx, made),
        wf(out),
        names_below(out, later),
        extends(ctx, out),
        made <= later,
        forall|i: int, n: Seq<char>|
            0 <= i < out.len() && declares(#[trigger] out[i], n) ==> declared(ctx, n) || #[trigger] made_after(
                n,
                made,
            ),
    ensures
        steady(out, later),
{
    lemma_extends_annos(ctx, out);
    assert forall|i: int, n: Seq<char>| 0 <= i < out.len() && declares(#[trigger] out[i], n) implies #[trigger] generated(
        n,
    ) by {
        assert(declared(ctx, n) || made_after(n, made));
        if declared(ctx, n) {
            let j = choose|j: int| 0 <= j < ctx.len() && declares(#[trigger] ctx[j], n);
            assert(generated(n));
        } else {
            lemma_made_after_generated(n, made);
        }
    }
    assert forall|i: int| 0 <= i < out.len() && (#[trigger] out[i]) is Anno implies plain_binders(
        carried(out[i]),
    ) && !made_after(out[i]->Anno_0, later) by {
        assert(ctx.contains(out[i]));
        let j = choose|j: int| 0 <= j < ctx.len() && ctx[j] == out[i];
        assert(ctx[j] is Anno);
        if made_after(out[i]->Anno_0, later) {
            lemma_made_after_later(out[i]->Anno_0, made, later);
        }
    }
}

/// What a context with more elements declares, annotates and holds is
/// what the context or the elements do.
pub proof fn lemma_appended(ctx: Seq<Elem>, more: Seq<Elem>)
    ensures
        forall|n: Seq<char>|
            declared(ctx + more, n) <==> declared(ctx, n) || declared(more, n),
        forall|x: Seq<char>|
            annotated_in(ctx + more, x) <==> annotated_in(ctx, x) || annotated_in(more, x),
        forall|n: Seq<char>| names(ctx + more, n) <==> names(ctx, n) || names(more, n),
        forall|e: Elem| (ctx + more).contains(e) <==> ctx.contains(e) || more.contains(e),
{
    let to = ctx + more;
    assert forall|n: Seq<char>| declared(to, n) <==> declared(ctx, n) || declared(more, n) by {
        if declared(to, n) {
            let i = choose|i: int| 0 <= i < to.len() && declares(#[trigger] to[i], n);
            if i < ctx.len() {
                assert(declares(ctx[i], n));
            } else {
                assert(declares(more[i - ctx.len()], n));
            }
        }
        if declared(ctx, n) {
            let i = choose|i: int| 0 <= i < ctx.len() && declares(#[trigger] ctx[i], n);
            assert(declares(to[i], n));
        }
        if declared(more, n) {
            let i = choose|i: int| 0 <= i < more.len() && declares(#[trigger] more[i], n);
            assert(declares(to[ctx.len() + i], n));
        }
    }
    assert forall|x: Seq<char>| annotated_in(to, x) <==> annotated_in(ctx, x) || annotated_in(more, x) by {
        if annotated_in(to, x) {
            let i = choose|i: int| 0 <= i < to.len() && annotates(#[trigger] to[i], x);
            if i < ctx.len() {
                assert(annotates(ctx[i], x));
            } else {
                assert(annotates(more[i - ctx.len()], x));
            }
        }
        if annotated_in(ctx, x) {
            let i = choose|i: int| 0 <= i < ctx.len() && annotates(#[trigger] ctx[i], x);
            assert(annotates(to[i], x));
        }
        if annotated_in(more, x) {
            let i = choose|i: int| 0 <= i < more.len() && annotates(#[trigger] more[i], x);
            assert(annotates(to[ctx.len() + i], x));
        }
    }
    assert forall|n: Seq<char>| names(to, n) <==> names(ctx, n) || names(more, n) by {
        if names(to, n) {
            let i = choose|i: int| 0 <= i < to.len() && declared_name(#[trigger] to[i]) == Some(n);
            if i < ctx.len() {
                assert(declared_name(ctx[i]) == Some(n));
            } else {
                assert(declared_name(more[i - ctx.len()]) == Some(n));
            }
        }
        if names(ctx, n) {
            let i = choose|i: int| 0 <= i < ctx.len() && declared_name(#[trigger] ctx[i]) == Some(n);
            assert(declared_name(to[i]) == Some(n));
        }
        if names(more, n) {
            let i = choose|i: int| 0 <= i < more.len() && declared_name(#[trigger] more[i]) == Some(n);
            assert(declared_name(to[ctx.len() + i]) == Some(n));
        }
    }
    assert forall|e: Elem| to.contains(e) <==> ctx.contains(e) || more.contains(e) by {
        if to.contains(e) {
            let i = choose|i: int| 0 <= i < to.len() && to[i] == e;
            if i < ctx.len() {
                assert(ctx[i] == e);
            } else {
                assert(more[i - ctx.len()] == e);
            }
        }
        if ctx.contains(e) {
            let i = choose|i: int| 0 <= i < ctx.len() && ctx[i] == e;
            assert(to[i] == e);
        }
        if more.contains(e) {
            let i = choose|i: int| 0 <= i < more.len() && more[i] == e;
            assert(to[ctx.len() + i] == e);
        }
    }
}

/// Elements may follow a steady context, where each may follow what then
/// stands before it, and they declare and annotate in a steady way.
pub proof fn lemma_steady_appended(ctx: Seq<Elem>, more: Seq<Elem>, made: nat, later: nat)
    requires
        steady(ctx, made),
        made <= later,
        forall|k: int| 0 <= k < more.len() ==> elem_ok(ctx + more.take(k), #[trigger] more[k]),
        forall|k: int, n: Seq<char>|
            0 <= k < more.len() && declared_name(#[trigger] more[k]) == Some(n) ==> #[trigger] generated(n)
                && !made_after(n, later),
        forall|k: int|
            0 <= k < more.len() && (#[trigger] more[k]) is Anno ==> plain_binders(carried(more[k])) && !made_after(
                more[k]->Anno_0,
                later,
            ),
    ensures
        steady(ctx + more, later),
{
    let out = ctx + more;
    lemma_wf_entries(ctx);
    assert forall|i: int| 0 <= i < out.len() implies elem_ok(out.take(i), #[trigger] out[i]) by {
        if i < ctx.len() {
            assert(out[i] == ctx[i]);
            assert(out.take(i) =~= ctx.take(i));
        } else {
            let k = i - ctx.len();
            assert(out[i] == more[k]);
            assert(out.take(i) =~= ctx + more.take(k));
        }
    }
    lemma_wf_by_entries(out);
    lemma_steady_later(ctx, made, later);
    assert forall|n: nat| n > later implies !names(out, #[trigger] fresh_name(n)) by {
        if names(out, fresh_name(n)) {
            let i = choose|i: int| 0 <= i < out.len() && declared_name(#[trigger] out[i]) == Some(
                fresh_name(n),
            );
            if i < ctx.len() {
                assert(declared_name(ctx[i]) == Some(fresh_name(n)));
                assert(names(ctx, fresh_name(n)));
            } else {
                assert(out[i] == more[i - ctx.len()]);
                assert(generated(fresh_name(n)));
                lemma_fresh_made_after(n, later);
            }
        }
    }
    assert forall|i: int, n: Seq<char>| 0 <= i < out.len() && declares(#[trigger] out[i], n) implies #[trigger] generated(
        n,
    ) by {
        if i < ctx.len() {
            assert(out[i] == ctx[i]);
        } else {
            assert(out[i] == more[i - ctx.len()]);
            assert(declared_name(more[i - ctx.len()]) == Some(n));
            assert(generated(n));
        }
    }
    assert forall|i: int| 0 <= i < out.len() && (#[trigger] out[i]) is Anno implies plain_binders(
        carried(out[i]),
    ) && !made_after(out[i]->Anno_0, later) by {
        if i < ctx.len() {
            assert(out[i] == ctx[i]);
        } else {
            assert(out[i] == more[i - ctx.len()]);
        }
    }
}

/// Fresh rigid variables may follow a steady context.
pub proof fn lemma_steady_universals(ctx: Seq<Elem>, made: nat, count: nat)
    requires
        steady(ctx, made),
    ensures
        steady(ctx + as_universals(fresh_names(made, count)), made + count),
{
    let more = as_universals(fresh_names(made, count));
    let out = ctx + more;
    lemma_wf_universals(ctx, made, count);
    lemma_steady_later(ctx, made, made + count);
    assert forall|i: int, n: Seq<char>| 0 <= i < out.len() && declares(#[trigger] out[i], n) implies #[trigger] generated(
        n,
    ) by {
        if i < ctx.len() {
            assert(out[i] == ctx[i]);
        } else {
            assert(out[i] == more[i - ctx.len()]);
        }
    }
    assert forall|i: int| 0 <= i < out.len() && (#[trigger] out[i]) is Anno implies plain_binders(
        carried(out[i]),
    ) && !made_after(out[i]->Anno_0, made + count) by {
        if i < ctx.len() {
            assert(out[i] == ctx[i]);
        } else {
            assert(out[i] == more[i - ctx.len()]);
        }
    }
}

/// Fresh unsolved existentials may follow a steady context.
pub proof fn lemma_steady_existentials(ctx: Seq<Elem>, made: nat, count: nat)
    requires
        steady(ctx, made),
    ensures
        steady(ctx + as_existentials(fresh_names(made, count)), made + count),
{
    let more = as_existentials(fresh_names(made, count));
    lemma_appended(ctx, Seq::<Elem>::empty());
    assert forall|k: int| 0 <= k < more.len() implies elem_ok(ctx + more.take(k), #[trigger] more[k]) by {
        let a = fresh_name((made + 1 + k) as nat);
        let prefix = ctx + more.take(k);
        lemma_appended(ctx, more.take(k));
        if declared(prefix, a) {
            if declared(ctx, a) {
                let i = choose|i: int| 0 <= i < ctx.len() && declares(#[trigger] ctx[i], a);
                assert(declared_name(ctx[i]) == Some(a));
                assert(names(ctx, a));
            } else {
                let j = choose|j: int| 0 <= j < more.take(k).len() && declares(#[trigger] more.take(k)[j], a);
                assert(more.take(k)[j] == more[j]);
                lemma_fresh_name_injective((made + 1 + k) as nat, (made + 1 + j) as nat);
            }
        }
    }
    assert forall|k: int, n: Seq<char>|
        0 <= k < more.len() && declared_name(#[trigger] more[k]) == Some(n) implies #[trigger] generated(
        n,
    ) && !made_after(n, made + count) by {
        assert(n == fresh_name((made + 1 + k) as nat));
        lemma_fresh_made_after((made + 1 + k) as nat, made + count);
    }
    lemma_steady_appended(ctx, more, made, made + count);
}

/// An annotation may follow a steady context, where it is for a name that
/// the context does not annotate and that is not still to be made, and
/// of a type that is well formed and binds no generated name.
pub proof fn lemma_steady_anno(ctx: Seq<Elem>, made: nat, x: Seq<char>, ty: Ty)
    requires
        steady(ctx, made),
        !annotated_in(ctx, x),
        !made_after(x, made),
        type_wf(ctx, ty),
        plain_binders(ty),
    ensures
        steady(ctx.push(Elem::Anno(x, ty)), made),
        !ctx.contains(Elem::Anno(x, ty)),
{
    let more = seq![Elem::Anno(x, ty)];
    assert(ctx.push(Elem::Anno(x, ty)) =~= ctx + more);
    assert(more.take(0) =~= Seq::<Elem>::empty());
    assert(ctx + more.take(0) =~= ctx);
    lemma_steady_appended(ctx, more, made, made);
    if ctx.contains(Elem::Anno(x, ty)) {
        let i = choose|i: int| 0 <= i < ctx.len() && ctx[i] == Elem::Anno(x, ty);
        assert(annotates(ctx[i], x));
    }
}

/// A newly made unsolved existential may follow a steady context.
pub proof fn lemma_steady_fresh(ctx: Seq<Elem>, made: nat, k: nat)
    requires
        steady(ctx, made),
        k > made,
    ensures
        steady(ctx.push(Elem::ExVar(fresh_name(k))), k),
        extends(ctx, ctx.push(Elem::ExVar(fresh_name(k)))),
        ctx.push(Elem::ExVar(fresh_name(k))).contains(Elem::ExVar(fresh_name(k))),
        forall|y: Seq<char>| annotated_in(ctx.push(Elem::ExVar(fresh_name(k))), y) ==> annotated_in(ctx, y),
        forall|e: Elem| ctx.contains(e) ==> ctx.push(Elem::ExVar(fresh_name(k))).contains(e),
        forall|e: Elem|
            ctx.push(Elem::ExVar(fresh_name(k))).contains(e) ==> ctx.contains(e) || e == Elem::ExVar(
                fresh_name(k),
            ),
{
    let a = fresh_name(k);
    let more = seq![Elem::ExVar(a)];
    let out = ctx.push(Elem::ExVar(a));
    assert(out =~= ctx + more);
    assert(more.take(0) =~= Seq::<Elem>::empty());
    assert(ctx + more.take(0) =~= ctx);
    assert(!names(ctx, a));
    if declared(ctx, a) {
        crate::progress::lemma_declared_names(ctx, a);
    }
    lemma_fresh_made_after(k, k);
    assert(generated(a));
    lemma_steady_appended(ctx, more, made, k);
    lemma_extends_refl(ctx);
    lemma_extends_added(ctx, ctx, more);
    assert(out[ctx.len() as int] == Elem::ExVar(a));
    assert forall|y: Seq<char>| annotated_in(out, y) implies annotated_in(ctx, y) by {
        let i = choose|i: int| 0 <= i < out.len() && annotates(#[trigger] out[i], y);
        assert(annotates(ctx[i], y));
    }
    assert forall|e: Elem| ctx.contains(e) implies out.contains(e) by {
        let i = choose|i: int| 0 <= i < ctx.len() && ctx[i] == e;
        assert(out[i] == e);
    }
    assert forall|e: Elem| out.contains(e) implies ctx.contains(e) || e == Elem::ExVar(a) by {
        let i = choose|i: int| 0 <= i < out.len() && out[i] == e;
        if i < ctx.len() {
            assert(ctx[i] == e);
        }
    }
}

/// The existentials and the annotation of a lambda whose type is inferred
/// may follow a steady context.
pub proof fn lemma_steady_lambda(ctx: Seq<Elem>, made: nat)
    requires
        steady(ctx, made),
    ensures
        ({
            let x = fresh_name(made + 1);
            let a = fresh_name(made + 2);
            let b = fresh_name(made + 3);
            let marker = Elem::Anno(x, Ty::Existential(a));
            let first = ctx.push(Elem::ExVar(a)).push(Elem::ExVar(b));
            let pushed = seq![Elem::ExVar(a), Elem::ExVar(b), marker];
            &&& steady(ctx + pushed, made + 3)
            &&& ctx + pushed =~= first + seq![marker]
            &&& extends(ctx, first)
            &&& !first.contains(marker)
            &&& (ctx + pushed).contains(Elem::ExVar(b))
            &&& forall|y: Seq<char>| annotated_in(ctx + pushed, y) ==> annotated_in(ctx, y) || y == x
            &&& generated(x)
            &&& first.contains(Elem::ExVar(a))
            &&& first.contains(Elem::ExVar(b))
        }),
{
    let x = fresh_name(made + 1);
    let a = fresh_name(made + 2);
    let b = fresh_name(made + 3);
    let ty = Ty::Existential(a);
    let marker = Elem::Anno(x, ty);
    let one = ctx.push(Elem::ExVar(a));
    let first = one.push(Elem::ExVar(b));
    let pushed = seq![Elem::ExVar(a), Elem::ExVar(b), marker];
    lemma_steady_fresh(ctx, made, made + 2);
    lemma_steady_fresh(one, made + 2, made + 3);
    lemma_extends_trans(ctx, one, first);
    lemma_fresh_made_after(made + 1, made);
    lemma_fresh_made_after(made + 1, made + 3);
    assert(!annotated_in(first, x)) by {
        if annotated_in(first, x) {
            assert(annotated_in(one, x));
            assert(annotated_in(ctx, x));
            let i = choose|i: int| 0 <= i < ctx.len() && annotates(#[trigger] ctx[i], x);
            assert(ctx[i] is Anno);
            assert(!made_after(ctx[i]->Anno_0, made));
        }
    }
    assert(first.contains(Elem::ExVar(a)));
    assert(type_wf(first, ty));
    assert(plain_binders(ty));
    lemma_steady_anno(first, made + 3, x, ty);
    assert(first.push(marker) =~= ctx + pushed);
    assert(first.push(marker) =~= first + seq![marker]);
    let out = ctx + pushed;
    assert(out[(ctx.len() + 1) as int] == Elem::ExVar(b));
    assert forall|y: Seq<char>| annotated_in(out, y) implies annotated_in(ctx, y) || y == x by {
        let i = choose|i: int| 0 <= i < out.len() && annotates(#[trigger] out[i], y);
        if i < ctx.len() {
            assert(annotates(ctx[i], y));
        } else {
            assert(out[i] == pushed[i - ctx.len()]);
        }
    }
}

/// In a well-formed context, what applying the context to a well-formed
/// type gives is well formed, holds unsolved existentials alone, and
/// binds no name that the type does not.
pub proof fn lemma_applied_fits(ctx: Seq<Elem>, ty: Ty, made: nat)
    requires
        steady(ctx, made),
        type_wf(ctx, ty),
        plain_binders(ty),
    ensures
        type_wf(ctx, applied(ctx, ty)),
        plain_binders(applied(ctx, ty)),
        fits(ctx, applied(ctx, ty), made),
{
    let got = applied(ctx, ty);
    lemma_applied_wf(ctx, ty);
    lemma_applied_binders(ctx, ty);
    assert forall|v: Seq<char>| #[trigger] got.binders().contains(v) implies !generated(v) by {
        assert(ty.binders().contains(v));
    }
    assert forall|n: Seq<char>| #[trigger] got.existentials().contains(n) implies ctx.contains(
        Elem::ExVar(n),
    ) by {
        crate::context::lemma_type_wf_declared(ctx, got, n);
        lemma_applied_unsolved(ctx, ty, n);
        lemma_declared_unsolved(ctx, n);
    }
    lemma_steady_hygienic(ctx, got, made);
}

/// Renaming a variable of a tidy expression leaves it tidy, with the
/// lambdas binding what they bound.
pub proof fn lemma_tidy_subst(e: Term, var: Seq<char>, name: Seq<char>)
    requires
        tidy(e),
    ensures
        tidy(e.subst(var, Term::Var(name))),
        e.subst(var, Term::Var(name)).binders() == e.binders(),
    decreases e,
{
    match e {
        Term::Lambda { binder, body } => {
            if binder != var {
                lemma_tidy_subst(*body, var, name);
            }
        },
        Term::App { func, arg } => {
            lemma_tidy_subst(*func, var, name);
            lemma_tidy_subst(*arg, var, name);
        },
        Term::Ann { expr, ty } => {
            lemma_tidy_subst(*expr, var, name);
        },
        _ => {},
    }
}

/// The type of a term variable is the type of one of the annotations of
/// the context.
pub proof fn lemma_annotation_found(ctx: Seq<Elem>, x: Seq<char>)
    requires
        annotation(ctx, x) is Some,
    ensures
        exists|i: int| 0 <= i < ctx.len() && #[trigger] ctx[i] == Elem::Anno(x, annotation(ctx, x)->Some_0),
{
    let i = choose|i: int| first_annotation_at(ctx, x, i);
    assert(ctx[i] == Elem::Anno(x, carried(ctx[i])));
}

/// The lambdas of a tidy expression bind no generated name.
pub proof fn lemma_tidy_plain(e: Term)
    requires
        tidy(e),
    ensures
        forall|x: Seq<char>| #[trigger] e.binders().contains(x) ==> !generated(x),
    decreases e,
{
    match e {
        Term::Lambda { binder, body } => {
            lemma_tidy_plain(*body);
            assert forall|x: Seq<char>| #[trigger] e.binders().contains(x) implies !generated(x) by {
                if x != binder {
                    assert(body.binders().contains(x));
                }
            }
        },
        Term::App { func, arg } => {
            lemma_tidy_plain(*func);
            lemma_tidy_plain(*arg);
            assert forall|x: Seq<char>| #[trigger] e.binders().contains(x) implies !generated(x) by {
                if func.binders().contains(x) {
                } else {
                    assert(arg.binders().contains(x));
                }
            }
        },
        Term::Ann { expr, ty } => {
            lemma_tidy_plain(*expr);
            assert forall|x: Seq<char>| #[trigger] e.binders().contains(x) implies !generated(x) by {
                assert(expr.binders().contains(x));
            }
        },
        _ => {},
    }
}

/// A declared existential is a well-formed type.
pub proof fn lemma_declared_wf(ctx: Seq<Elem>, name: Seq<char>)
    requires
        declared(ctx, name),
    ensures
        type_wf(ctx, Ty::Existential(name)),
{
    let i = choose|i: int| 0 <= i < ctx.len() && declares(#[trigger] ctx[i], name);
    if ctx[i] is ExVar {
        assert(ctx[i] == Elem::ExVar(name));
    } else {
        assert(crate::context::solves(ctx[i], name));
    }
}

/// The parts of a type that binds no generated name bind none.
pub proof fn lemma_plain_parts(ty: Ty)
    requires
        plain_binders(ty),
    ensures
        ty matches Ty::Fun { arg, result } ==> plain_binders(*arg) && plain_binders(*result),
        ty matches Ty::Poly { vars, body } ==> plain_binders(*body),
{
    match ty {
        Ty::Fun { arg, result } => {
            assert forall|v: Seq<char>| #[trigger] arg.binders().contains(v) implies !generated(v) by {
                assert(ty.binders().contains(v));
            }
            assert forall|v: Seq<char>| #[trigger] result.binders().contains(v) implies !generated(v) by {
                assert(ty.binders().contains(v));
            }
        },
        Ty::Poly { vars, body } => {
            assert forall|v: Seq<char>| #[trigger] body.binders().contains(v) implies !generated(v) by {
                assert(ty.binders().contains(v));
            }
        },
        _ => {},
    }
}

/// Leaving the scope of an annotation that was new to the context in which
/// it was pushed leaves a steady extension of that context.
pub proof fn lemma_anno_scope(ctx: Seq<Elem>, marker: Elem, delta: Seq<Elem>, made: nat, later: nat)
    requires
        marker is Anno,
        !ctx.contains(marker),
        extends(ctx.push(marker), delta),
        steady(delta, later),
    ensures
        dropped(delta, marker) is Ok,
        steady(dropped(delta, marker)->Ok_0, later),
        extends(ctx, dropped(delta, marker)->Ok_0),
{
    let pushed = seq![marker];
    assert(ctx.push(marker) =~= ctx + pushed);
    lemma_extends_cut(ctx, pushed, delta);
    lemma_position_exists(delta, marker);
    lemma_steady_take(delta, position(delta, marker), later);
}

/// The step of checking a lambda against an arrow: the annotation of the
/// binder may follow the context, and the body and the result of the arrow
/// are fit to be checked in what then stands.
pub proof fn lemma_check_lambda_step(ctx: Seq<Elem>, made: nat, e: Term, ty: Ty)
    requires
        steady(ctx, made),
        tidy(e),
        unbound(ctx, e),
        type_wf(ctx, ty),
        plain_binders(ty),
        open_in(ctx, ty),
        e is Lambda,
        ty is Fun,
    ensures
        ({
            let marker = Elem::Anno(e->binder, *ty->arg);
            let inner_ctx = ctx.push(marker);
            &&& !ctx.contains(marker)
            &&& steady(inner_ctx, made)
            &&& tidy(*e->body)
            &&& unbound(inner_ctx, *e->body)
            &&& type_wf(inner_ctx, *ty->result)
            &&& plain_binders(*ty->result)
            &&& open_in(inner_ctx, *ty->result)
        }),
{
    let x = e->binder;
    let body = *e->body;
    let arg = *ty->arg;
    let result = *ty->result;
    let marker = Elem::Anno(x, arg);
    let inner_ctx = ctx.push(marker);
    lemma_plain_parts(ty);
    assert(e.binders().contains(x));
    if made_after(x, made) {
        lemma_made_after_generated(x, made);
    }
    lemma_steady_anno(ctx, made, x, arg);
    assert(inner_ctx =~= ctx + seq![marker]);
    lemma_covers_more(ctx, seq![marker]);
    lemma_type_wf_covers(ctx, inner_ctx, result);
    lemma_appended(ctx, seq![marker]);
    assert forall|y: Seq<char>| #[trigger] body.binders().contains(y) implies !annotated_in(inner_ctx, y) by {
        assert(e.binders().contains(y));
        if annotated_in(inner_ctx, y) {
            let j = choose|j: int| 0 <= j < seq![marker].len() && annotates(#[trigger] seq![marker][j], y);
        }
    }
    assert forall|n: Seq<char>| #[trigger] result.existentials().contains(n) implies inner_ctx.contains(
        Elem::ExVar(n),
    ) by {
        assert(ty.existentials().contains(n));
    }
}

/// The step of checking against a quantifier: the fresh rigid variables
/// may follow the context, and the expression and the renamed body are fit
/// to be checked in what then stands.
pub proof fn lemma_check_poly_step(ctx: Seq<Elem>, made: nat, e: Term, ty: Ty)
    requires
        steady(ctx, made),
        unbound(ctx, e),
        type_wf(ctx, ty),
        plain_binders(ty),
        open_in(ctx, ty),
        ty is Poly,
    ensures
        ({
            let count = ty->vars.len();
            let fresh = fresh_names(made, count);
            let pushed = as_universals(fresh);
            let renamed_body = renamed(*ty->body, ty->vars, fresh, false);
            &&& steady(ctx + pushed, made + count)
            &&& unbound(ctx + pushed, e)
            &&& type_wf(ctx + pushed, renamed_body)
            &&& plain_binders(renamed_body)
            &&& open_in(ctx + pushed, renamed_body)
            &&& renamed_body.quantifiers() + 1 == ty.quantifiers()
            &&& count > 0 ==> !is_existential(pushed[0]) && !ctx.contains(pushed[0])
        }),
{
    let count = ty->vars.len();
    let fresh = fresh_names(made, count);
    let pushed = as_universals(fresh);
    let body = *ty->body;
    let renamed_body = renamed(body, ty->vars, fresh, false);
    let inner_ctx = ctx + pushed;
    lemma_plain_parts(ty);
    lemma_steady_hygienic(ctx, ty, made);
    lemma_steady_universals(ctx, made, count);
    lemma_renamed_wf(ctx, ty->vars, body, made, false);
    lemma_renamed_binders(body, ty->vars, fresh, false);
    crate::rules::lemma_renamed_size(body, ty->vars, fresh, false);
    assert forall|v: Seq<char>| #[trigger] renamed_body.binders().contains(v) implies !generated(v) by {
        assert(body.binders().contains(v));
    }
    lemma_fits_parts(ctx, ty, made);
    lemma_fits_renamed(ctx, ty->vars, body, made, false);
    lemma_appended(ctx, pushed);
    assert forall|y: Seq<char>| #[trigger] e.binders().contains(y) implies !annotated_in(inner_ctx, y) by {
        if annotated_in(inner_ctx, y) {
            let j = choose|j: int| 0 <= j < pushed.len() && annotates(#[trigger] pushed[j], y);
        }
    }
    crate::progress::lemma_names_markers_below(ctx, made);
    crate::extension::lemma_markers_below_universals(ctx, made, count);
}

/// The step from inference to subtyping: what is inferred and what is
/// asked for, once the context is applied to them, fit the context.
pub proof fn lemma_check_sub_step(ctx: Seq<Elem>, theta: Seq<Elem>, found: Ty, ty: Ty, next: nat)
    requires
        steady(theta, next),
        extends(ctx, theta),
        type_wf(theta, found),
        plain_binders(found),
        type_wf(ctx, ty),
        plain_binders(ty),
    ensures
        wf(theta),
        names_below(theta, next),
        fits(theta, applied(theta, found), next),
        fits(theta, applied(theta, ty), next),
{
    lemma_extends_covers(ctx, theta);
    lemma_type_wf_covers(ctx, theta, ty);
    lemma_applied_fits(theta, found, next);
    lemma_applied_fits(theta, ty, next);
}

/// The step of inferring the type of a lambda: the existentials and the
/// annotation may follow the context, and the body, its variable renamed,
/// is fit to be checked in what then stands.
pub proof fn lemma_infer_lambda_step(ctx: Seq<Elem>, made: nat, e: Term)
    requires
        steady(ctx, made),
        tidy(e),
        unbound(ctx, e),
        e is Lambda,
    ensures
        ({
            let x = fresh_name(made + 1);
            let a = fresh_name(made + 2);
            let b = fresh_name(made + 3);
            let pushed = seq![Elem::ExVar(a), Elem::ExVar(b), Elem::Anno(x, Ty::Existential(a))];
            let renamed_body = e->body.subst(e->binder, Term::Var(x));
            &&& steady(ctx + pushed, made + 3)
            &&& tidy(renamed_body)
            &&& unbound(ctx + pushed, renamed_body)
            &&& renamed_body.size() == e->body.size()
            &&& type_wf(ctx + pushed, Ty::Existential(b))
            &&& plain_binders(Ty::Existential(b))
            &&& open_in(ctx + pushed, Ty::Existential(b))
        }),
{
    let binder = e->binder;
    let body = *e->body;
    let x = fresh_name(made + 1);
    let a = fresh_name(made + 2);
    let b = fresh_name(made + 3);
    let pushed = seq![Elem::ExVar(a), Elem::ExVar(b), Elem::Anno(x, Ty::Existential(a))];
    let inner_ctx = ctx + pushed;
    let renamed_body = body.subst(binder, Term::Var(x));
    let wanted = Ty::Existential(b);
    lemma_steady_lambda(ctx, made);
    lemma_tidy_subst(body, binder, x);
    lemma_tidy_plain(body);
    crate::expr::lemma_subst_var_size(body, binder, x);
    assert forall|y: Seq<char>| #[trigger] renamed_body.binders().contains(y) implies !annotated_in(
        inner_ctx,
        y,
    ) by {
        assert(body.binders().contains(y));
        assert(e.binders().contains(y));
    }
    assert(type_wf(inner_ctx, wanted));
    assert(plain_binders(wanted));
    assert(open_in(inner_ctx, wanted));
}

/// The step from the function of an application to its argument: the
/// type of the function, once the context is applied to it, and the
/// argument are fit for the rule of application.
pub proof fn lemma_infer_app_step(ctx: Seq<Elem>, theta: Seq<Elem>, found: Ty, e: Term, next: nat)
    requires
        steady(theta, next),
        extends(ctx, theta),
        type_wf(theta, found),
        plain_binders(found),
        tidy(e),
        unbound(ctx, e),
        e is App,
    ensures
        tidy(*e->arg),
        unbound(theta, *e->arg),
        type_wf(theta, applied(theta, found)),
        plain_binders(applied(theta, found)),
        open_in(theta, applied(theta, found)),
{
    let arg = *e->arg;
    lemma_applied_fits(theta, found, next);
    lemma_extends_annos(ctx, theta);
    assert forall|y: Seq<char>| #[trigger] arg.binders().contains(y) implies !annotated_in(theta, y) by {
        assert(e.binders().contains(y));
    }
}

/// The step of applying a quantified type: the fresh existentials may
/// follow the context, and the renamed body is fit for the rule of
/// application in what then stands.
pub proof fn lemma_apply_poly_step(ctx: Seq<Elem>, made: nat, ty: Ty, e: Term)
    requires
        steady(ctx, made),
        unbound(ctx, e),
        type_wf(ctx, ty),
        plain_binders(ty),
        open_in(ctx, ty),
        ty is Poly,
    ensures
        ({
            let count = ty->vars.len();
            let fresh = fresh_names(made, count);
            let pushed = as_existentials(fresh);
            let renamed_body = renamed(*ty->body, ty->vars, fresh, true);
            &&& steady(ctx + pushed, made + count)
            &&& extends(ctx, ctx + pushed)
            &&& unbound(ctx + pushed, e)
            &&& type_wf(ctx + pushed, renamed_body)
            &&& plain_binders(renamed_body)
            &&& open_in(ctx + pushed, renamed_body)
            &&& renamed_body.quantifiers() + 1 == ty.quantifiers()
        }),
{
    let vars = ty->vars;
    let body = *ty->body;
    let count = vars.len();
    let fresh = fresh_names(made, count);
    let pushed = as_existentials(fresh);
    let inner_ctx = ctx + pushed;
    let renamed_body = renamed(body, vars, fresh, true);
    lemma_plain_parts(ty);
    lemma_steady_existentials(ctx, made, count);
    lemma_renamed_wf(ctx, vars, body, made, true);
    lemma_renamed_binders(body, vars, fresh, true);
    crate::rules::lemma_renamed_size(body, vars, fresh, true);
    assert forall|v: Seq<char>| #[trigger] renamed_body.binders().contains(v) implies !generated(v) by {
        assert(body.binders().contains(v));
    }
    lemma_appended(ctx, pushed);
    assert forall|n: Seq<char>| #[trigger] renamed_body.existentials().contains(n) implies inner_ctx.contains(
        Elem::ExVar(n),
    ) by {
        lemma_renamed_existentials(body, vars, fresh, true, n);
        if body.existentials().contains(n) {
            assert(ty.existentials().contains(n));
        } else {
            let j = choose|j: int| 0 <= j < fresh.len() && fresh[j] == n;
            assert(pushed[j] == Elem::ExVar(n));
        }
    }
    assert forall|y: Seq<char>| #[trigger] e.binders().contains(y) implies !annotated_in(inner_ctx, y) by {
        if annotated_in(inner_ctx, y) {
            let j = choose|j: int| 0 <= j < pushed.len() && annotates(#[trigger] pushed[j], y);
        }
    }
    lemma_extends_refl(ctx);
    lemma_extends_added(ctx, ctx, pushed);
}

/// The step of applying an existential: once it is committed to the shape
/// of a function, the argument is fit to be checked against the first of
/// the two existentials that come in.
pub proof fn lemma_apply_existential_step(ctx: Seq<Elem>, made: nat, a: Seq<char>, e: Term)
    requires
        steady(ctx, made),
        unbound(ctx, e),
        ctx.contains(Elem::ExVar(a)),
    ensures
        ({
            let a1 = fresh_name(made + 1);
            let a2 = fresh_name(made + 2);
            let start = articulated(ctx, a, a1, a2);
            &&& steady(start, made + 2)
            &&& extends(ctx, start)
            &&& unbound(start, e)
            &&& start.contains(Elem::ExVar(a2))
            &&& type_wf(start, Ty::Existential(a1))
            &&& plain_binders(Ty::Existential(a1))
            &&& open_in(start, Ty::Existential(a1))
        }),
{
    let a1 = fresh_name(made + 1);
    let a2 = fresh_name(made + 2);
    let start = articulated(ctx, a, a1, a2);
    let wanted = Ty::Existential(a1);
    lemma_wf_articulated(ctx, a, made, a1, a2);
    lemma_fresh_made_after(made + 1, made);
    lemma_fresh_made_after(made + 2, made);
    lemma_grown_articulated(ctx, a, a1, a2, Set::empty().insert(a), made);
    let elems = seq![Elem::ExVar(a2), Elem::ExVar(a1), Elem::ExVarSolved(a, arrow(a1, a2))];
    assert(elems.last() == Elem::ExVarSolved(a, arrow(a1, a2)));
    crate::extension::lemma_extends_inserted(ctx, a, elems);
    lemma_steady_extended(ctx, start, made, made + 2);
    lemma_extends_annos(ctx, start);
    assert(type_wf(start, wanted));
    assert(plain_binders(wanted));
    assert(open_in(start, wanted));
}

/// Checking finds what it relies on: for a tidy expression, in a steady
/// context that annotates none of the variables that the expression
/// binds, and against a type that is well formed, binds no generated name
/// and holds none but unsolved existentials, checking never reports a
/// context that lacks an element; and what it gives back is a steady
/// extension of the context.
pub proof fn lemma_check_defined(depth: nat, made: nat, ctx: Seq<Elem>, e: Term, ty: Ty)
    requires
        steady(ctx, made),
        tidy(e),
        unbound(ctx, e),
        type_wf(ctx, ty),
        plain_binders(ty),
        open_in(ctx, ty),
    ensures
        ({
            let (next, r) = check_rule(depth, made, ctx, e, ty);
            &&& made <= next
            &&& !(r matches Err(Failure::MalformedContext))
            &&& r matches Ok(out) ==> steady(out, next) && extends(ctx, out)
        }),
    decreases depth,
{
    lemma_check_counts_up(depth, made, ctx, e, ty);
    lemma_plain_parts(ty);
    lemma_steady_hygienic(ctx, ty, made);
    if depth == 0 {
    } else if literal_of(e, ty) {
        lemma_extends_refl(ctx);
    } else if e is Lambda && ty is Fun {
        let d = (depth - 1) as nat;
        let marker = Elem::Anno(e->binder, *ty->arg);
        let inner_ctx = ctx.push(marker);
        lemma_check_lambda_step(ctx, made, e, ty);
        lemma_check_defined(d, made, inner_ctx, *e->body, *ty->result);
        let (next, inner) = check_rule(d, made, inner_ctx, *e->body, *ty->result);
        if let Ok(delta) = inner {
            lemma_anno_scope(ctx, marker, delta, made, next);
        }
    } else if ty is Poly {
        let count = ty->vars.len();
        let d = (depth - 1) as nat;
        let fresh = fresh_names(made, count);
        let pushed = as_universals(fresh);
        let renamed_body = renamed(*ty->body, ty->vars, fresh, false);
        let inner_ctx = ctx + pushed;
        lemma_check_poly_step(ctx, made, e, ty);
        lemma_check_defined(d, made + count, inner_ctx, e, renamed_body);
        let (next, inner) = check_rule(d, made + count, inner_ctx, e, renamed_body);
        if let Ok(delta) = inner {
            if count > 0 {
                lemma_extends_cut(ctx, pushed, delta);
                lemma_position_exists(delta, pushed[0]);
                lemma_steady_take(delta, position(delta, pushed[0]), next);
            } else {
                assert(inner_ctx =~= ctx);
            }
        }
    } else {
        let d = (depth - 1) as nat;
        lemma_infer_defined(d, made, ctx, e);
        let (next, inferred) = infer_rule(d, made, ctx, e);
        if let Ok((theta, found)) = inferred {
            let left = applied(theta, found);
            let right = applied(theta, ty);
            lemma_check_sub_step(ctx, theta, found, ty, next);
            lemma_subtype_defined(d, next, theta, left, right);
            let (last, r) = subtype_rule(d, next, theta, left, right);
            if let Ok(out) = r {
                lemma_steady_extended(theta, out, next, last);
                lemma_extends_trans(ctx, theta, out);
            }
        }
    }
}

/// Inference finds what it relies on: for a tidy expression, in a steady
/// context that annotates none of the variables that the expression
/// binds, inference never reports a context that lacks an element; what
/// it gives back is a steady extension of the context, and a type that is
/// well formed in it and binds no generated name.
pub proof fn lemma_infer_defined(depth: nat, made: nat, ctx: Seq<Elem>, e: Term)
    requires
        steady(ctx, made),
        tidy(e),
        unbound(ctx, e),
    ensures
        ({
            let (next, r) = infer_rule(depth, made, ctx, e);
            &&& made <= next
            &&& !(r matches Err(Failure::MalformedContext))
            &&& r matches Ok((out, found)) ==> steady(out, next) && extends(ctx, out) && type_wf(out, found)
                && plain_binders(found)
        }),
    decreases depth,
{
    lemma_infer_counts_up(depth, made, ctx, e);
    if depth > 0 {
        let d = (depth - 1) as nat;
        match e {
            Term::Var(x) => {
                lemma_extends_refl(ctx);
                if let Some(found) = annotation(ctx, x) {
                    lemma_annotation_found(ctx, x);
                    let i = choose|i: int| 0 <= i < ctx.len() && #[trigger] ctx[i] == Elem::Anno(x, found);
                    assert(ctx[i] is Anno);
                    lemma_wf_entry(ctx, i);
                    lemma_covers_take(ctx, i);
                    lemma_type_wf_covers(ctx.take(i), ctx, found);
                }
            },
            Term::Ann { expr, ty } => {
                if type_wf(ctx, ty) {
                    assert(open_in(ctx, ty));
                    assert forall|y: Seq<char>| #[trigger] expr.binders().contains(y) implies !annotated_in(
                        ctx,
                        y,
                    ) by {
                        assert(e.binders().contains(y));
                    }
                    lemma_check_defined(d, made, ctx, *expr, ty);
                    if let Ok(delta) = check_rule(d, made, ctx, *expr, ty).1 {
                        lemma_extends_covers(ctx, delta);
                        lemma_type_wf_covers(ctx, delta, ty);
                    }
                }
            },
            Term::Lambda { binder, body } => {
                let x = fresh_name(made + 1);
                let a = fresh_name(made + 2);
                let b = fresh_name(made + 3);
                let marker = Elem::Anno(x, Ty::Existential(a));
                let first = ctx.push(Elem::ExVar(a)).push(Elem::ExVar(b));
                let pushed = seq![Elem::ExVar(a), Elem::ExVar(b), marker];
                let inner_ctx = ctx + pushed;
                let renamed_body = body.subst(binder, Term::Var(x));
                let wanted = Ty::Existential(b);
                lemma_steady_lambda(ctx, made);
                lemma_infer_lambda_step(ctx, made, e);
                lemma_check_defined(d, made + 3, inner_ctx, renamed_body, wanted);
                let (next, checked) = check_rule(d, made + 3, inner_ctx, renamed_body, wanted);
                if let Ok(delta) = checked {
                    assert(first.push(marker) =~= first + seq![marker]);
                    lemma_anno_scope(first, marker, delta, made, next);
                    let out = dropped(delta, marker)->Ok_0;
                    lemma_extends_trans(ctx, first, out);
                    lemma_extends_keeps(first, out);
                    lemma_unsolved_declared(first, a);
                    lemma_unsolved_declared(first, b);
                    lemma_declared_wf(out, a);
                    lemma_declared_wf(out, b);
                    assert(type_wf(out, arrow(a, b))) by {
                        reveal_with_fuel(type_wf, 3);
                    }
                    assert(plain_binders(arrow(a, b))) by {
                        reveal_with_fuel(Ty::binders, 3);
                    }
                }
            },
            Term::App { func, arg } => {
                assert forall|y: Seq<char>| #[trigger] func.binders().contains(y) implies !annotated_in(
                    ctx,
                    y,
                ) by {
                    assert(e.binders().contains(y));
                }
                lemma_infer_defined(d, made, ctx, *func);
                let (next, inferred) = infer_rule(d, made, ctx, *func);
                if let Ok((theta, found)) = inferred {
                    let applied_type = applied(theta, found);
                    lemma_infer_app_step(ctx, theta, found, e, next);
                    lemma_infer_application_defined(d, next, theta, applied_type, *arg);
                    if let Ok((out, got)) = infer_application_rule(d, next, theta, applied_type, *arg).1 {
                        lemma_extends_trans(ctx, theta, out);
                    }
                }
            },
            _ => {
                lemma_extends_refl(ctx);
            },
        }
    }
}

/// Application finds what it relies on.
pub proof fn lemma_infer_application_defined(depth: nat, made: nat, ctx: Seq<Elem>, ty: Ty, e: Term)
    requires
        steady(ctx, made),
        tidy(e),
        unbound(ctx, e),
        type_wf(ctx, ty),
        plain_binders(ty),
        open_in(ctx, ty),
    ensures
        ({
            let (next, r) = infer_application_rule(depth, made, ctx, ty, e);
            &&& made <= next
            &&& !(r matches Err(Failure::MalformedContext))
            &&& r matches Ok((out, found)) ==> steady(out, next) && extends(ctx, out) && type_wf(out, found)
                && plain_binders(found)
        }),
    decreases depth,
{
    lemma_infer_application_counts_up(depth, made, ctx, ty, e);
    lemma_plain_parts(ty);
    if depth > 0 {
        let d = (depth - 1) as nat;
        match ty {
            Ty::Poly { vars, body } => {
                let count = vars.len();
                let fresh = fresh_names(made, count);
                let pushed = as_existentials(fresh);
                let inner_ctx = ctx + pushed;
                let renamed_body = renamed(*body, vars, fresh, true);
                lemma_apply_poly_step(ctx, made, ty, e);
                lemma_infer_application_defined(d, made + count, inner_ctx, renamed_body, e);
                if let Ok((out, got)) = infer_application_rule(d, made + count, inner_ctx, renamed_body, e).1 {
                    lemma_extends_trans(ctx, inner_ctx, out);
                }
            },
            Ty::Existential(a) => {
                assert(ty.existentials().contains(a));
                let a1 = fresh_name(made + 1);
                let a2 = fresh_name(made + 2);
                let start = articulated(ctx, a, a1, a2);
                let wanted = Ty::Existential(a1);
                lemma_apply_existential_step(ctx, made, a, e);
                lemma_check_defined(d, made + 2, start, e, wanted);
                if let Ok(delta) = check_rule(d, made + 2, start, e, wanted).1 {
                    lemma_extends_trans(ctx, start, delta);
                    lemma_extends_keeps(start, delta);
                    lemma_unsolved_declared(start, a2);
                    lemma_declared_wf(delta, a2);
                    assert(plain_binders(Ty::Existential(a2)));
                }
            },
            Ty::Fun { arg, result } => {
                assert forall|n: Seq<char>| #[trigger] arg.existentials().contains(n) implies ctx.contains(
                    Elem::ExVar(n),
                ) by {
                    assert(ty.existentials().contains(n));
                }
                lemma_check_defined(d, made, ctx, e, *arg);
                let (next, checked) = check_rule(d, made, ctx, e, *arg);
                if let Ok(delta) = checked {
                    lemma_extends_covers(ctx, delta);
                    lemma_type_wf_covers(ctx, delta, *result);
                    lemma_applied_fits(delta, *result, next);
                }
            },
            _ => {},
        }
    }
}

/// Synthesis finds what it relies on: for a tidy expression it never
/// reports a context that lacks an element.
pub proof fn lemma_synth_defined(depth: nat, made: nat, e: Term)
    requires
        tidy(e),
    ensures
        !(synth_rule(depth, made, e).1 matches Err(Failure::MalformedContext)),
{
    let ctx = Seq::<Elem>::empty();
    assert(steady(ctx, made));
    assert(unbound(ctx, e));
    lemma_infer_defined(depth, made, ctx, e);
}

} // verus!
