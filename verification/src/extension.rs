//! Monotonicity: subtyping and instantiation only add to a context. What
//! they give back holds the elements of what they were given, in their
//! order, with some unsolved existentials solved and some existentials
//! added; nothing else is added, and nothing is taken away.

use crate::context::{
    applied, as_universals, before, declared, declares, inserted_at, lemma_position,
    lemma_position_exists, markers, ordered, position, solved, universals, Elem,
};
use crate::names::{fresh_name, fresh_names, lemma_fresh_name_injective};
use crate::rules::{
    arrow, articulated, as_marked_existentials, dropped_to_first, instantiate_l_rule,
    instantiate_r_rule, renamed, same_atom, subtype_rule,
};
use crate::scoping::supports;
use crate::types::Ty;
use vstd::prelude::*;

verus! {

/// Whether an element declares an existential, solved or not.
pub open spec fn is_existential(e: Elem) -> bool {
    e is ExVar || e is ExVarSolved
}

/// Whether `to` extends `from`: it holds the elements of `from` in their
/// order, each as it is or, where it is an unsolved existential, solved;
/// whatever else it holds is an existential.
pub open spec fn extends(from: Seq<Elem>, to: Seq<Elem>) -> bool
    decreases to.len(),
{
    if to.len() == 0 {
        from.len() == 0
    } else {
        ||| (from.len() > 0 && supports(from.last(), to.last()) && extends(
            from.drop_last(),
            to.drop_last(),
        ))
        ||| (is_existential(to.last()) && extends(from, to.drop_last()))
    }
}

/// Whether no rigid variable and no marker of the context bears a name that
/// a generator hands out after its `names`-th.
pub open spec fn markers_below(ctx: Seq<Elem>, names: nat) -> bool {
    forall|i: int, k: nat|
        0 <= i < ctx.len() && k > names ==> #[trigger] ctx[i] != Elem::Universal(
            #[trigger] fresh_name(k),
        ) && ctx[i] != Elem::Marker(fresh_name(k))
}

/// A context extends itself.
pub proof fn lemma_extends_refl(ctx: Seq<Elem>)
    ensures
        extends(ctx, ctx),
    decreases ctx.len(),
{
    if ctx.len() > 0 {
        lemma_extends_refl(ctx.drop_last());
    }
}

/// Extension is transitive.
pub proof fn lemma_extends_trans(a: Seq<Elem>, b: Seq<Elem>, c: Seq<Elem>)
    requires
        extends(a, b),
        extends(b, c),
    ensures
        extends(a, c),
    decreases c.len(), b.len(),
{
    if c.len() > 0 {
        if b.len() > 0 && supports(b.last(), c.last()) && extends(b.drop_last(), c.drop_last()) {
            if a.len() > 0 && supports(a.last(), b.last()) && extends(a.drop_last(), b.drop_last()) {
                lemma_extends_trans(a.drop_last(), b.drop_last(), c.drop_last());
            } else {
                lemma_extends_trans(a, b.drop_last(), c.drop_last());
            }
        } else {
            lemma_extends_trans(a, b, c.drop_last());
        }
    }
}

/// Existentials may be added at the end.
pub proof fn lemma_extends_added(from: Seq<Elem>, to: Seq<Elem>, more: Seq<Elem>)
    requires
        extends(from, to),
        forall|k: int| 0 <= k < more.len() ==> is_existential(#[trigger] more[k]),
    ensures
        extends(from, to + more),
    decreases more.len(),
{
    if more.len() == 0 {
        assert(to + more =~= to);
    } else {
        let shorter = more.drop_last();
        assert forall|k: int| 0 <= k < shorter.len() implies is_existential(#[trigger] shorter[k]) by {
            assert(shorter[k] == more[k]);
        }
        lemma_extends_added(from, to, shorter);
        assert((to + more).drop_last() =~= to + shorter);
        assert((to + more).last() == more[more.len() - 1]);
    }
}

/// Extension goes on when the same elements follow on both sides.
pub proof fn lemma_extends_followed(from: Seq<Elem>, to: Seq<Elem>, more: Seq<Elem>)
    requires
        extends(from, to),
    ensures
        extends(from + more, to + more),
    decreases more.len(),
{
    if more.len() == 0 {
        assert(to + more =~= to);
        assert(from + more =~= from);
    } else {
        let shorter = more.drop_last();
        lemma_extends_followed(from, to, shorter);
        assert((to + more).drop_last() =~= to + shorter);
        assert((from + more).drop_last() =~= from + shorter);
        assert((to + more).last() == more.last());
        assert((from + more).last() == more.last());
    }
}

/// Putting existentials, the last of which declares `a`, in place of the
/// unsolved existential `a` extends the context.
pub proof fn lemma_extends_inserted(ctx: Seq<Elem>, a: Seq<char>, elems: Seq<Elem>)
    requires
        ctx.contains(Elem::ExVar(a)),
        elems.len() > 0,
        supports(Elem::ExVar(a), elems.last()),
        forall|k: int| 0 <= k < elems.len() ==> is_existential(#[trigger] elems[k]),
    ensures
        extends(ctx, inserted_at(ctx, a, elems)),
{
    let e = Elem::ExVar(a);
    lemma_position_exists(ctx, e);
    let p = position(ctx, e);
    let left = ctx.take(p);
    let right = ctx.skip(p + 1);
    lemma_extends_refl(left);
    let front = elems.drop_last();
    assert forall|k: int| 0 <= k < front.len() implies is_existential(#[trigger] front[k]) by {
        assert(front[k] == elems[k]);
    }
    lemma_extends_added(left, left, front);
    let from = left.push(e);
    let to = left + elems;
    assert(to.drop_last() =~= left + front);
    assert(to.last() == elems.last());
    assert(from.drop_last() =~= left);
    assert(extends(from, to));
    lemma_extends_followed(from, to, right);
    assert(from + right =~= ctx);
    assert(to + right =~= inserted_at(ctx, a, elems));
}

/// Every element of a context has, in an extension, an element that
/// brings into scope what it does.
pub proof fn lemma_extends_covers(from: Seq<Elem>, to: Seq<Elem>)
    requires
        extends(from, to),
    ensures
        crate::scoping::covers(from, to),
    decreases to.len(),
{
    if to.len() > 0 {
        if from.len() > 0 && supports(from.last(), to.last()) && extends(from.drop_last(), to.drop_last()) {
            let f = from.drop_last();
            let t = to.drop_last();
            lemma_extends_covers(f, t);
            assert forall|m: int| 0 <= m < from.len() implies crate::scoping::supported(
                #[trigger] from[m],
                to,
            ) by {
                if m < f.len() {
                    assert(f[m] == from[m]);
                    assert(crate::scoping::supported(f[m], t));
                    let n = choose|n: int| 0 <= n < t.len() && supports(f[m], #[trigger] t[n]);
                    assert(supports(from[m], to[n]));
                } else {
                    assert(supports(from[m], to[to.len() - 1]));
                }
            }
        } else {
            let t = to.drop_last();
            lemma_extends_covers(from, t);
            assert forall|m: int| 0 <= m < from.len() implies crate::scoping::supported(
                #[trigger] from[m],
                to,
            ) by {
                assert(crate::scoping::supported(from[m], t));
                let n = choose|n: int| 0 <= n < t.len() && supports(from[m], #[trigger] t[n]);
                assert(supports(from[m], to[n]));
            }
        }
    }
}

/// An element of an extension that is no existential is an element of what
/// is extended.
pub proof fn lemma_extends_origin(from: Seq<Elem>, to: Seq<Elem>, i: int)
    requires
        extends(from, to),
        0 <= i < to.len(),
        !is_existential(to[i]),
    ensures
        from.contains(to[i]),
    decreases to.len(),
{
    if from.len() > 0 && supports(from.last(), to.last()) && extends(from.drop_last(), to.drop_last()) {
        if i == to.len() - 1 {
            assert(from[from.len() - 1] == to[i]);
        } else {
            lemma_extends_origin(from.drop_last(), to.drop_last(), i);
            let k = choose|k: int| 0 <= k < from.drop_last().len() && from.drop_last()[k] == to[i];
            assert(from[k] == to[i]);
        }
    } else {
        lemma_extends_origin(from, to.drop_last(), i);
    }
}

/// Leaving a scope gives back an extension of the context in which the
/// scope was opened: where the extended context ends with pushed elements,
/// the first of which is no existential and new to the context, cutting the
/// extension off before that element leaves an extension of the context.
pub proof fn lemma_extends_cut(ctx: Seq<Elem>, pushed: Seq<Elem>, to: Seq<Elem>)
    requires
        extends(ctx + pushed, to),
        pushed.len() > 0,
        !is_existential(pushed[0]),
        !ctx.contains(pushed[0]),
    ensures
        to.contains(pushed[0]),
        extends(ctx, before(to, pushed[0])),
    decreases to.len(),
{
    let m = pushed[0];
    let from = ctx + pushed;
    assert(from.last() == pushed.last());
    if from.len() > 0 && supports(from.last(), to.last()) && extends(from.drop_last(), to.drop_last()) {
        let rest = to.drop_last();
        if pushed.len() == 1 {
            assert(from.drop_last() =~= ctx);
            assert(to.last() == m);
            // The marker occurs nowhere before the end.
            assert forall|j: int| 0 <= j < rest.len() implies to[j] != m by {
                if rest[j] == m {
                    lemma_extends_origin(ctx, rest, j);
                }
            }
            assert(crate::context::first_at(to, m, to.len() - 1));
            lemma_position(to, m, to.len() - 1);
            assert(before(to, m) =~= rest);
        } else {
            let shorter = pushed.drop_last();
            assert(from.drop_last() =~= ctx + shorter);
            assert(shorter[0] == m);
            lemma_extends_cut(ctx, shorter, rest);
            lemma_cut_stable(to, m);
        }
    } else {
        lemma_extends_cut(ctx, pushed, to.drop_last());
        lemma_cut_stable(to, m);
    }
}

/// What stands before the first occurrence of an element does not depend on
/// what follows that occurrence.
proof fn lemma_cut_stable(to: Seq<Elem>, m: Elem)
    requires
        to.len() > 0,
        to.drop_last().contains(m),
    ensures
        to.contains(m),
        before(to, m) == before(to.drop_last(), m),
{
    let rest = to.drop_last();
    lemma_position_exists(rest, m);
    let p = position(rest, m);
    assert(crate::context::first_at(to, m, p)) by {
        assert(to[p] == rest[p]);
        assert forall|j: int| 0 <= j < p implies to[j] != m by {
            assert(rest[j] != m);
        }
    }
    lemma_position(to, m, p);
    assert(to.take(p) =~= rest.take(p));
}

/// An extension has the rigid variables and the markers of what it extends,
/// and nothing that was declared or solved is lost.
pub proof fn lemma_extends_keeps(from: Seq<Elem>, to: Seq<Elem>)
    requires
        extends(from, to),
    ensures
        universals(to) == universals(from),
        markers(to) == markers(from),
        forall|a: Seq<char>| declared(from, a) ==> declared(to, a),
        forall|i: int| 0 <= i < from.len() && (#[trigger] from[i]) is ExVarSolved ==> to.contains(from[i]),
    decreases to.len(),
{
    if to.len() > 0 {
        if from.len() > 0 && supports(from.last(), to.last()) && extends(from.drop_last(), to.drop_last()) {
            let f = from.drop_last();
            let t = to.drop_last();
            lemma_extends_keeps(f, t);
            assert forall|a: Seq<char>| declared(from, a) implies declared(to, a) by {
                let i = choose|i: int| 0 <= i < from.len() && declares(#[trigger] from[i], a);
                if i < f.len() {
                    assert(declares(f[i], a));
                    assert(declared(f, a));
                    let j = choose|j: int| 0 <= j < t.len() && declares(#[trigger] t[j], a);
                    assert(declares(to[j], a));
                } else {
                    assert(declares(to[to.len() - 1], a));
                }
            }
            assert forall|i: int| 0 <= i < from.len() && (#[trigger] from[i]) is ExVarSolved implies to.contains(
                from[i],
            ) by {
                if i < f.len() {
                    assert(f[i] == from[i]);
                    let j = choose|j: int| 0 <= j < t.len() && t[j] == f[i];
                    assert(to[j] == from[i]);
                } else {
                    assert(to[to.len() - 1] == from[i]);
                }
            }
        } else {
            let t = to.drop_last();
            lemma_extends_keeps(from, t);
            assert forall|a: Seq<char>| declared(from, a) implies declared(to, a) by {
                let j = choose|j: int| 0 <= j < t.len() && declares(#[trigger] t[j], a);
                assert(declares(to[j], a));
            }
            assert forall|i: int| 0 <= i < from.len() && (#[trigger] from[i]) is ExVarSolved implies to.contains(
                from[i],
            ) by {
                let j = choose|j: int| 0 <= j < t.len() && t[j] == from[i];
                assert(to[j] == from[i]);
            }
        }
    }
}

/// An extension bears no marker name that what it extends does not bear.
pub proof fn lemma_extends_markers_below(from: Seq<Elem>, to: Seq<Elem>, names: nat, made: nat)
    requires
        extends(from, to),
        markers_below(from, names),
        names <= made,
    ensures
        markers_below(to, made),
{
    assert forall|i: int, k: nat| 0 <= i < to.len() && k > made implies #[trigger] to[i]
        != Elem::Universal(#[trigger] fresh_name(k)) && to[i] != Elem::Marker(fresh_name(k)) by {
        if to[i] == Elem::Universal(fresh_name(k)) || to[i] == Elem::Marker(fresh_name(k)) {
            lemma_extends_origin(from, to, i);
            let j = choose|j: int| 0 <= j < from.len() && from[j] == to[i];
            assert(from[j] != Elem::Universal(fresh_name(k)) && from[j] != Elem::Marker(fresh_name(k)));
        }
    }
}

/// Fresh rigid variables may be pushed.
pub proof fn lemma_markers_below_universals(ctx: Seq<Elem>, names: nat, count: nat)
    requires
        markers_below(ctx, names),
    ensures
        markers_below(ctx + as_universals(fresh_names(names, count)), names + count),
        count > 0 ==> !ctx.contains(as_universals(fresh_names(names, count))[0]),
{
    let pushed = as_universals(fresh_names(names, count));
    let out = ctx + pushed;
    assert forall|i: int, k: nat| 0 <= i < out.len() && k > names + count implies #[trigger] out[i]
        != Elem::Universal(#[trigger] fresh_name(k)) && out[i] != Elem::Marker(fresh_name(k)) by {
        if i < ctx.len() {
            assert(out[i] == ctx[i]);
        } else {
            let j = i - ctx.len();
            assert(out[i] == Elem::Universal(fresh_name((names + 1 + j) as nat)));
            if fresh_name(k) == fresh_name((names + 1 + j) as nat) {
                lemma_fresh_name_injective(k, (names + 1 + j) as nat);
            }
        }
    }
    if count > 0 {
        let m = pushed[0];
        assert(m == Elem::Universal(fresh_name(names + 1)));
        if ctx.contains(m) {
            let i = choose|i: int| 0 <= i < ctx.len() && ctx[i] == m;
            assert(ctx[i] != Elem::Universal(fresh_name(names + 1)));
        }
    }
}

/// Fresh marked existentials may be pushed.
pub proof fn lemma_markers_below_marked(ctx: Seq<Elem>, names: nat, count: nat)
    requires
        markers_below(ctx, names),
    ensures
        markers_below(ctx + as_marked_existentials(fresh_names(names, count)), names + count),
        count > 0 ==> !ctx.contains(as_marked_existentials(fresh_names(names, count))[0]),
{
    let pushed = as_marked_existentials(fresh_names(names, count));
    let out = ctx + pushed;
    assert forall|i: int, k: nat| 0 <= i < out.len() && k > names + count implies #[trigger] out[i]
        != Elem::Universal(#[trigger] fresh_name(k)) && out[i] != Elem::Marker(fresh_name(k)) by {
        if i < ctx.len() {
            assert(out[i] == ctx[i]);
        } else {
            let j = i - ctx.len();
            let n = (names + 1 + j / 2) as nat;
            if j % 2 == 0 {
                assert(out[i] == Elem::Marker(fresh_name(n)));
                if fresh_name(k) == fresh_name(n) {
                    lemma_fresh_name_injective(k, n);
                }
            } else {
                assert(out[i] == Elem::ExVar(fresh_name(n)));
            }
        }
    }
    if count > 0 {
        let m = pushed[0];
        assert(m == Elem::Marker(fresh_name(names + 1)));
        if ctx.contains(m) {
            let i = choose|i: int| 0 <= i < ctx.len() && ctx[i] == m;
            assert(ctx[i] != Elem::Marker(fresh_name(names + 1)));
        }
    }
}

/// Leaving the scope of fresh pushed elements gives back an extension of
/// the context in which the scope was opened, and never fails.
proof fn lemma_extends_scope(ctx: Seq<Elem>, pushed: Seq<Elem>, to: Seq<Elem>)
    requires
        extends(ctx + pushed, to),
        pushed.len() > 0 ==> !is_existential(pushed[0]) && !ctx.contains(pushed[0]),
    ensures
        dropped_to_first(to, pushed) is Ok,
        extends(ctx, dropped_to_first(to, pushed)->Ok_0),
{
    if pushed.len() > 0 {
        lemma_extends_cut(ctx, pushed, to);
    } else {
        assert(ctx + pushed =~= ctx);
    }
}

/// Solving an existential extends the context.
proof fn lemma_extends_solved(ctx: Seq<Elem>, a: Seq<char>, ty: Ty)
    requires
        ctx.contains(Elem::ExVar(a)),
    ensures
        solved(ctx, a, ty) matches Some(out) ==> extends(ctx, out),
{
    let elems = seq![Elem::ExVarSolved(a, ty)];
    assert(elems.last() == Elem::ExVarSolved(a, ty));
    lemma_extends_inserted(ctx, a, elems);
}

/// Committing an existential to the shape of a function extends the
/// context.
proof fn lemma_extends_articulated(ctx: Seq<Elem>, a: Seq<char>, a1: Seq<char>, a2: Seq<char>)
    requires
        ctx.contains(Elem::ExVar(a)),
    ensures
        extends(ctx, articulated(ctx, a, a1, a2)),
{
    let elems = seq![Elem::ExVar(a2), Elem::ExVar(a1), Elem::ExVarSolved(a, arrow(a1, a2))];
    assert(elems.last() == Elem::ExVarSolved(a, arrow(a1, a2)));
    lemma_extends_inserted(ctx, a, elems);
}

/// Subtyping extends the context, and makes names in order: where the
/// context bears no marker name that is still to be made, what subtyping
/// gives back extends it.
pub proof fn lemma_subtype_extends(depth: nat, names: nat, ctx: Seq<Elem>, a: Ty, b: Ty)
    requires
        markers_below(ctx, names),
    ensures
        names <= subtype_rule(depth, names, ctx, a, b).0,
        subtype_rule(depth, names, ctx, a, b).1 matches Ok(out) ==> extends(ctx, out),
    decreases depth,
{
    if depth == 0 {
    } else if same_atom(a, b) {
        lemma_extends_refl(ctx);
    } else if a is Fun && b is Fun {
        let d = (depth - 1) as nat;
        lemma_subtype_extends(d, names, ctx, *b->arg, *a->arg);
        let (made, first) = subtype_rule(d, names, ctx, *b->arg, *a->arg);
        if let Ok(theta) = first {
            lemma_extends_markers_below(ctx, theta, names, made);
            let left = applied(theta, *a->result);
            let right = applied(theta, *b->result);
            lemma_subtype_extends(d, made, theta, left, right);
            if let Ok(out) = subtype_rule(d, made, theta, left, right).1 {
                lemma_extends_trans(ctx, theta, out);
            }
        }
    } else if b is Poly {
        let count = b->vars.len();
        let d = (depth - 1) as nat;
        let fresh = fresh_names(names, count);
        let pushed = as_universals(fresh);
        lemma_markers_below_universals(ctx, names, count);
        let body = renamed(*b->body, b->vars, fresh, false);
        lemma_subtype_extends(d, names + count, ctx + pushed, a, body);
        if let Ok(delta) = subtype_rule(d, names + count, ctx + pushed, a, body).1 {
            lemma_extends_scope(ctx, pushed, delta);
        }
    } else if a is Poly {
        let count = a->vars.len();
        let d = (depth - 1) as nat;
        let fresh = fresh_names(names, count);
        let pushed = as_marked_existentials(fresh);
        lemma_markers_below_marked(ctx, names, count);
        let body = renamed(*a->body, a->vars, fresh, true);
        lemma_subtype_extends(d, names + count, ctx + pushed, body, b);
        if let Ok(delta) = subtype_rule(d, names + count, ctx + pushed, body, b).1 {
            lemma_extends_scope(ctx, pushed, delta);
        }
    } else if a is Existential && !b.free_vars().contains(a->Existential_0) {
        lemma_instantiate_l_extends((depth - 1) as nat, names, ctx, a->Existential_0, b);
    } else if b is Existential && !a.free_vars().contains(b->Existential_0) {
        lemma_instantiate_r_extends((depth - 1) as nat, names, ctx, a, b->Existential_0);
    } else {
    }
}

/// Instantiation to the left extends the context.
pub proof fn lemma_instantiate_l_extends(depth: nat, names: nat, ctx: Seq<Elem>, a: Seq<char>, ty: Ty)
    requires
        markers_below(ctx, names),
    ensures
        names <= instantiate_l_rule(depth, names, ctx, a, ty).0,
        instantiate_l_rule(depth, names, ctx, a, ty).1 matches Ok(out) ==> extends(ctx, out),
    decreases depth,
{
    if depth == 0 {
    } else if ty is Existential && ordered(ctx, a, ty->Existential_0) {
        if ctx.contains(Elem::ExVar(ty->Existential_0)) {
            lemma_extends_solved(ctx, ty->Existential_0, Ty::Existential(a));
        }
    } else if ty is Fun {
        if ctx.contains(Elem::ExVar(a)) {
            let d = (depth - 1) as nat;
            let a2 = fresh_name(names + 1);
            let a1 = fresh_name(names + 2);
            let start = articulated(ctx, a, a1, a2);
            lemma_extends_articulated(ctx, a, a1, a2);
            lemma_extends_markers_below(ctx, start, names, names + 2);
            lemma_instantiate_r_extends(d, names + 2, start, *ty->arg, a1);
            let (made, first) = instantiate_r_rule(d, names + 2, start, *ty->arg, a1);
            if let Ok(theta) = first {
                lemma_extends_trans(ctx, start, theta);
                lemma_extends_markers_below(ctx, theta, names, made);
                let rest = applied(theta, *ty->result);
                lemma_instantiate_l_extends(d, made, theta, a2, rest);
                if let Ok(out) = instantiate_l_rule(d, made, theta, a2, rest).1 {
                    lemma_extends_trans(ctx, theta, out);
                }
            }
        }
    } else if ty is Poly {
        let count = ty->vars.len();
        let d = (depth - 1) as nat;
        let fresh = fresh_names(names, count);
        let pushed = as_universals(fresh);
        lemma_markers_below_universals(ctx, names, count);
        let body = renamed(*ty->body, ty->vars, fresh, false);
        lemma_instantiate_l_extends(d, names + count, ctx + pushed, a, body);
        if let Ok(delta) = instantiate_l_rule(d, names + count, ctx + pushed, a, body).1 {
            lemma_extends_scope(ctx, pushed, delta);
        }
    } else {
        if ctx.contains(Elem::ExVar(a)) {
            lemma_extends_solved(ctx, a, ty);
        }
    }
}

/// Instantiation to the right extends the context.
pub proof fn lemma_instantiate_r_extends(depth: nat, names: nat, ctx: Seq<Elem>, ty: Ty, a: Seq<char>)
    requires
        markers_below(ctx, names),
    ensures
        names <= instantiate_r_rule(depth, names, ctx, ty, a).0,
        instantiate_r_rule(depth, names, ctx, ty, a).1 matches Ok(out) ==> extends(ctx, out),
    decreases depth,
{
    if depth == 0 {
    } else if ty is Existential && ordered(ctx, a, ty->Existential_0) {
        if ctx.contains(Elem::ExVar(ty->Existential_0)) {
            lemma_extends_solved(ctx, ty->Existential_0, Ty::Existential(a));
        }
    } else if ty is Fun {
        if ctx.contains(Elem::ExVar(a)) {
            let d = (depth - 1) as nat;
            let a1 = fresh_name(names + 1);
            let a2 = fresh_name(names + 2);
            let start = articulated(ctx, a, a1, a2);
            lemma_extends_articulated(ctx, a, a1, a2);
            lemma_extends_markers_below(ctx, start, names, names + 2);
            lemma_instantiate_l_extends(d, names + 2, start, a1, *ty->arg);
            let (made, first) = instantiate_l_rule(d, names + 2, start, a1, *ty->arg);
            if let Ok(theta) = first {
                lemma_extends_trans(ctx, start, theta);
                lemma_extends_markers_below(ctx, theta, names, made);
                let rest = applied(theta, *ty->result);
                lemma_instantiate_r_extends(d, made, theta, rest, a2);
                if let Ok(out) = instantiate_r_rule(d, made, theta, rest, a2).1 {
                    lemma_extends_trans(ctx, theta, out);
                }
            }
        }
    } else if ty is Poly {
        let count = ty->vars.len();
        let d = (depth - 1) as nat;
        let fresh = fresh_names(names, count);
        let pushed = as_marked_existentials(fresh);
        lemma_markers_below_marked(ctx, names, count);
        let body = renamed(*ty->body, ty->vars, fresh, true);
        lemma_instantiate_r_extends(d, names + count, ctx + pushed, body, a);
        if let Ok(delta) = instantiate_r_rule(d, names + count, ctx + pushed, body, a).1 {
            lemma_extends_scope(ctx, pushed, delta);
        }
    } else {
        if ctx.contains(Elem::ExVar(a)) {
            lemma_extends_solved(ctx, a, ty);
        }
    }
}

} // verus!
