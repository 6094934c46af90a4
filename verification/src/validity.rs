//! Well-formedness is kept: subtyping and instantiation give back a
//! well-formed context where they are given one whose names do not meet
//! the names that are still to be made.

use crate::context::{
    annotated, annotates, applied, as_universals, before, declared, declares, elem_wf,
    existentials, inserted_at, lemma_existentials_declared, lemma_position_exists, lemma_wf_entry,
    markers, ordered, position, solved, type_wf, universals, wf, Elem,
};
use crate::extension::is_existential;
use crate::names::{fresh_name, fresh_names, lemma_fresh_name_injective};
use crate::rules::{
    arrow, articulated, as_marked_existentials, dropped_to_first, instantiate_l_rule,
    instantiate_r_rule, renamed, same_atom, subtype_rule,
};
use crate::scoping::{lemma_type_wf_covers, supported, supports};
use crate::types::Ty;
use vstd::prelude::*;

verus! {

/// The name that an element declares as a rigid variable, an existential or
/// a marker.
pub open spec fn declared_name(e: Elem) -> Option<Seq<char>> {
    match e {
        Elem::Universal(v) => Some(v),
        Elem::ExVar(a) => Some(a),
        Elem::ExVarSolved(a, _) => Some(a),
        Elem::Marker(m) => Some(m),
        Elem::Anno(_, _) => None,
    }
}

/// Whether the context declares the name, as a rigid variable, an
/// existential or a marker.
pub open spec fn names(ctx: Seq<Elem>, name: Seq<char>) -> bool {
    exists|i: int| 0 <= i < ctx.len() && declared_name(#[trigger] ctx[i]) == Some(name)
}

/// Whether the context declares no name that a generator hands out after
/// its `made`-th.
pub open spec fn names_below(ctx: Seq<Elem>, made: nat) -> bool {
    forall|k: nat| k > made ==> !names(ctx, #[trigger] fresh_name(k))
}

/// Whether some element of the context annotates the term variable.
pub open spec fn annotated_in(ctx: Seq<Elem>, name: Seq<char>) -> bool {
    exists|i: int| 0 <= i < ctx.len() && annotates(#[trigger] ctx[i], name)
}

/// Whether `e` may follow `prefix`, said of the elements of `prefix`
/// rather than of the lists of its names.
pub open spec fn elem_ok(prefix: Seq<Elem>, e: Elem) -> bool {
    match e {
        Elem::Universal(v) => !prefix.contains(Elem::Universal(v)),
        Elem::Anno(x, t) => !annotated_in(prefix, x) && type_wf(prefix, t),
        Elem::ExVar(a) => !declared(prefix, a),
        Elem::ExVarSolved(a, t) => !declared(prefix, a) && type_wf(prefix, t) && t.is_mono(),
        Elem::Marker(m) => !prefix.contains(Elem::Marker(m)) && !declared(prefix, m),
    }
}

/// A sequence with one more element holds what it held, and that element.
proof fn lemma_push_contains<A>(s: Seq<A>, x: A, y: A)
    ensures
        s.push(x).contains(y) <==> (s.contains(y) || x == y),
{
    if s.contains(y) {
        let k = choose|k: int| 0 <= k < s.len() && s[k] == y;
        assert(s.push(x)[k] == y);
    }
    if x == y {
        assert(s.push(x)[s.len() as int] == y);
    }
}

/// The listed rigid variables are those of the elements.
pub proof fn lemma_universals_contains(ctx: Seq<Elem>, v: Seq<char>)
    ensures
        universals(ctx).contains(v) <==> ctx.contains(Elem::Universal(v)),
    decreases ctx.len(),
{
    if ctx.len() > 0 {
        let rest = ctx.drop_last();
        lemma_universals_contains(rest, v);
        assert(ctx =~= rest.push(ctx.last()));
        lemma_push_contains(rest, ctx.last(), Elem::Universal(v));
        match ctx.last() {
            Elem::Universal(u) => {
                lemma_push_contains(universals(rest), u, v);
            },
            _ => {},
        }
    }
}

/// The listed markers are those of the elements.
pub proof fn lemma_markers_contains(ctx: Seq<Elem>, m: Seq<char>)
    ensures
        markers(ctx).contains(m) <==> ctx.contains(Elem::Marker(m)),
    decreases ctx.len(),
{
    if ctx.len() > 0 {
        let rest = ctx.drop_last();
        lemma_markers_contains(rest, m);
        assert(ctx =~= rest.push(ctx.last()));
        lemma_push_contains(rest, ctx.last(), Elem::Marker(m));
        match ctx.last() {
            Elem::Marker(u) => {
                lemma_push_contains(markers(rest), u, m);
            },
            _ => {},
        }
    }
}

/// The listed term variables are those that the elements annotate.
pub proof fn lemma_annotated_contains(ctx: Seq<Elem>, x: Seq<char>)
    ensures
        annotated(ctx).contains(x) <==> annotated_in(ctx, x),
    decreases ctx.len(),
{
    if ctx.len() > 0 {
        let rest = ctx.drop_last();
        lemma_annotated_contains(rest, x);
        if annotated_in(ctx, x) {
            let i = choose|i: int| 0 <= i < ctx.len() && annotates(#[trigger] ctx[i], x);
            if i < rest.len() {
                assert(annotates(rest[i], x));
            }
        }
        if annotated_in(rest, x) {
            let i = choose|i: int| 0 <= i < rest.len() && annotates(#[trigger] rest[i], x);
            assert(annotates(ctx[i], x));
        }
        if annotates(ctx.last(), x) {
            assert(annotates(ctx[ctx.len() - 1], x));
        }
        match ctx.last() {
            Elem::Anno(y, _) => {
                lemma_push_contains(annotated(rest), y, x);
            },
            _ => {},
        }
    }
}

/// The two ways of saying that an element may follow a context agree.
pub proof fn lemma_elem_ok(prefix: Seq<Elem>, e: Elem)
    ensures
        elem_ok(prefix, e) == elem_wf(prefix, e),
{
    match e {
        Elem::Universal(v) => {
            lemma_universals_contains(prefix, v);
        },
        Elem::Anno(x, t) => {
            lemma_annotated_contains(prefix, x);
        },
        Elem::ExVar(a) => {
            lemma_existentials_declared(prefix, a);
        },
        Elem::ExVarSolved(a, t) => {
            lemma_existentials_declared(prefix, a);
        },
        Elem::Marker(m) => {
            lemma_markers_contains(prefix, m);
            lemma_existentials_declared(prefix, m);
        },
    }
}

/// A context is well formed where each element may follow what stands
/// before it.
pub proof fn lemma_wf_by_entries(ctx: Seq<Elem>)
    requires
        forall|i: int| 0 <= i < ctx.len() ==> elem_ok(ctx.take(i), #[trigger] ctx[i]),
    ensures
        wf(ctx),
    decreases ctx.len(),
{
    if ctx.len() > 0 {
        let rest = ctx.drop_last();
        assert forall|i: int| 0 <= i < rest.len() implies elem_ok(rest.take(i), #[trigger] rest[i]) by {
            assert(rest[i] == ctx[i]);
            assert(rest.take(i) =~= ctx.take(i));
        }
        lemma_wf_by_entries(rest);
        assert(ctx.take(ctx.len() - 1) =~= rest);
        assert(elem_ok(rest, ctx[ctx.len() - 1]));
        lemma_elem_ok(rest, ctx.last());
    }
}

/// In a well-formed context each element may follow what stands before it.
pub proof fn lemma_wf_entries(ctx: Seq<Elem>)
    requires
        wf(ctx),
    ensures
        forall|i: int| 0 <= i < ctx.len() ==> elem_ok(ctx.take(i), #[trigger] ctx[i]),
{
    assert forall|i: int| 0 <= i < ctx.len() implies elem_ok(ctx.take(i), #[trigger] ctx[i]) by {
        lemma_wf_entry(ctx, i);
        lemma_elem_ok(ctx.take(i), ctx[i]);
    }
}

/// What stands before an element of a well-formed context is well formed.
pub proof fn lemma_wf_take(ctx: Seq<Elem>, k: int)
    requires
        wf(ctx),
        0 <= k <= ctx.len(),
    ensures
        wf(ctx.take(k)),
{
    if k == ctx.len() {
        assert(ctx.take(k) =~= ctx);
    } else {
        lemma_wf_entry(ctx, k);
    }
}

/// A part of a context declares no name that the context does not.
pub proof fn lemma_names_below_take(ctx: Seq<Elem>, k: int, made: nat)
    requires
        names_below(ctx, made),
        0 <= k <= ctx.len(),
    ensures
        names_below(ctx.take(k), made),
{
    let part = ctx.take(k);
    assert forall|n: nat| n > made implies !names(part, #[trigger] fresh_name(n)) by {
        if names(part, fresh_name(n)) {
            let i = choose|i: int| 0 <= i < part.len() && declared_name(#[trigger] part[i]) == Some(
                fresh_name(n),
            );
            assert(declared_name(ctx[i]) == Some(fresh_name(n)));
            assert(names(ctx, fresh_name(n)));
        }
    }
}

/// Whether every element may follow what stands before it, in `ctx`
/// followed by `more`, from the elements of `more` on.
proof fn lemma_wf_appended(ctx: Seq<Elem>, more: Seq<Elem>)
    requires
        wf(ctx),
        forall|k: int| 0 <= k < more.len() ==> elem_ok(ctx + more.take(k), #[trigger] more[k]),
    ensures
        wf(ctx + more),
{
    let out = ctx + more;
    lemma_wf_entries(ctx);
    assert forall|i: int| 0 <= i < out.len() implies elem_ok(out.take(i), #[trigger] out[i]) by {
        if i < ctx.len() {
            assert(out[i] == ctx[i]);
            assert(out.take(i) =~= ctx.take(i));
        } else {
            let k = i - ctx.len();
            assert(out[i] == more[k]);
            assert(out.take(i) =~= ctx + more.take(k));
        }
    }
    lemma_wf_by_entries(out);
}

/// Fresh rigid variables may follow a well-formed context.
pub proof fn lemma_wf_universals(ctx: Seq<Elem>, made: nat, count: nat)
    requires
        wf(ctx),
        names_below(ctx, made),
    ensures
        wf(ctx + as_universals(fresh_names(made, count))),
        names_below(ctx + as_universals(fresh_names(made, count)), made + count),
{
    let more = as_universals(fresh_names(made, count));
    let out = ctx + more;
    assert forall|k: int| 0 <= k < more.len() implies elem_ok(ctx + more.take(k), #[trigger] more[k]) by {
        let v = fresh_name((made + 1 + k) as nat);
        let prefix = ctx + more.take(k);
        if prefix.contains(Elem::Universal(v)) {
            let i = choose|i: int| 0 <= i < prefix.len() && prefix[i] == Elem::Universal(v);
            if i < ctx.len() {
                assert(declared_name(ctx[i]) == Some(v));
                assert(names(ctx, v));
            } else {
                let j = i - ctx.len();
                assert(prefix[i] == more[j]);
                lemma_fresh_name_injective((made + 1 + k) as nat, (made + 1 + j) as nat);
            }
        }
    }
    lemma_wf_appended(ctx, more);
    assert forall|n: nat| n > made + count implies !names(out, #[trigger] fresh_name(n)) by {
        if names(out, fresh_name(n)) {
            let i = choose|i: int| 0 <= i < out.len() && declared_name(#[trigger] out[i]) == Some(
                fresh_name(n),
            );
            if i < ctx.len() {
                assert(declared_name(ctx[i]) == Some(fresh_name(n)));
                assert(names(ctx, fresh_name(n)));
            } else {
                let j = i - ctx.len();
                assert(out[i] == more[j]);
                lemma_fresh_name_injective(n, (made + 1 + j) as nat);
            }
        }
    }
}

/// A context followed by marked existentials declares the existentials of
/// the context and those that follow.
proof fn lemma_marked_prefix(ctx: Seq<Elem>, made: nat, count: nat, k: int, name: Seq<char>)
    requires
        0 <= k <= 2 * count,
        declared(ctx + as_marked_existentials(fresh_names(made, count)).take(k), name)
            || (ctx + as_marked_existentials(fresh_names(made, count)).take(k)).contains(
            Elem::Marker(name),
        ),
    ensures
        names(ctx, name) || exists|j: int|
            0 <= j < count && 2 * j < k && name == #[trigger] fresh_names(made, count)[j],
{
    let more = as_marked_existentials(fresh_names(made, count));
    let prefix = ctx + more.take(k);
    let i = if declared(prefix, name) {
        choose|i: int| 0 <= i < prefix.len() && declares(#[trigger] prefix[i], name)
    } else {
        choose|i: int| 0 <= i < prefix.len() && prefix[i] == Elem::Marker(name)
    };
    if i < ctx.len() {
        assert(prefix[i] == ctx[i]);
        assert(declared_name(ctx[i]) == Some(name));
    } else {
        let j = i - ctx.len();
        assert(prefix[i] == more[j]);
        let half = j / 2;
        assert(name == fresh_names(made, count)[half]);
        assert(0 <= half < count && 2 * half < k);
    }
}

/// Fresh marked existentials may follow a well-formed context.
pub proof fn lemma_wf_marked(ctx: Seq<Elem>, made: nat, count: nat)
    requires
        wf(ctx),
        names_below(ctx, made),
    ensures
        wf(ctx + as_marked_existentials(fresh_names(made, count))),
        names_below(ctx + as_marked_existentials(fresh_names(made, count)), made + count),
{
    let more = as_marked_existentials(fresh_names(made, count));
    let out = ctx + more;
    assert forall|k: int| 0 <= k < more.len() implies elem_ok(ctx + more.take(k), #[trigger] more[k]) by {
        let half = (k / 2) as nat;
        let a = fresh_name(made + 1 + half);
        let prefix = ctx + more.take(k);
        if k % 2 == 0 {
            assert(more[k] == Elem::Marker(a));
            if declared(prefix, a) || prefix.contains(Elem::Marker(a)) {
                lemma_marked_prefix(ctx, made, count, k, a);
                if !names(ctx, a) {
                    let j = choose|j: int|
                        0 <= j < count && 2 * j < k && a == #[trigger] fresh_names(made, count)[j];
                    lemma_fresh_name_injective(made + 1 + half, (made + 1 + j) as nat);
                }
            }
        } else {
            assert(more[k] == Elem::ExVar(a));
            if declared(prefix, a) {
                // The marker of the same name stands before, but declares no
                // existential.
                let i = choose|i: int| 0 <= i < prefix.len() && declares(#[trigger] prefix[i], a);
                if i < ctx.len() {
                    assert(declared_name(ctx[i]) == Some(a));
                    assert(names(ctx, a));
                } else {
                    let j = i - ctx.len();
                    assert(prefix[i] == more[j]);
                    assert(j % 2 == 1);
                    lemma_fresh_name_injective(made + 1 + half, (made + 1 + j / 2) as nat);
                }
            }
        }
    }
    lemma_wf_appended(ctx, more);
    assert forall|n: nat| n > made + count implies !names(out, #[trigger] fresh_name(n)) by {
        if names(out, fresh_name(n)) {
            let i = choose|i: int| 0 <= i < out.len() && declared_name(#[trigger] out[i]) == Some(
                fresh_name(n),
            );
            if i < ctx.len() {
                assert(declared_name(ctx[i]) == Some(fresh_name(n)));
                assert(names(ctx, fresh_name(n)));
            } else {
                let j = i - ctx.len();
                assert(out[i] == more[j]);
                lemma_fresh_name_injective(n, (made + 1 + j / 2) as nat);
            }
        }
    }
}

/// Putting existentials in place of an unsolved existential keeps a
/// context well formed, where each of them may follow what then stands
/// before it, one of them declares the existential that is replaced, and
/// each of the others bears a name that is new to the context.
pub proof fn lemma_wf_inserted(ctx: Seq<Elem>, a: Seq<char>, elems: Seq<Elem>)
    requires
        wf(ctx),
        ctx.contains(Elem::ExVar(a)),
        exists|k: int| 0 <= k < elems.len() && supports(Elem::ExVar(a), #[trigger] elems[k]),
        forall|k: int| 0 <= k < elems.len() ==> is_existential(#[trigger] elems[k]),
        forall|k: int|
            0 <= k < elems.len() ==> elem_ok(before(ctx, Elem::ExVar(a)) + elems.take(k), #[trigger] elems[k]),
        forall|k: int, n: Seq<char>|
            0 <= k < elems.len() && declares(#[trigger] elems[k], n) ==> n == a || !#[trigger] names(ctx, n),
    ensures
        wf(inserted_at(ctx, a, elems)),
{
    let e = Elem::ExVar(a);
    lemma_position_exists(ctx, e);
    let p = position(ctx, e);
    let out = inserted_at(ctx, a, elems);
    let w = choose|k: int| 0 <= k < elems.len() && supports(Elem::ExVar(a), #[trigger] elems[k]);
    lemma_wf_entries(ctx);
    assert forall|i: int| 0 <= i < out.len() implies elem_ok(out.take(i), #[trigger] out[i]) by {
        if i < p {
            assert(out[i] == ctx[i]);
            assert(out.take(i) =~= ctx.take(i));
        } else if i < p + elems.len() {
            assert(out[i] == elems[i - p]);
            assert(out.take(i) =~= before(ctx, e) + elems.take(i - p));
        } else {
            let j = i - elems.len() + 1;
            assert(out[i] == ctx[j]);
            let small = ctx.take(j);
            let big = out.take(i);
            assert(elem_ok(small, ctx[j]));
            // Every element of the new prefix is an element of the old one,
            // or one of the elements put in.
            assert forall|n: int| 0 <= n < big.len() implies (exists|m: int|
                0 <= m < small.len() && small[m] == #[trigger] big[n]) || (exists|k: int|
                0 <= k < elems.len() && elems[k] == big[n]) by {
                if n < p {
                    assert(small[n] == big[n]);
                } else if n < p + elems.len() {
                    assert(elems[n - p] == big[n]);
                } else {
                    assert(small[n - elems.len() + 1] == big[n]);
                }
            }
            assert forall|m: int| 0 <= m < small.len() implies supported(#[trigger] small[m], big) by {
                if m < p {
                    assert(big[m] == ctx[m]);
                    assert(supports(small[m], big[m]));
                } else if m == p {
                    assert(big[p + w] == elems[w]);
                    assert(supports(small[m], big[p + w]));
                } else {
                    let n = m + elems.len() - 1;
                    assert(big[n] == ctx[m]);
                    assert(supports(small[m], big[n]));
                }
            }
            assert(small[p] == e);
            assert(declares(small[p], a));
            assert(declared_name(ctx[j]) is Some ==> names(ctx, declared_name(ctx[j])->Some_0));
            match ctx[j] {
                Elem::Universal(v) => {
                    if big.contains(Elem::Universal(v)) {
                        let n = choose|n: int| 0 <= n < big.len() && big[n] == Elem::Universal(v);
                        if exists|m: int| 0 <= m < small.len() && small[m] == big[n] {
                        } else {
                            let k = choose|k: int| 0 <= k < elems.len() && elems[k] == big[n];
                            assert(is_existential(elems[k]));
                        }
                    }
                },
                Elem::Anno(x, t) => {
                    lemma_type_wf_covers(small, big, t);
                    if annotated_in(big, x) {
                        let n = choose|n: int| 0 <= n < big.len() && annotates(#[trigger] big[n], x);
                        if exists|m: int| 0 <= m < small.len() && small[m] == big[n] {
                            let m = choose|m: int| 0 <= m < small.len() && small[m] == big[n];
                            assert(annotates(small[m], x));
                        } else {
                            let k = choose|k: int| 0 <= k < elems.len() && elems[k] == big[n];
                            assert(is_existential(elems[k]));
                        }
                    }
                },
                Elem::ExVar(b) => {
                    lemma_declared_inserted(small, big, elems, a, b, ctx);
                },
                Elem::ExVarSolved(b, t) => {
                    lemma_type_wf_covers(small, big, t);
                    lemma_declared_inserted(small, big, elems, a, b, ctx);
                },
                Elem::Marker(m) => {
                    lemma_declared_inserted(small, big, elems, a, m, ctx);
                    if big.contains(Elem::Marker(m)) {
                        let n = choose|n: int| 0 <= n < big.len() && big[n] == Elem::Marker(m);
                        if exists|q: int| 0 <= q < small.len() && small[q] == big[n] {
                        } else {
                            let k = choose|k: int| 0 <= k < elems.len() && elems[k] == big[n];
                            assert(is_existential(elems[k]));
                        }
                    }
                },
            }
        }
    }
    lemma_wf_by_entries(out);
}

/// A name of the context that the old prefix declares no existential of is
/// declared as an existential by the new prefix neither.
proof fn lemma_declared_inserted(
    small: Seq<Elem>,
    big: Seq<Elem>,
    elems: Seq<Elem>,
    a: Seq<char>,
    b: Seq<char>,
    ctx: Seq<Elem>,
)
    requires
        !declared(small, b),
        declared(small, a),
        names(ctx, b),
        forall|n: int|
            0 <= n < big.len() ==> (exists|m: int| 0 <= m < small.len() && small[m] == #[trigger] big[n])
                || (exists|k: int| 0 <= k < elems.len() && elems[k] == big[n]),
        forall|k: int, n: Seq<char>|
            0 <= k < elems.len() && declares(#[trigger] elems[k], n) ==> n == a || !#[trigger] names(ctx, n),
    ensures
        !declared(big, b),
{
    if declared(big, b) {
        let n = choose|n: int| 0 <= n < big.len() && declares(#[trigger] big[n], b);
        if exists|m: int| 0 <= m < small.len() && small[m] == big[n] {
            let m = choose|m: int| 0 <= m < small.len() && small[m] == big[n];
            assert(declares(small[m], b));
        } else {
            let k = choose|k: int| 0 <= k < elems.len() && elems[k] == big[n];
            assert(declares(elems[k], b));
            assert(b == a || !names(ctx, b));
        }
    }
}

/// Whatever is put in place of an existential, the names of the context
/// stay below, where the names that are put in do.
proof fn lemma_names_below_inserted(ctx: Seq<Elem>, a: Seq<char>, elems: Seq<Elem>, made: nat, later: nat)
    requires
        names_below(ctx, made),
        made <= later,
        ctx.contains(Elem::ExVar(a)),
        forall|k: int, n: nat|
            0 <= k < elems.len() && n > later ==> declared_name(#[trigger] elems[k]) != Some(
                #[trigger] fresh_name(n),
            ),
    ensures
        names_below(inserted_at(ctx, a, elems), later),
{
    let e = Elem::ExVar(a);
    lemma_position_exists(ctx, e);
    let p = position(ctx, e);
    let out = inserted_at(ctx, a, elems);
    assert forall|n: nat| n > later implies !names(out, #[trigger] fresh_name(n)) by {
        if names(out, fresh_name(n)) {
            let i = choose|i: int| 0 <= i < out.len() && declared_name(#[trigger] out[i]) == Some(
                fresh_name(n),
            );
            if i < p {
                assert(out[i] == ctx[i]);
                assert(declared_name(ctx[i]) == Some(fresh_name(n)));
                assert(names(ctx, fresh_name(n)));
            } else if i < p + elems.len() {
                assert(out[i] == elems[i - p]);
            } else {
                let j = i - elems.len() + 1;
                assert(out[i] == ctx[j]);
                assert(declared_name(ctx[j]) == Some(fresh_name(n)));
                assert(names(ctx, fresh_name(n)));
            }
        }
    }
}

/// Solving an existential to a monotype that is well formed in what stands
/// before it keeps a context well formed.
pub proof fn lemma_wf_solved(ctx: Seq<Elem>, a: Seq<char>, ty: Ty, made: nat)
    requires
        wf(ctx),
        names_below(ctx, made),
        ctx.contains(Elem::ExVar(a)),
        ty.is_mono(),
    ensures
        solved(ctx, a, ty) matches Some(out) ==> wf(out) && names_below(out, made),
{
    let e = Elem::ExVar(a);
    let prefix = before(ctx, e);
    if type_wf(prefix, ty) {
        let elems = seq![Elem::ExVarSolved(a, ty)];
        lemma_position_exists(ctx, e);
        let p = position(ctx, e);
        lemma_wf_entries(ctx);
        assert(elem_ok(ctx.take(p), ctx[p]));
        assert(supports(e, elems[0]));
        assert(elems.take(0) =~= Seq::empty());
        assert(prefix + elems.take(0) =~= prefix);
        lemma_wf_inserted(ctx, a, elems);
        assert(names(ctx, a)) by {
            assert(declared_name(ctx[p]) == Some(a));
        }
        lemma_names_below_inserted(ctx, a, elems, made, made);
    }
}

/// Committing an existential to the shape of a function keeps a context
/// well formed, where the two existentials that come in bear new names.
pub proof fn lemma_wf_articulated(ctx: Seq<Elem>, a: Seq<char>, made: nat, a1: Seq<char>, a2: Seq<char>)
    requires
        wf(ctx),
        names_below(ctx, made),
        ctx.contains(Elem::ExVar(a)),
        (a1 == fresh_name(made + 1) && a2 == fresh_name(made + 2)) || (a1 == fresh_name(made + 2) && a2
            == fresh_name(made + 1)),
    ensures
        wf(articulated(ctx, a, a1, a2)),
        names_below(articulated(ctx, a, a1, a2), made + 2),
{
    let n1: nat = if a1 == fresh_name(made + 1) {
        made + 1
    } else {
        made + 2
    };
    let n2: nat = if a1 == fresh_name(made + 1) {
        made + 2
    } else {
        made + 1
    };
    let e = Elem::ExVar(a);
    let prefix = before(ctx, e);
    let elems = seq![Elem::ExVar(a2), Elem::ExVar(a1), Elem::ExVarSolved(a, arrow(a1, a2))];
    lemma_position_exists(ctx, e);
    let p = position(ctx, e);
    lemma_wf_entries(ctx);
    assert(elem_ok(ctx.take(p), ctx[p]));
    assert(names(ctx, a)) by {
        assert(declared_name(ctx[p]) == Some(a));
    }
    assert(!names(ctx, a1));
    assert(!names(ctx, a2));
    assert(a1 != a2) by {
        if a1 == a2 {
            lemma_fresh_name_injective(n1, n2);
        }
    }
    lemma_names_prefix(ctx, p, a1);
    lemma_names_prefix(ctx, p, a2);
    assert(supports(e, elems[2]));
    assert forall|k: int| 0 <= k < elems.len() implies elem_ok(prefix + elems.take(k), #[trigger] elems[k]) by {
        let here = prefix + elems.take(k);
        if k == 0 {
            assert(here =~= prefix);
        } else if k == 1 {
            assert(here =~= prefix.push(Elem::ExVar(a2)));
            if declared(here, a1) {
                let i = choose|i: int| 0 <= i < here.len() && declares(#[trigger] here[i], a1);
                if i < prefix.len() {
                    assert(declares(prefix[i], a1));
                }
            }
        } else {
            assert(here =~= prefix.push(Elem::ExVar(a2)).push(Elem::ExVar(a1)));
            if declared(here, a) {
                let i = choose|i: int| 0 <= i < here.len() && declares(#[trigger] here[i], a);
                if i < prefix.len() {
                    assert(declares(prefix[i], a));
                }
            }
            assert(here[here.len() - 2] == Elem::ExVar(a2));
            assert(here[here.len() - 1] == Elem::ExVar(a1));
            assert(here.contains(Elem::ExVar(a1)));
            assert(here.contains(Elem::ExVar(a2)));
            assert(type_wf(here, arrow(a1, a2))) by {
                reveal_with_fuel(type_wf, 3);
            }
            assert(arrow(a1, a2).is_mono()) by {
                reveal_with_fuel(Ty::is_mono, 3);
            }
        }
    }
    lemma_wf_inserted(ctx, a, elems);
    assert forall|k: int, n: nat| 0 <= k < elems.len() && n > made + 2 implies declared_name(
        #[trigger] elems[k],
    ) != Some(#[trigger] fresh_name(n)) by {
        if declared_name(elems[k]) == Some(fresh_name(n)) {
            if k == 0 {
                lemma_fresh_name_injective(n, n2);
            } else if k == 1 {
                lemma_fresh_name_injective(n, n1);
            } else {
                assert(names(ctx, fresh_name(n)));
            }
        }
    }
    lemma_names_below_inserted(ctx, a, elems, made, made + 2);
}

/// A name that a context does not declare is not declared as an
/// existential by a part of it.
proof fn lemma_names_prefix(ctx: Seq<Elem>, k: int, name: Seq<char>)
    requires
        0 <= k <= ctx.len(),
        !names(ctx, name),
    ensures
        !declared(ctx.take(k), name),
{
    let part = ctx.take(k);
    if declared(part, name) {
        let i = choose|i: int| 0 <= i < part.len() && declares(#[trigger] part[i], name);
        assert(declared_name(ctx[i]) == Some(name));
    }
}

/// The rigid variables of a well-formed type are in scope.
pub proof fn lemma_type_wf_variables(ctx: Seq<Elem>, ty: Ty, v: Seq<char>)
    requires
        type_wf(ctx, ty),
        ty.variables().contains(v),
    ensures
        ctx.contains(Elem::Universal(v)),
    decreases ty,
{
    match ty {
        Ty::Fun { arg, result } => {
            if arg.variables().contains(v) {
                lemma_type_wf_variables(ctx, *arg, v);
            } else {
                lemma_type_wf_variables(ctx, *result, v);
            }
        },
        Ty::Poly { vars, body } => {
            let more = as_universals(vars);
            let longer = ctx + more;
            lemma_type_wf_variables(longer, *body, v);
            let i = choose|i: int| 0 <= i < longer.len() && longer[i] == Elem::Universal(v);
            if i < ctx.len() {
                assert(ctx[i] == Elem::Universal(v));
            } else {
                let k = i - ctx.len();
                assert(more[k] == Elem::Universal(v));
                assert(vars[k] == v);
                assert(vars.to_set().contains(v));
            }
        },
        _ => {},
    }
}

/// No solution escapes: in a well-formed context, the solution of an
/// existential speaks of no rigid variable that is brought into scope
/// after the existential.
pub proof fn lemma_no_escape(ctx: Seq<Elem>, i: int, j: int)
    requires
        wf(ctx),
        0 <= i < j < ctx.len(),
        ctx[i] is ExVarSolved,
        ctx[j] is Universal,
    ensures
        !crate::context::carried(ctx[i]).variables().contains(ctx[j]->Universal_0),
{
    let v = ctx[j]->Universal_0;
    let solution = crate::context::carried(ctx[i]);
    if solution.variables().contains(v) {
        lemma_wf_entry(ctx, i);
        lemma_type_wf_variables(ctx.take(i), solution, v);
        let k = choose|k: int| 0 <= k < ctx.take(i).len() && ctx.take(i)[k] == Elem::Universal(v);
        lemma_wf_entry(ctx, j);
        lemma_universals_contains(ctx.take(j), v);
        assert(ctx.take(j)[k] == Elem::Universal(v));
    }
}

/// Leaving a scope keeps a context well formed.
proof fn lemma_wf_scope(ctx: Seq<Elem>, pushed: Seq<Elem>, made: nat)
    requires
        wf(ctx),
        names_below(ctx, made),
    ensures
        dropped_to_first(ctx, pushed) matches Ok(out) ==> wf(out) && names_below(out, made),
{
    if pushed.len() > 0 && ctx.contains(pushed[0]) {
        lemma_position_exists(ctx, pushed[0]);
        lemma_wf_take(ctx, position(ctx, pushed[0]));
        lemma_names_below_take(ctx, position(ctx, pushed[0]), made);
    }
}

/// Subtyping keeps a context well formed: where the context is well
/// formed and declares no name that is still to be made, so is what
/// subtyping gives back.
pub proof fn lemma_subtype_wf(depth: nat, made: nat, ctx: Seq<Elem>, a: Ty, b: Ty)
    requires
        wf(ctx),
        names_below(ctx, made),
    ensures
        made <= subtype_rule(depth, made, ctx, a, b).0,
        subtype_rule(depth, made, ctx, a, b).1 matches Ok(out) ==> wf(out) && names_below(
            out,
            subtype_rule(depth, made, ctx, a, b).0,
        ),
    decreases depth,
{
    if depth == 0 {
    } else if same_atom(a, b) {
    } else if a is Fun && b is Fun {
        let d = (depth - 1) as nat;
        lemma_subtype_wf(d, made, ctx, *b->arg, *a->arg);
        let (next, first) = subtype_rule(d, made, ctx, *b->arg, *a->arg);
        if let Ok(theta) = first {
            lemma_subtype_wf(d, next, theta, applied(theta, *a->result), applied(theta, *b->result));
        }
    } else if b is Poly {
        let count = b->vars.len();
        let d = (depth - 1) as nat;
        let fresh = fresh_names(made, count);
        let pushed = as_universals(fresh);
        lemma_wf_universals(ctx, made, count);
        let body = renamed(*b->body, b->vars, fresh, false);
        lemma_subtype_wf(d, made + count, ctx + pushed, a, body);
        let (next, inner) = subtype_rule(d, made + count, ctx + pushed, a, body);
        if let Ok(delta) = inner {
            lemma_wf_scope(delta, pushed, next);
        }
    } else if a is Poly {
        let count = a->vars.len();
        let d = (depth - 1) as nat;
        let fresh = fresh_names(made, count);
        let pushed = as_marked_existentials(fresh);
        lemma_wf_marked(ctx, made, count);
        let body = renamed(*a->body, a->vars, fresh, true);
        lemma_subtype_wf(d, made + count, ctx + pushed, body, b);
        let (next, inner) = subtype_rule(d, made + count, ctx + pushed, body, b);
        if let Ok(delta) = inner {
            lemma_wf_scope(delta, pushed, next);
        }
    } else if a is Existential && !b.free_vars().contains(a->Existential_0) {
        lemma_instantiate_l_wf((depth - 1) as nat, made, ctx, a->Existential_0, b);
    } else if b is Existential && !a.free_vars().contains(b->Existential_0) {
        lemma_instantiate_r_wf((depth - 1) as nat, made, ctx, a, b->Existential_0);
    } else {
    }
}

/// Instantiation to the left keeps a context well formed.
pub proof fn lemma_instantiate_l_wf(depth: nat, made: nat, ctx: Seq<Elem>, a: Seq<char>, ty: Ty)
    requires
        wf(ctx),
        names_below(ctx, made),
    ensures
        made <= instantiate_l_rule(depth, made, ctx, a, ty).0,
        instantiate_l_rule(depth, made, ctx, a, ty).1 matches Ok(out) ==> wf(out) && names_below(
            out,
            instantiate_l_rule(depth, made, ctx, a, ty).0,
        ),
    decreases depth,
{
    if depth == 0 {
    } else if ty is Existential && ordered(ctx, a, ty->Existential_0) {
        if ctx.contains(Elem::ExVar(ty->Existential_0)) {
            lemma_wf_solved(ctx, ty->Existential_0, Ty::Existential(a), made);
        }
    } else if ty is Fun {
        if ctx.contains(Elem::ExVar(a)) {
            let d = (depth - 1) as nat;
            let a2 = fresh_name(made + 1);
            let a1 = fresh_name(made + 2);
            let start = articulated(ctx, a, a1, a2);
            lemma_wf_articulated(ctx, a, made, a1, a2);
            lemma_instantiate_r_wf(d, made + 2, start, *ty->arg, a1);
            let (next, first) = instantiate_r_rule(d, made + 2, start, *ty->arg, a1);
            if let Ok(theta) = first {
                lemma_instantiate_l_wf(d, next, theta, a2, applied(theta, *ty->result));
            }
        }
    } else if ty is Poly {
        let count = ty->vars.len();
        let d = (depth - 1) as nat;
        let fresh = fresh_names(made, count);
        let pushed = as_universals(fresh);
        lemma_wf_universals(ctx, made, count);
        let body = renamed(*ty->body, ty->vars, fresh, false);
        lemma_instantiate_l_wf(d, made + count, ctx + pushed, a, body);
        let (next, inner) = instantiate_l_rule(d, made + count, ctx + pushed, a, body);
        if let Ok(delta) = inner {
            lemma_wf_scope(delta, pushed, next);
        }
    } else {
        if ctx.contains(Elem::ExVar(a)) {
            lemma_wf_solved(ctx, a, ty, made);
        }
    }
}

/// Instantiation to the right keeps a context well formed.
pub proof fn lemma_instantiate_r_wf(depth: nat, made: nat, ctx: Seq<Elem>, ty: Ty, a: Seq<char>)
    requires
        wf(ctx),
        names_below(ctx, made),
    ensures
        made <= instantiate_r_rule(depth, made, ctx, ty, a).0,
        instantiate_r_rule(depth, made, ctx, ty, a).1 matches Ok(out) ==> wf(out) && names_below(
            out,
            instantiate_r_rule(depth, made, ctx, ty, a).0,
        ),
    decreases depth,
{
    if depth == 0 {
    } else if ty is Existential && ordered(ctx, a, ty->Existential_0) {
        if ctx.contains(Elem::ExVar(ty->Existential_0)) {
            lemma_wf_solved(ctx, ty->Existential_0, Ty::Existential(a), made);
        }
    } else if ty is Fun {
        if ctx.contains(Elem::ExVar(a)) {
            let d = (depth - 1) as nat;
            let a1 = fresh_name(made + 1);
            let a2 = fresh_name(made + 2);
            let start = articulated(ctx, a, a1, a2);
            lemma_wf_articulated(ctx, a, made, a1, a2);
            lemma_instantiate_l_wf(d, made + 2, start, a1, *ty->arg);
            let (next, first) = instantiate_l_rule(d, made + 2, start, a1, *ty->arg);
            if let Ok(theta) = first {
                lemma_instantiate_r_wf(d, next, theta, applied(theta, *ty->result), a2);
            }
        }
    } else if ty is Poly {
        let count = ty->vars.len();
        let d = (depth - 1) as nat;
        let fresh = fresh_names(made, count);
        let pushed = as_marked_existentials(fresh);
        lemma_wf_marked(ctx, made, count);
        let body = renamed(*ty->body, ty->vars, fresh, true);
        lemma_instantiate_r_wf(d, made + count, ctx + pushed, body, a);
        let (next, inner) = instantiate_r_rule(d, made + count, ctx + pushed, body, a);
        if let Ok(delta) = inner {
            lemma_wf_scope(delta, pushed, next);
        }
    } else {
        if ctx.contains(Elem::ExVar(a)) {
            lemma_wf_solved(ctx, a, ty, made);
        }
    }
}

} // verus!
