//! The ordered context: the sequence of assumptions that the checker threads
//! through its rules.

use crate::names::{contains_name, names_view};
use crate::types::{
    lemma_mono_binders, lemma_with_solution_absent, lemma_with_solution_binders,
    lemma_with_solution_existentials, lemma_with_solution_quantifiers, Ty, Type,
};
use vstd::prelude::*;
use vstd::string::StringExecFns;

verus! {

/// Mathematical model of a context element.
pub ghost enum Elem {
    /// A rigid variable is in scope.
    Universal(Seq<char>),
    /// An unsolved existential.
    ExVar(Seq<char>),
    /// An existential and its solution.
    ExVarSolved(Seq<char>, Ty),
    /// A scoping marker.
    Marker(Seq<char>),
    /// A term variable and its type.
    Anno(Seq<char>, Ty),
}

/// An element of a context.
#[derive(Debug)]
pub enum ContextElem {
    Universal(String),
    ExVar(String),
    ExVarSolved(String, Type),
    Marker(String),
    Anno(String, Type),
}

impl View for ContextElem {
    type V = Elem;

    open spec fn view(&self) -> Elem {
        match self {
            ContextElem::Universal(v) => Elem::Universal(v@),
            ContextElem::ExVar(e) => Elem::ExVar(e@),
            ContextElem::ExVarSolved(e, t) => Elem::ExVarSolved(e@, t@),
            ContextElem::Marker(m) => Elem::Marker(m@),
            ContextElem::Anno(x, t) => Elem::Anno(x@, t@),
        }
    }
}

/// The models of a sequence of elements.
pub open spec fn models(elems: Seq<ContextElem>) -> Seq<Elem> {
    Seq::new(elems.len(), |i: int| elems[i]@)
}

/// Whether `i` is the first position of `ctx` that holds `e`.
pub open spec fn first_at(ctx: Seq<Elem>, e: Elem, i: int) -> bool {
    &&& 0 <= i < ctx.len()
    &&& ctx[i] == e
    &&& forall|j: int| 0 <= j < i ==> ctx[j] != e
}

/// The first position of `ctx` that holds `e`, where there is one.
pub open spec fn position(ctx: Seq<Elem>, e: Elem) -> int {
    choose|i: int| first_at(ctx, e, i)
}

/// What stands before the first `e`.
pub open spec fn before(ctx: Seq<Elem>, e: Elem) -> Seq<Elem> {
    ctx.take(position(ctx, e))
}

/// What stands after the first `e`.
pub open spec fn after(ctx: Seq<Elem>, e: Elem) -> Seq<Elem> {
    ctx.skip(position(ctx, e) + 1)
}

/// The context with `elems` in place of the unsolved existential `name`.
pub open spec fn inserted_at(ctx: Seq<Elem>, name: Seq<char>, elems: Seq<Elem>) -> Seq<Elem> {
    before(ctx, Elem::ExVar(name)) + elems + after(ctx, Elem::ExVar(name))
}

/// Whether `e` declares the existential `name`, solved or not.
pub open spec fn declares(e: Elem, name: Seq<char>) -> bool {
    match e {
        Elem::ExVar(a) => a == name,
        Elem::ExVarSolved(a, _) => a == name,
        _ => false,
    }
}

/// Whether `e` gives a solution of the existential `name`.
pub open spec fn solves(e: Elem, name: Seq<char>) -> bool {
    match e {
        Elem::ExVarSolved(a, _) => a == name,
        _ => false,
    }
}

/// Whether `e` gives the type of the term variable `name`.
pub open spec fn annotates(e: Elem, name: Seq<char>) -> bool {
    match e {
        Elem::Anno(x, _) => x == name,
        _ => false,
    }
}

/// The type that a solved existential or an annotation carries.
pub open spec fn carried(e: Elem) -> Ty {
    match e {
        Elem::ExVarSolved(_, t) => t,
        Elem::Anno(_, t) => t,
        _ => Ty::Int,
    }
}

/// Whether `i` is the first position of `ctx` that solves `name`.
pub open spec fn first_solution_at(ctx: Seq<Elem>, name: Seq<char>, i: int) -> bool {
    &&& 0 <= i < ctx.len()
    &&& solves(ctx[i], name)
    &&& forall|j: int| 0 <= j < i ==> !solves(#[trigger] ctx[j], name)
}

/// The solution of the first entry that solves `name`.
pub open spec fn solution(ctx: Seq<Elem>, name: Seq<char>) -> Option<Ty> {
    if exists|i: int| first_solution_at(ctx, name, i) {
        Some(carried(ctx[choose|i: int| first_solution_at(ctx, name, i)]))
    } else {
        None
    }
}

/// Whether `i` is the first position of `ctx` that annotates `name`.
pub open spec fn first_annotation_at(ctx: Seq<Elem>, name: Seq<char>, i: int) -> bool {
    &&& 0 <= i < ctx.len()
    &&& annotates(ctx[i], name)
    &&& forall|j: int| 0 <= j < i ==> !annotates(#[trigger] ctx[j], name)
}

/// The type of the first annotation of the term variable `name`.
pub open spec fn annotation(ctx: Seq<Elem>, name: Seq<char>) -> Option<Ty> {
    if exists|i: int| first_annotation_at(ctx, name, i) {
        Some(carried(ctx[choose|i: int| first_annotation_at(ctx, name, i)]))
    } else {
        None
    }
}

/// Whether `i` is the first position of `ctx` that declares `name`.
pub open spec fn first_declaration_at(ctx: Seq<Elem>, name: Seq<char>, i: int) -> bool {
    &&& 0 <= i < ctx.len()
    &&& declares(ctx[i], name)
    &&& forall|j: int| 0 <= j < i ==> !declares(#[trigger] ctx[j], name)
}

/// Whether the existential `first` is declared strictly before the
/// existential `second`, solved or not.
pub open spec fn ordered(ctx: Seq<Elem>, first: Seq<char>, second: Seq<char>) -> bool {
    exists|i: int, j: int|
        first_declaration_at(ctx, first, i) && first_declaration_at(ctx, second, j) && i < j
}

/// The rigid variables in scope, in order.
pub open spec fn universals(ctx: Seq<Elem>) -> Seq<Seq<char>>
    decreases ctx.len(),
{
    if ctx.len() == 0 {
        Seq::empty()
    } else {
        match ctx.last() {
            Elem::Universal(v) => universals(ctx.drop_last()).push(v),
            _ => universals(ctx.drop_last()),
        }
    }
}

/// The markers, in order.
pub open spec fn markers(ctx: Seq<Elem>) -> Seq<Seq<char>>
    decreases ctx.len(),
{
    if ctx.len() == 0 {
        Seq::empty()
    } else {
        match ctx.last() {
            Elem::Marker(m) => markers(ctx.drop_last()).push(m),
            _ => markers(ctx.drop_last()),
        }
    }
}

/// The annotated term variables, in order.
pub open spec fn annotated(ctx: Seq<Elem>) -> Seq<Seq<char>>
    decreases ctx.len(),
{
    if ctx.len() == 0 {
        Seq::empty()
    } else {
        match ctx.last() {
            Elem::Anno(x, _) => annotated(ctx.drop_last()).push(x),
            _ => annotated(ctx.drop_last()),
        }
    }
}

/// The existentials, solved or not, in order.
pub open spec fn existentials(ctx: Seq<Elem>) -> Seq<Seq<char>>
    decreases ctx.len(),
{
    if ctx.len() == 0 {
        Seq::empty()
    } else {
        match ctx.last() {
            Elem::ExVar(a) => existentials(ctx.drop_last()).push(a),
            Elem::ExVarSolved(a, _) => existentials(ctx.drop_last()).push(a),
            _ => existentials(ctx.drop_last()),
        }
    }
}

/// The elements that bring a list of rigid variables into scope.
pub open spec fn as_universals(vars: Seq<Seq<char>>) -> Seq<Elem> {
    Seq::new(vars.len(), |i: int| Elem::Universal(vars[i]))
}

/// Whether some entry of `ctx` solves `name`.
pub open spec fn has_solution(ctx: Seq<Elem>, name: Seq<char>) -> bool {
    exists|i: int| 0 <= i < ctx.len() && solves(#[trigger] ctx[i], name)
}

/// Whether a type is well formed in a context: its variables are in scope,
/// its existentials are declared. The body of a quantifier is taken in the
/// context extended by the variables it binds.
pub open spec fn type_wf(ctx: Seq<Elem>, ty: Ty) -> bool
    decreases ty,
{
    match ty {
        Ty::Int => true,
        Ty::Bool => true,
        Ty::Var(v) => ctx.contains(Elem::Universal(v)),
        Ty::Existential(a) => ctx.contains(Elem::ExVar(a)) || has_solution(ctx, a),
        Ty::Fun { arg, result } => type_wf(ctx, *arg) && type_wf(ctx, *result),
        Ty::Poly { vars, body } => type_wf(ctx + as_universals(vars), *body),
    }
}

/// Whether `e` may follow the well-formed context `prefix`.
pub open spec fn elem_wf(prefix: Seq<Elem>, e: Elem) -> bool {
    match e {
        Elem::Universal(v) => !universals(prefix).contains(v),
        Elem::Anno(x, t) => !annotated(prefix).contains(x) && type_wf(prefix, t),
        Elem::ExVar(a) => !existentials(prefix).contains(a),
        Elem::ExVarSolved(a, t) => !existentials(prefix).contains(a) && type_wf(prefix, t)
            && t.is_mono(),
        Elem::Marker(m) => !markers(prefix).contains(m) && !existentials(prefix).contains(m),
    }
}

/// Whether a context is well formed: each element may follow what stands
/// before it.
pub open spec fn wf(ctx: Seq<Elem>) -> bool
    decreases ctx.len(),
{
    ctx.len() == 0 || (elem_wf(ctx.drop_last(), ctx.last()) && wf(ctx.drop_last()))
}

/// The context with the unsolved existential `name` solved to `ty`, where
/// `ty` is well formed in what stands before `name`.
pub open spec fn solved(ctx: Seq<Elem>, name: Seq<char>, ty: Ty) -> Option<Seq<Elem>> {
    if type_wf(before(ctx, Elem::ExVar(name)), ty) {
        Some(inserted_at(ctx, name, seq![Elem::ExVarSolved(name, ty)]))
    } else {
        None
    }
}

/// The type with every solved existential replaced by its solution, the
/// solutions taken from the right end of the context to the left.
pub open spec fn applied(ctx: Seq<Elem>, ty: Ty) -> Ty
    decreases ctx.len(),
{
    if ctx.len() == 0 {
        ty
    } else {
        match ctx.last() {
            Elem::ExVarSolved(a, t) => applied(ctx.drop_last(), ty.with_solution(a, t)),
            _ => applied(ctx.drop_last(), ty),
        }
    }
}

/// The printed form of an element.
pub open spec fn print_elem(e: Elem) -> Seq<char> {
    match e {
        Elem::Universal(u) => u,
        Elem::ExVar(a) => "{"@ + a + "}"@,
        Elem::ExVarSolved(a, t) => "{"@ + a + "} = "@ + t.print(),
        Elem::Marker(m) => "|> "@ + m,
        Elem::Anno(x, t) => x + " : "@ + t.print(),
    }
}

/// The printed elements of a context, one to a line.
pub open spec fn print_lines(ctx: Seq<Elem>) -> Seq<char>
    decreases ctx.len(),
{
    if ctx.len() == 0 {
        Seq::empty()
    } else {
        print_lines(ctx.drop_last()) + "  "@ + print_elem(ctx.last()) + ",\n"@
    }
}

/// The printed form of a context.
pub open spec fn print_context(ctx: Seq<Elem>) -> Seq<char> {
    "{\n"@ + print_lines(ctx) + "}"@
}

/// Whether the context declares the existential `name`, solved or not.
pub open spec fn declared(ctx: Seq<Elem>, name: Seq<char>) -> bool {
    exists|i: int| 0 <= i < ctx.len() && declares(#[trigger] ctx[i], name)
}

/// The listed existentials are the declared ones.
pub proof fn lemma_existentials_declared(ctx: Seq<Elem>, name: Seq<char>)
    ensures
        existentials(ctx).contains(name) <==> declared(ctx, name),
    decreases ctx.len(),
{
    if ctx.len() > 0 {
        let rest = ctx.drop_last();
        lemma_existentials_declared(rest, name);
        if declared(ctx, name) {
            let i = choose|i: int| 0 <= i < ctx.len() && declares(#[trigger] ctx[i], name);
            if i < rest.len() {
                assert(declares(rest[i], name));
            }
        }
        if declared(rest, name) {
            let i = choose|i: int| 0 <= i < rest.len() && declares(#[trigger] rest[i], name);
            assert(declares(ctx[i], name));
        }
        if declares(ctx.last(), name) {
            assert(declares(ctx[ctx.len() - 1], name));
        }
        match ctx.last() {
            Elem::ExVar(a) => {
                let listed = existentials(rest);
                assert(listed.push(a).contains(name) <==> (listed.contains(name) || a == name)) by {
                    if listed.contains(name) {
                        let k = choose|k: int| 0 <= k < listed.len() && listed[k] == name;
                        assert(listed.push(a)[k] == name);
                    }
                    if a == name {
                        assert(listed.push(a)[listed.len() as int] == name);
                    }
                }
            },
            Elem::ExVarSolved(a, _) => {
                let listed = existentials(rest);
                assert(listed.push(a).contains(name) <==> (listed.contains(name) || a == name)) by {
                    if listed.contains(name) {
                        let k = choose|k: int| 0 <= k < listed.len() && listed[k] == name;
                        assert(listed.push(a)[k] == name);
                    }
                    if a == name {
                        assert(listed.push(a)[listed.len() as int] == name);
                    }
                }
            },
            _ => {},
        }
    }
}

/// The existentials of a well-formed type are declared.
pub proof fn lemma_type_wf_declared(ctx: Seq<Elem>, ty: Ty, name: Seq<char>)
    requires
        type_wf(ctx, ty),
        ty.existentials().contains(name),
    ensures
        declared(ctx, name),
    decreases ty,
{
    match ty {
        Ty::Existential(a) => {
            if ctx.contains(Elem::ExVar(a)) {
                let i = choose|i: int| 0 <= i < ctx.len() && ctx[i] == Elem::ExVar(a);
                assert(declares(ctx[i], name));
            } else {
                let i = choose|i: int| 0 <= i < ctx.len() && solves(#[trigger] ctx[i], a);
                assert(declares(ctx[i], name));
            }
        },
        Ty::Fun { arg, result } => {
            if arg.existentials().contains(name) {
                lemma_type_wf_declared(ctx, *arg, name);
            } else {
                lemma_type_wf_declared(ctx, *result, name);
            }
        },
        Ty::Poly { vars, body } => {
            let longer = ctx + as_universals(vars);
            lemma_type_wf_declared(longer, *body, name);
            let i = choose|i: int| 0 <= i < longer.len() && declares(#[trigger] longer[i], name);
            if i >= ctx.len() {
                assert(longer[i] == as_universals(vars)[i - ctx.len()]);
            } else {
                assert(declares(ctx[i], name));
            }
        },
        _ => {},
    }
}

/// In a well-formed context, applying the context brings in no existential
/// that is neither in the type nor declared in the context.
pub proof fn lemma_applied_existentials(ctx: Seq<Elem>, ty: Ty, name: Seq<char>)
    requires
        wf(ctx),
        applied(ctx, ty).existentials().contains(name),
    ensures
        ty.existentials().contains(name) || declared(ctx, name),
    decreases ctx.len(),
{
    if ctx.len() > 0 {
        let rest = ctx.drop_last();
        match ctx.last() {
            Elem::ExVarSolved(a, t) => {
                let next = ty.with_solution(a, t);
                lemma_applied_existentials(rest, next, name);
                if declared(rest, name) {
                    let i = choose|i: int| 0 <= i < rest.len() && declares(#[trigger] rest[i], name);
                    assert(declares(ctx[i], name));
                } else {
                    lemma_with_solution_existentials(ty, a, t);
                    if t.existentials().contains(name) {
                        lemma_type_wf_declared(rest, t, name);
                    }
                }
            },
            _ => {
                lemma_applied_existentials(rest, ty, name);
                if declared(rest, name) {
                    let i = choose|i: int| 0 <= i < rest.len() && declares(#[trigger] rest[i], name);
                    assert(declares(ctx[i], name));
                }
            },
        }
    }
}

/// Applying a well-formed context twice gives what applying it once gives.
pub proof fn lemma_applied_idempotent(ctx: Seq<Elem>, ty: Ty)
    requires
        wf(ctx),
    ensures
        applied(ctx, applied(ctx, ty)) == applied(ctx, ty),
    decreases ctx.len(),
{
    if ctx.len() > 0 {
        let rest = ctx.drop_last();
        match ctx.last() {
            Elem::ExVarSolved(a, t) => {
                let next = ty.with_solution(a, t);
                let once = applied(rest, next);
                lemma_applied_idempotent(rest, next);
                lemma_existentials_declared(rest, a);
                // The solved existential is gone once its solution is put in.
                assert(!t.existentials().contains(a)) by {
                    if t.existentials().contains(a) {
                        lemma_type_wf_declared(rest, t, a);
                    }
                }
                lemma_with_solution_existentials(ty, a, t);
                assert(!once.existentials().contains(a)) by {
                    if once.existentials().contains(a) {
                        lemma_applied_existentials(rest, next, a);
                    }
                }
                lemma_with_solution_absent(once, a, t);
            },
            _ => {
                lemma_applied_idempotent(rest, ty);
            },
        }
    }
}

/// In a well-formed context each element may follow what stands before it,
/// and what stands before an element is well formed.
pub proof fn lemma_wf_entry(ctx: Seq<Elem>, i: int)
    requires
        wf(ctx),
        0 <= i < ctx.len(),
    ensures
        elem_wf(ctx.take(i), ctx[i]),
        wf(ctx.take(i)),
    decreases ctx.len(),
{
    let rest = ctx.drop_last();
    if i == ctx.len() - 1 {
        assert(ctx.take(i) =~= rest);
    } else {
        lemma_wf_entry(rest, i);
        assert(rest.take(i) =~= ctx.take(i));
    }
}

/// What is declared in a part of a context is declared in the context.
pub proof fn lemma_declared_take(ctx: Seq<Elem>, k: int, name: Seq<char>)
    requires
        0 <= k <= ctx.len(),
        declared(ctx.take(k), name),
    ensures
        declared(ctx, name),
{
    let part = ctx.take(k);
    let i = choose|i: int| 0 <= i < part.len() && declares(#[trigger] part[i], name);
    assert(declares(ctx[i], name));
}

/// The solution of an existential in a context whose last element does not
/// solve it is its solution in what stands before that element.
pub proof fn lemma_solution_before_last(ctx: Seq<Elem>, name: Seq<char>)
    requires
        ctx.len() > 0,
        !solves(ctx.last(), name),
    ensures
        solution(ctx, name) == solution(ctx.drop_last(), name),
{
    let rest = ctx.drop_last();
    if exists|i: int| first_solution_at(ctx, name, i) {
        let i = choose|i: int| first_solution_at(ctx, name, i);
        assert(first_solution_at(rest, name, i)) by {
            assert(rest[i] == ctx[i]);
            assert forall|j: int| 0 <= j < i implies !solves(#[trigger] rest[j], name) by {
                assert(rest[j] == ctx[j]);
            }
        }
        let k = choose|k: int| first_solution_at(rest, name, k);
        assert(k == i);
    } else {
        if exists|k: int| first_solution_at(rest, name, k) {
            let k = choose|k: int| first_solution_at(rest, name, k);
            assert(first_solution_at(ctx, name, k)) by {
                assert(rest[k] == ctx[k]);
                assert forall|j: int| 0 <= j < k implies !solves(#[trigger] ctx[j], name) by {
                    assert(rest[j] == ctx[j]);
                }
            }
        }
    }
}

/// Applying a context goes into the parts of a type, and leaves
/// primitives and variables as they are.
pub proof fn lemma_applied_parts(ctx: Seq<Elem>, ty: Ty)
    ensures
        ty is Int || ty is Bool || ty is Var ==> applied(ctx, ty) == ty,
        ty matches Ty::Fun { arg, result } ==> applied(ctx, ty) == (Ty::Fun {
            arg: Box::new(applied(ctx, *arg)),
            result: Box::new(applied(ctx, *result)),
        }),
        ty matches Ty::Poly { vars, body } ==> applied(ctx, ty) == (Ty::Poly {
            vars,
            body: Box::new(applied(ctx, *body)),
        }),
    decreases ctx.len(),
{
    if ctx.len() > 0 {
        let rest = ctx.drop_last();
        match ctx.last() {
            Elem::ExVarSolved(a, t) => {
                lemma_applied_parts(rest, ty.with_solution(a, t));
            },
            _ => {
                lemma_applied_parts(rest, ty);
            },
        }
    }
}

/// In a well-formed context, applying the context to an existential gives
/// the existential where it is unsolved, and what applying the context to
/// its solution gives where it is solved.
pub proof fn lemma_applied_existential(ctx: Seq<Elem>, name: Seq<char>)
    requires
        wf(ctx),
    ensures
        applied(ctx, Ty::Existential(name)) == match solution(ctx, name) {
            Some(ty) => applied(ctx, ty),
            None => Ty::Existential(name),
        },
    decreases ctx.len(),
{
    if ctx.len() == 0 {
        assert(solution(ctx, name) is None);
    } else {
        let rest = ctx.drop_last();
        let last = ctx.len() - 1;
        lemma_applied_existential(rest, name);
        match ctx.last() {
            Elem::ExVarSolved(b, t) => {
                lemma_existentials_declared(rest, b);
                // The solution of the last element speaks of nothing that
                // the element declares.
                assert(!t.existentials().contains(b)) by {
                    if t.existentials().contains(b) {
                        lemma_type_wf_declared(rest, t, b);
                    }
                }
                if b == name {
                    assert(first_solution_at(ctx, name, last)) by {
                        assert forall|j: int| 0 <= j < last implies !solves(#[trigger] ctx[j], name) by {
                            if solves(ctx[j], name) {
                                assert(declares(rest[j], name));
                            }
                        }
                    }
                    let k = choose|k: int| first_solution_at(ctx, name, k);
                    assert(k == last);
                    lemma_with_solution_absent(t, b, t);
                } else {
                    lemma_solution_before_last(ctx, name);
                    if exists|i: int| first_solution_at(rest, name, i) {
                        let i = choose|i: int| first_solution_at(rest, name, i);
                        let found = carried(rest[i]);
                        lemma_wf_entry(rest, i);
                        assert(!found.existentials().contains(b)) by {
                            if found.existentials().contains(b) {
                                lemma_type_wf_declared(rest.take(i), found, b);
                                lemma_declared_take(rest, i, b);
                            }
                        }
                        lemma_with_solution_absent(found, b, t);
                    }
                }
            },
            _ => {
                lemma_solution_before_last(ctx, name);
            },
        }
    }
}

/// A well-formed context declares each existential once.
pub proof fn lemma_wf_unique(ctx: Seq<Elem>, i: int, j: int, name: Seq<char>)
    requires
        wf(ctx),
        0 <= i < ctx.len(),
        0 <= j < ctx.len(),
        declares(ctx[i], name),
        declares(ctx[j], name),
    ensures
        i == j,
{
    if i < j {
        lemma_wf_entry(ctx, j);
        lemma_existentials_declared(ctx.take(j), name);
        assert(declares(ctx.take(j)[i], name));
    } else if j < i {
        lemma_wf_entry(ctx, i);
        lemma_existentials_declared(ctx.take(i), name);
        assert(declares(ctx.take(i)[j], name));
    }
}

/// In a well-formed context, what applying the context gives holds no
/// solved existential.
pub proof fn lemma_applied_unsolved(ctx: Seq<Elem>, ty: Ty, name: Seq<char>)
    requires
        wf(ctx),
        applied(ctx, ty).existentials().contains(name),
    ensures
        !has_solution(ctx, name),
    decreases ctx.len(),
{
    if ctx.len() > 0 {
        let rest = ctx.drop_last();
        let next = match ctx.last() {
            Elem::ExVarSolved(a, t) => ty.with_solution(a, t),
            _ => ty,
        };
        lemma_applied_unsolved(rest, next, name);
        if has_solution(ctx, name) {
            let i = choose|i: int| 0 <= i < ctx.len() && solves(#[trigger] ctx[i], name);
            if i < rest.len() {
                assert(solves(rest[i], name));
            } else {
                // The last element solves the name: then the name is gone.
                match ctx.last() {
                    Elem::ExVarSolved(a, t) => {
                        lemma_existentials_declared(rest, a);
                        lemma_applied_existentials(rest, next, a);
                        lemma_with_solution_existentials(ty, a, t);
                        if t.existentials().contains(a) {
                            lemma_type_wf_declared(rest, t, a);
                        }
                    },
                    _ => {},
                }
            }
        }
    }
}

/// Applying a context leaves the existentials of a type within a set of
/// names that holds them, where the solutions of those names stay within
/// the set.
pub proof fn lemma_applied_closed(ctx: Seq<Elem>, ty: Ty, within: Set<Seq<char>>)
    requires
        ty.existentials().subset_of(within),
        forall|i: int|
            0 <= i < ctx.len() && (#[trigger] ctx[i]) is ExVarSolved && within.contains(ctx[i]->ExVarSolved_0)
                ==> carried(ctx[i]).existentials().subset_of(within),
    ensures
        applied(ctx, ty).existentials().subset_of(within),
    decreases ctx.len(),
{
    if ctx.len() > 0 {
        let rest = ctx.drop_last();
        assert forall|i: int|
            0 <= i < rest.len() && (#[trigger] rest[i]) is ExVarSolved && within.contains(
                rest[i]->ExVarSolved_0,
            ) implies carried(rest[i]).existentials().subset_of(within) by {
            assert(rest[i] == ctx[i]);
        }
        match ctx.last() {
            Elem::ExVarSolved(a, t) => {
                let next = ty.with_solution(a, t);
                if ty.existentials().contains(a) {
                    assert(ctx[ctx.len() - 1] is ExVarSolved);
                    lemma_with_solution_existentials(ty, a, t);
                } else {
                    lemma_with_solution_absent(ty, a, t);
                }
                lemma_applied_closed(rest, next, within);
            },
            _ => {
                lemma_applied_closed(rest, ty, within);
            },
        }
    }
}

/// In a well-formed context, applying the context brings in no binder.
pub proof fn lemma_applied_binders(ctx: Seq<Elem>, ty: Ty)
    requires
        wf(ctx),
    ensures
        applied(ctx, ty).binders().subset_of(ty.binders()),
    decreases ctx.len(),
{
    if ctx.len() > 0 {
        let rest = ctx.drop_last();
        match ctx.last() {
            Elem::ExVarSolved(a, t) => {
                lemma_mono_binders(t);
                lemma_with_solution_binders(ty, a, t);
                lemma_applied_binders(rest, ty.with_solution(a, t));
            },
            _ => {
                lemma_applied_binders(rest, ty);
            },
        }
    }
}

/// An existential that is declared and not solved is an unsolved
/// existential of the context.
pub proof fn lemma_declared_unsolved(ctx: Seq<Elem>, name: Seq<char>)
    requires
        declared(ctx, name),
        !has_solution(ctx, name),
    ensures
        ctx.contains(Elem::ExVar(name)),
{
    let i = choose|i: int| 0 <= i < ctx.len() && declares(#[trigger] ctx[i], name);
    if !(ctx[i] is ExVar) {
        assert(solves(ctx[i], name));
    }
    assert(ctx[i] == Elem::ExVar(name));
}

/// The number of unsolved existentials.
pub open spec fn unsolved(ctx: Seq<Elem>) -> nat
    decreases ctx.len(),
{
    if ctx.len() == 0 {
        0
    } else if ctx.last() is ExVar {
        1 + unsolved(ctx.drop_last())
    } else {
        unsolved(ctx.drop_last())
    }
}

/// The unsolved existentials of a context followed by more elements are
/// those of the two.
pub proof fn lemma_unsolved_appended(ctx: Seq<Elem>, more: Seq<Elem>)
    ensures
        unsolved(ctx + more) == unsolved(ctx) + unsolved(more),
    decreases more.len(),
{
    if more.len() == 0 {
        assert(ctx + more =~= ctx);
    } else {
        lemma_unsolved_appended(ctx, more.drop_last());
        assert((ctx + more).drop_last() =~= ctx + more.drop_last());
        assert((ctx + more).last() == more.last());
    }
}

/// Putting elements in place of an unsolved existential takes one unsolved
/// existential away and brings in those of the elements.
pub proof fn lemma_unsolved_inserted(ctx: Seq<Elem>, name: Seq<char>, elems: Seq<Elem>)
    requires
        ctx.contains(Elem::ExVar(name)),
    ensures
        unsolved(inserted_at(ctx, name, elems)) + 1 == unsolved(ctx) + unsolved(elems),
{
    let e = Elem::ExVar(name);
    lemma_position_exists(ctx, e);
    let p = position(ctx, e);
    let left = ctx.take(p);
    let right = ctx.skip(p + 1);
    let one = seq![e];
    assert(ctx =~= left + one + right);
    lemma_unsolved_appended(left, one);
    lemma_unsolved_appended(left + one, right);
    lemma_unsolved_appended(left, elems);
    lemma_unsolved_appended(left + elems, right);
    assert(one.drop_last() =~= Seq::<Elem>::empty());
    assert(one.last() == e);
    assert(unsolved(one) == 1) by {
        reveal_with_fuel(unsolved, 2);
    }
}

/// In a well-formed context, the solution of an existential is that of
/// the element that solves it.
pub proof fn lemma_solution_of(ctx: Seq<Elem>, i: int)
    requires
        wf(ctx),
        0 <= i < ctx.len(),
        ctx[i] is ExVarSolved,
    ensures
        solution(ctx, ctx[i]->ExVarSolved_0) == Some(carried(ctx[i])),
{
    let name = ctx[i]->ExVarSolved_0;
    assert(first_solution_at(ctx, name, i)) by {
        assert forall|j: int| 0 <= j < i implies !solves(#[trigger] ctx[j], name) by {
            if solves(ctx[j], name) {
                lemma_wf_unique(ctx, i, j, name);
            }
        }
    }
    let k = choose|k: int| first_solution_at(ctx, name, k);
    assert(k == i);
}

/// In a well-formed context, applying the context leaves an unsolved
/// existential as it is.
pub proof fn lemma_applied_unsolved_existential(ctx: Seq<Elem>, name: Seq<char>)
    requires
        wf(ctx),
        ctx.contains(Elem::ExVar(name)),
    ensures
        applied(ctx, Ty::Existential(name)) == Ty::Existential(name),
{
    lemma_applied_existential(ctx, name);
    if exists|i: int| first_solution_at(ctx, name, i) {
        let i = choose|i: int| first_solution_at(ctx, name, i);
        let j = choose|j: int| 0 <= j < ctx.len() && ctx[j] == Elem::ExVar(name);
        lemma_wf_unique(ctx, i, j, name);
    }
}

/// In a well-formed context, applying the context takes no notice of
/// whether a solution that the context holds is put in beforehand.
pub proof fn lemma_with_solution_absorbed(ctx: Seq<Elem>, ty: Ty, i: int)
    requires
        wf(ctx),
        0 <= i < ctx.len(),
        ctx[i] is ExVarSolved,
    ensures
        applied(ctx, ty.with_solution(ctx[i]->ExVarSolved_0, carried(ctx[i]))) == applied(ctx, ty),
    decreases ty,
{
    let name = ctx[i]->ExVarSolved_0;
    let sol = carried(ctx[i]);
    lemma_applied_parts(ctx, ty);
    lemma_applied_parts(ctx, ty.with_solution(name, sol));
    match ty {
        Ty::Existential(e) => {
            if e == name {
                lemma_applied_existential(ctx, name);
                lemma_solution_of(ctx, i);
            }
        },
        Ty::Fun { arg, result } => {
            lemma_with_solution_absorbed(ctx, *arg, i);
            lemma_with_solution_absorbed(ctx, *result, i);
        },
        Ty::Poly { vars, body } => {
            lemma_with_solution_absorbed(ctx, *body, i);
        },
        _ => {},
    }
}

/// Applying a well-formed context to what a part of another context gave,
/// whose solutions it holds, gives what applying it at once gives.
pub proof fn lemma_applied_composed(part: Seq<Elem>, ctx: Seq<Elem>, ty: Ty)
    requires
        wf(ctx),
        forall|i: int| 0 <= i < part.len() && (#[trigger] part[i]) is ExVarSolved ==> ctx.contains(part[i]),
    ensures
        applied(ctx, applied(part, ty)) == applied(ctx, ty),
    decreases part.len(),
{
    if part.len() > 0 {
        let rest = part.drop_last();
        assert forall|i: int| 0 <= i < rest.len() && (#[trigger] rest[i]) is ExVarSolved implies ctx.contains(
            rest[i],
        ) by {
            assert(rest[i] == part[i]);
        }
        match part.last() {
            Elem::ExVarSolved(a, t) => {
                assert(part[part.len() - 1] is ExVarSolved);
                let j = choose|j: int| 0 <= j < ctx.len() && ctx[j] == part.last();
                lemma_applied_composed(rest, ctx, ty.with_solution(a, t));
                lemma_with_solution_absorbed(ctx, ty, j);
            },
            _ => {
                lemma_applied_composed(rest, ctx, ty);
            },
        }
    }
}

/// In a well-formed context, applying the context to a type whose
/// existentials are declared in a part of the context is applying that
/// part.
pub proof fn lemma_applied_prefix(ctx: Seq<Elem>, k: int, ty: Ty)
    requires
        wf(ctx),
        0 <= k <= ctx.len(),
        forall|n: Seq<char>| #[trigger] ty.existentials().contains(n) ==> declared(ctx.take(k), n),
    ensures
        applied(ctx, ty) == applied(ctx.take(k), ty),
    decreases ctx.len() - k,
{
    if k == ctx.len() {
        assert(ctx.take(k) =~= ctx);
    } else {
        let rest = ctx.drop_last();
        let last = ctx.len() - 1;
        assert(rest.take(k) =~= ctx.take(k));
        match ctx.last() {
            Elem::ExVarSolved(a, t) => {
                if ty.existentials().contains(a) {
                    let j = choose|j: int| 0 <= j < ctx.take(k).len() && declares(
                        #[trigger] ctx.take(k)[j],
                        a,
                    );
                    assert(declares(ctx[j], a));
                    lemma_wf_unique(ctx, j, last, a);
                }
                lemma_with_solution_absent(ty, a, t);
            },
            _ => {},
        }
        lemma_applied_prefix(rest, k, ty);
    }
}

/// Applying a context changes the number of nodes of a type not, where it
/// takes each existential of the type to a primitive, a variable or an
/// existential.
pub proof fn lemma_applied_size(ctx: Seq<Elem>, ty: Ty)
    requires
        forall|n: Seq<char>| #[trigger] ty.existentials().contains(n) ==> applied(ctx, Ty::Existential(n)).size() == 1,
    ensures
        applied(ctx, ty).size() == ty.size(),
    decreases ty,
{
    lemma_applied_parts(ctx, ty);
    match ty {
        Ty::Existential(n) => {
            assert(ty.existentials().contains(n));
        },
        Ty::Fun { arg, result } => {
            assert forall|n: Seq<char>| #[trigger] arg.existentials().contains(n) implies applied(
                ctx,
                Ty::Existential(n),
            ).size() == 1 by {
                assert(ty.existentials().contains(n));
            }
            assert forall|n: Seq<char>| #[trigger] result.existentials().contains(n) implies applied(
                ctx,
                Ty::Existential(n),
            ).size() == 1 by {
                assert(ty.existentials().contains(n));
            }
            lemma_applied_size(ctx, *arg);
            lemma_applied_size(ctx, *result);
        },
        Ty::Poly { vars, body } => {
            assert forall|n: Seq<char>| #[trigger] body.existentials().contains(n) implies applied(
                ctx,
                Ty::Existential(n),
            ).size() == 1 by {
                assert(ty.existentials().contains(n));
            }
            lemma_applied_size(ctx, *body);
        },
        _ => {},
    }
}

/// In a well-formed context, applying the context changes the number of
/// quantifiers of a type not.
pub proof fn lemma_applied_quantifiers(ctx: Seq<Elem>, ty: Ty)
    requires
        wf(ctx),
    ensures
        applied(ctx, ty).quantifiers() == ty.quantifiers(),
    decreases ctx.len(),
{
    if ctx.len() > 0 {
        let rest = ctx.drop_last();
        match ctx.last() {
            Elem::ExVarSolved(a, t) => {
                lemma_with_solution_quantifiers(ty, a, t);
                lemma_applied_quantifiers(rest, ty.with_solution(a, t));
            },
            _ => {
                lemma_applied_quantifiers(rest, ty);
            },
        }
    }
}

/// In a well-formed context, applying the context leaves a type as it is
/// whose existentials are unsolved.
pub proof fn lemma_applied_open(ctx: Seq<Elem>, ty: Ty)
    requires
        wf(ctx),
        forall|n: Seq<char>| #[trigger] ty.existentials().contains(n) ==> ctx.contains(Elem::ExVar(n)),
    ensures
        applied(ctx, ty) == ty,
    decreases ty,
{
    lemma_applied_parts(ctx, ty);
    match ty {
        Ty::Existential(n) => {
            assert(ty.existentials().contains(n));
            lemma_applied_unsolved_existential(ctx, n);
        },
        Ty::Fun { arg, result } => {
            assert forall|n: Seq<char>| #[trigger] arg.existentials().contains(n) implies ctx.contains(
                Elem::ExVar(n),
            ) by {
                assert(ty.existentials().contains(n));
            }
            assert forall|n: Seq<char>| #[trigger] result.existentials().contains(n) implies ctx.contains(
                Elem::ExVar(n),
            ) by {
                assert(ty.existentials().contains(n));
            }
            lemma_applied_open(ctx, *arg);
            lemma_applied_open(ctx, *result);
        },
        Ty::Poly { vars, body } => {
            assert forall|n: Seq<char>| #[trigger] body.existentials().contains(n) implies ctx.contains(
                Elem::ExVar(n),
            ) by {
                assert(ty.existentials().contains(n));
            }
            lemma_applied_open(ctx, *body);
        },
        _ => {},
    }
}

/// The first position that holds an element is unique.
pub proof fn lemma_position(ctx: Seq<Elem>, e: Elem, i: int)
    requires
        first_at(ctx, e, i),
    ensures
        position(ctx, e) == i,
        ctx.contains(e),
{
    let p = position(ctx, e);
    assert(first_at(ctx, e, p));
}

/// An element that occurs has a first position.
pub proof fn lemma_position_exists(ctx: Seq<Elem>, e: Elem)
    requires
        ctx.contains(e),
    ensures
        first_at(ctx, e, position(ctx, e)),
    decreases ctx.len(),
{
    let k = choose|k: int| 0 <= k < ctx.len() && ctx[k] == e;
    if exists|j: int| 0 <= j < k && ctx[j] == e {
        let j = choose|j: int| 0 <= j < k && ctx[j] == e;
        let shorter = ctx.take(k);
        assert(shorter[j] == e);
        lemma_position_exists(shorter, e);
        let p = position(shorter, e);
        assert(first_at(ctx, e, p)) by {
            assert(ctx[p] == shorter[p]);
            assert forall|m: int| 0 <= m < p implies ctx[m] != e by {
                assert(shorter[m] != e);
            }
        }
    } else {
        assert(first_at(ctx, e, k));
    }
}

impl Clone for ContextElem {
    fn clone(&self) -> (r: ContextElem)
        ensures
            r@ == self@,
    {
        match self {
            ContextElem::Universal(v) => ContextElem::Universal(v.clone()),
            ContextElem::ExVar(e) => ContextElem::ExVar(e.clone()),
            ContextElem::ExVarSolved(e, t) => ContextElem::ExVarSolved(e.clone(), t.clone()),
            ContextElem::Marker(m) => ContextElem::Marker(m.clone()),
            ContextElem::Anno(x, t) => ContextElem::Anno(x.clone(), t.clone()),
        }
    }
}

impl ContextElem {
    /// Structural equality.
    pub fn same(&self, other: &ContextElem) -> (r: bool)
        ensures
            r == (self@ == other@),
    {
        match self {
            ContextElem::Universal(a) => match other {
                ContextElem::Universal(b) => *a == *b,
                _ => false,
            },
            ContextElem::ExVar(a) => match other {
                ContextElem::ExVar(b) => *a == *b,
                _ => false,
            },
            ContextElem::ExVarSolved(a, s) => match other {
                ContextElem::ExVarSolved(b, t) => *a == *b && s.same(t),
                _ => false,
            },
            ContextElem::Marker(a) => match other {
                ContextElem::Marker(b) => *a == *b,
                _ => false,
            },
            ContextElem::Anno(a, s) => match other {
                ContextElem::Anno(b, t) => *a == *b && s.same(t),
                _ => false,
            },
        }
    }

    /// The printed form.
    pub fn print(&self) -> (r: String)
        ensures
            r@ == print_elem(self@),
    {
        match self {
            ContextElem::Universal(u) => u.clone(),
            ContextElem::ExVar(ex) => {
                let mut out = "{".to_owned();
                out.append(ex.as_str());
                out.append("}");
                out
            },
            ContextElem::ExVarSolved(ex, ty) => {
                let mut out = "{".to_owned();
                out.append(ex.as_str());
                out.append("} = ");
                let printed = ty.print();
                out.append(printed.as_str());
                out
            },
            ContextElem::Marker(marker) => {
                let mut out = "|> ".to_owned();
                out.append(marker.as_str());
                out
            },
            ContextElem::Anno(var, ty) => {
                let mut out = var.clone();
                out.append(" : ");
                let printed = ty.print();
                out.append(printed.as_str());
                out
            },
        }
    }
}

impl PartialEq for ContextElem {
    fn eq(&self, other: &ContextElem) -> (r: bool) {
        self.same(other)
    }
}

impl vstd::std_specs::cmp::PartialEqSpecImpl for ContextElem {
    open spec fn obeys_eq_spec() -> bool {
        true
    }

    open spec fn eq_spec(&self, other: &ContextElem) -> bool {
        self@ == other@
    }
}

impl Eq for ContextElem {}

/// Copies a run of elements.
pub fn clone_elems(elems: &[ContextElem]) -> (r: Vec<ContextElem>)
    ensures
        models(r@) == models(elems@),
{
    let mut out: Vec<ContextElem> = Vec::new();
    let mut i: usize = 0;
    while i < elems.len()
        invariant
            i <= elems.len(),
            out.len() == i,
            forall|j: int| 0 <= j < i ==> out[j]@ == elems[j]@,
        decreases elems.len() - i,
    {
        out.push(elems[i].clone());
        i = i + 1;
    }
    assert(models(out@) =~= models(elems@));
    out
}

/// An ordered context.
#[derive(Debug)]
pub struct Context {
    elems: Vec<ContextElem>,
}

impl View for Context {
    type V = Seq<Elem>;

    closed spec fn view(&self) -> Seq<Elem> {
        models(self.elems@)
    }
}

impl Clone for Context {
    fn clone(&self) -> (r: Context)
        ensures
            r@ == self@,
    {
        Context { elems: clone_elems(self.elems.as_slice()) }
    }
}

/// The first declaration of an existential is unique.
proof fn lemma_first_declaration_unique(ctx: Seq<Elem>, name: Seq<char>, i: int, j: int)
    requires
        first_declaration_at(ctx, name, i),
        first_declaration_at(ctx, name, j),
    ensures
        i == j,
{
}

impl Context {
    /// The context that holds `elems`, in their order.
    pub fn new(elems: Vec<ContextElem>) -> (r: Context)
        ensures
            r@ == models(elems@),
    {
        Context { elems }
    }

    /// The number of elements.
    pub fn len(&self) -> (r: usize)
        ensures
            r == self@.len(),
    {
        self.elems.len()
    }

    /// The printed form: an opening brace, each element on a line of its own
    /// behind two blanks and before a comma, and a closing brace.
    pub fn print(&self) -> (r: String)
        ensures
            r@ == print_context(self@),
    {
        let mut res = "{\n".to_owned();
        let mut i: usize = 0;
        while i < self.elems.len()
            invariant
                i <= self.elems.len(),
                res@ == "{\n"@ + print_lines(self@.take(i as int)),
            decreases self.elems.len() - i,
        {
            let printed = self.elems[i].print();
            res.append("  ");
            res.append(printed.as_str());
            res.append(",\n");
            proof {
                assert(self@.take(i + 1).drop_last() =~= self@.take(i as int));
                assert(self@.take(i + 1).last() == self.elems[i as int]@);
                assert(res@ =~= "{\n"@ + print_lines(self@.take(i + 1)));
            }
            i = i + 1;
        }
        assert(self@.take(i as int) =~= self@);
        res.append("}");
        res
    }

    /// The first position that holds `elem`.
    fn position(&self, elem: &ContextElem) -> (r: Option<usize>)
        ensures
            match r {
                Some(i) => first_at(self@, elem@, i as int) && position(self@, elem@) == i,
                None => !self@.contains(elem@),
            },
    {
        let mut i: usize = 0;
        while i < self.elems.len()
            invariant
                i <= self.elems.len(),
                forall|j: int| 0 <= j < i ==> self@[j] != elem@,
            decreases self.elems.len() - i,
        {
            if self.elems[i].same(elem) {
                proof {
                    lemma_position(self@, elem@, i as int);
                }
                return Some(i);
            }
            i = i + 1;
        }
        None
    }

    /// Splits the context at the first element equal to `elem`: what stands
    /// before it, and the rest, which begins with it.
    pub fn split_at(&self, elem: &ContextElem) -> (r: Option<(&[ContextElem], &[ContextElem])>)
        ensures
            match r {
                Some((left, right)) => {
                    &&& self@.contains(elem@)
                    &&& first_at(self@, elem@, left@.len() as int)
                    &&& models(left@) == before(self@, elem@)
                    &&& models(right@) == self@.skip(position(self@, elem@))
                },
                None => !self@.contains(elem@),
            },
    {
        match self.position(elem) {
            Some(pos) => {
                let (left, right) = self.elems.as_slice().split_at(pos);
                assert(models(left@) =~= before(self@, elem@));
                assert(models(right@) =~= self@.skip(position(self@, elem@)));
                Some((left, right))
            },
            None => None,
        }
    }

    /// Splits the context at the unsolved existential `ex`: what stands before
    /// it, the element itself, and what stands after it.
    pub fn split_at_ex(&self, ex: &String) -> (r: Option<(&[ContextElem], &ContextElem, &[ContextElem])>)
        ensures
            match r {
                Some((left, found, right)) => {
                    &&& self@.contains(Elem::ExVar(ex@))
                    &&& first_at(self@, Elem::ExVar(ex@), left@.len() as int)
                    &&& found@ == Elem::ExVar(ex@)
                    &&& models(left@) == before(self@, Elem::ExVar(ex@))
                    &&& models(right@) == after(self@, Elem::ExVar(ex@))
                },
                None => !self@.contains(Elem::ExVar(ex@)),
            },
    {
        let wanted = ContextElem::ExVar(ex.clone());
        match self.position(&wanted) {
            Some(pos) => {
                let (left, rest) = self.elems.as_slice().split_at(pos);
                let (found, right) = rest.split_at(1);
                assert(models(left@) =~= before(self@, Elem::ExVar(ex@)));
                assert(models(right@) =~= after(self@, Elem::ExVar(ex@)));
                Some((left, &found[0], right))
            },
            None => None,
        }
    }

    /// Whether the context holds `elem`.
    pub fn elem(&self, elem: &ContextElem) -> (r: bool)
        ensures
            r == self@.contains(elem@),
    {
        self.split_at(elem).is_some()
    }

    /// Appends an element.
    pub fn push(&mut self, elem: ContextElem)
        ensures
            final(self)@ == old(self)@.push(elem@),
    {
        self.elems.push(elem);
        assert(self@ =~= old(self)@.push(elem@));
    }

    /// Appends elements, in their order.
    pub fn push_elems(&mut self, elems: Vec<ContextElem>)
        ensures
            final(self)@ == old(self)@ + models(elems@),
    {
        let mut elems = elems;
        let ghost added = models(elems@);
        self.elems.append(&mut elems);
        assert(self@ =~= old(self)@ + added);
    }

    /// The context with `elems` in place of the unsolved existential `ex`.
    pub fn insert_at_ex(&self, ex: &String, elems: Vec<ContextElem>) -> (r: Context)
        requires
            self@.contains(Elem::ExVar(ex@)),
        ensures
            r@ == inserted_at(self@, ex@, models(elems@)),
    {
        let mut elems = elems;
        let ghost added = models(elems@);
        match self.split_at_ex(ex) {
            Some((left, _, right)) => {
                let mut new_elems = clone_elems(left);
                new_elems.append(&mut elems);
                let mut tail = clone_elems(right);
                new_elems.append(&mut tail);
                assert(models(new_elems@) =~= inserted_at(self@, ex@, added));
                Context::new(new_elems)
            },
            None => Context::new(Vec::new()),
        }
    }

    /// Cuts the context off before the first element equal to `marker`.
    pub fn drop_marker(&mut self, marker: ContextElem)
        requires
            old(self)@.contains(marker@),
        ensures
            final(self)@ == before(old(self)@, marker@),
            first_at(old(self)@, marker@, final(self)@.len() as int),
    {
        match self.position(&marker) {
            Some(pos) => {
                self.elems.truncate(pos);
                assert(self@ =~= before(old(self)@, marker@));
            },
            None => {},
        }
    }

    /// What stands before the first element equal to `marker`, and what
    /// stands after it.
    pub fn break_marker(&self, marker: ContextElem) -> (r: (Vec<ContextElem>, Vec<ContextElem>))
        requires
            self@.contains(marker@),
        ensures
            models(r.0@) == before(self@, marker@),
            models(r.1@) == after(self@, marker@),
            first_at(self@, marker@, r.0@.len() as int),
    {
        match self.position(&marker) {
            Some(pos) => {
                let (left, rest) = self.elems.as_slice().split_at(pos);
                let (_, right) = rest.split_at(1);
                let l = clone_elems(left);
                let r = clone_elems(right);
                assert(models(l@) =~= before(self@, marker@));
                assert(models(r@) =~= after(self@, marker@));
                (l, r)
            },
            None => (Vec::new(), Vec::new()),
        }
    }

    /// The markers, in order.
    pub fn markers(&self) -> (r: Vec<String>)
        ensures
            names_view(r) == markers(self@),
    {
        let mut out: Vec<String> = Vec::new();
        let mut i: usize = 0;
        assert(names_view(out) =~= markers(self@.take(0)));
        while i < self.elems.len()
            invariant
                i <= self.elems.len(),
                names_view(out) == markers(self@.take(i as int)),
            decreases self.elems.len() - i,
        {
            proof {
                assert(self@.take(i + 1).drop_last() =~= self@.take(i as int));
                assert(self@.take(i + 1).last() == self.elems[i as int]@);
            }
            let ghost prev = names_view(out);
            match &self.elems[i] {
                ContextElem::Marker(m) => {
                    out.push(m.clone());
                    assert(names_view(out) =~= prev.push(m@));
                },
                _ => {},
            }
            i = i + 1;
        }
        assert(self@.take(i as int) =~= self@);
        out
    }

    /// The annotated term variables, in order.
    pub fn vars(&self) -> (r: Vec<String>)
        ensures
            names_view(r) == annotated(self@),
    {
        let mut out: Vec<String> = Vec::new();
        let mut i: usize = 0;
        assert(names_view(out) =~= annotated(self@.take(0)));
        while i < self.elems.len()
            invariant
                i <= self.elems.len(),
                names_view(out) == annotated(self@.take(i as int)),
            decreases self.elems.len() - i,
        {
            proof {
                assert(self@.take(i + 1).drop_last() =~= self@.take(i as int));
                assert(self@.take(i + 1).last() == self.elems[i as int]@);
            }
            let ghost prev = names_view(out);
            match &self.elems[i] {
                ContextElem::Anno(v, _) => {
                    out.push(v.clone());
                    assert(names_view(out) =~= prev.push(v@));
                },
                _ => {},
            }
            i = i + 1;
        }
        assert(self@.take(i as int) =~= self@);
        out
    }

    /// The rigid variables in scope, in order.
    pub fn foralls(&self) -> (r: Vec<String>)
        ensures
            names_view(r) == universals(self@),
    {
        let mut out: Vec<String> = Vec::new();
        let mut i: usize = 0;
        assert(names_view(out) =~= universals(self@.take(0)));
        while i < self.elems.len()
            invariant
                i <= self.elems.len(),
                names_view(out) == universals(self@.take(i as int)),
            decreases self.elems.len() - i,
        {
            proof {
                assert(self@.take(i + 1).drop_last() =~= self@.take(i as int));
                assert(self@.take(i + 1).last() == self.elems[i as int]@);
            }
            let ghost prev = names_view(out);
            match &self.elems[i] {
                ContextElem::Universal(v) => {
                    out.push(v.clone());
                    assert(names_view(out) =~= prev.push(v@));
                },
                _ => {},
            }
            i = i + 1;
        }
        assert(self@.take(i as int) =~= self@);
        out
    }

    /// The existentials, solved or not, in order.
    pub fn existentials(&self) -> (r: Vec<String>)
        ensures
            names_view(r) == existentials(self@),
    {
        let mut out: Vec<String> = Vec::new();
        let mut i: usize = 0;
        assert(names_view(out) =~= existentials(self@.take(0)));
        while i < self.elems.len()
            invariant
                i <= self.elems.len(),
                names_view(out) == existentials(self@.take(i as int)),
            decreases self.elems.len() - i,
        {
            proof {
                assert(self@.take(i + 1).drop_last() =~= self@.take(i as int));
                assert(self@.take(i + 1).last() == self.elems[i as int]@);
            }
            let ghost prev = names_view(out);
            match &self.elems[i] {
                ContextElem::ExVar(v) => {
                    out.push(v.clone());
                    assert(names_view(out) =~= prev.push(v@));
                },
                ContextElem::ExVarSolved(v, _) => {
                    out.push(v.clone());
                    assert(names_view(out) =~= prev.push(v@));
                },
                _ => {},
            }
            i = i + 1;
        }
        assert(self@.take(i as int) =~= self@);
        out
    }

    /// The solution of the first entry that solves `ex`.
    pub fn find_solved(&self, ex: &String) -> (r: Option<&Type>)
        ensures
            match r {
                Some(ty) => solution(self@, ex@) == Some(ty@),
                None => solution(self@, ex@) is None && !has_solution(self@, ex@),
            },
    {
        let mut i: usize = 0;
        while i < self.elems.len()
            invariant
                i <= self.elems.len(),
                forall|j: int| 0 <= j < i ==> !solves(#[trigger] self@[j], ex@),
            decreases self.elems.len() - i,
        {
            match &self.elems[i] {
                ContextElem::ExVarSolved(var, ty) => {
                    if *var == *ex {
                        proof {
                            assert(first_solution_at(self@, ex@, i as int));
                            let k = choose|k: int| first_solution_at(self@, ex@, k);
                            assert(k == i);
                        }
                        return Some(ty);
                    }
                },
                _ => {},
            }
            i = i + 1;
        }
        None
    }

    /// The type of the first annotation of the term variable `var`.
    pub fn find_var(&self, var: &String) -> (r: Option<&Type>)
        ensures
            match r {
                Some(ty) => annotation(self@, var@) == Some(ty@),
                None => annotation(self@, var@) is None,
            },
    {
        let mut i: usize = 0;
        while i < self.elems.len()
            invariant
                i <= self.elems.len(),
                forall|j: int| 0 <= j < i ==> !annotates(#[trigger] self@[j], var@),
            decreases self.elems.len() - i,
        {
            match &self.elems[i] {
                ContextElem::Anno(v, ty) => {
                    if *var == *v {
                        proof {
                            assert(first_annotation_at(self@, var@, i as int));
                            let k = choose|k: int| first_annotation_at(self@, var@, k);
                            assert(k == i);
                        }
                        return Some(ty);
                    }
                },
                _ => {},
            }
            i = i + 1;
        }
        None
    }

    /// The context with the unsolved existential `ex` solved to `ty`, or
    /// nothing where `ty` is not well formed in what stands before `ex`.
    pub fn solve(&self, ex: &String, ty: Type) -> (r: Option<Context>)
        requires
            self@.contains(Elem::ExVar(ex@)),
        ensures
            match r {
                Some(ctx) => solved(self@, ex@, ty@) == Some(ctx@),
                None => solved(self@, ex@, ty@) is None,
            },
    {
        let (gamma_l, gamma_r) = self.break_marker(ContextElem::ExVar(ex.clone()));
        let mut ctx = Context::new(gamma_l);
        if ctx.wf_type(&ty) {
            ctx.push(ContextElem::ExVarSolved(ex.clone(), ty));
            ctx.push_elems(gamma_r);
            assert(ctx@ =~= inserted_at(self@, ex@, seq![Elem::ExVarSolved(ex@, ty@)]));
            Some(ctx)
        } else {
            None
        }
    }

    /// The first position that declares the existential `name`.
    fn first_declaration(&self, name: &String) -> (r: Option<usize>)
        ensures
            match r {
                Some(i) => first_declaration_at(self@, name@, i as int),
                None => forall|j: int| 0 <= j < self@.len() ==> !declares(#[trigger] self@[j], name@),
            },
    {
        let mut i: usize = 0;
        while i < self.elems.len()
            invariant
                i <= self.elems.len(),
                forall|j: int| 0 <= j < i ==> !declares(#[trigger] self@[j], name@),
            decreases self.elems.len() - i,
        {
            let found = match &self.elems[i] {
                ContextElem::ExVar(a) => *a == *name,
                ContextElem::ExVarSolved(a, _) => *a == *name,
                _ => false,
            };
            if found {
                return Some(i);
            }
            i = i + 1;
        }
        None
    }

    /// Whether the existential `ex1` is declared strictly before the
    /// existential `ex2`, solved or not.
    pub fn existentials_ordered(&self, ex1: &String, ex2: &String) -> (r: bool)
        ensures
            r == ordered(self@, ex1@, ex2@),
    {
        match self.first_declaration(ex1) {
            Some(i) => match self.first_declaration(ex2) {
                Some(j) => {
                    proof {
                        if ordered(self@, ex1@, ex2@) {
                            let (a, b) = choose|a: int, b: int|
                                first_declaration_at(self@, ex1@, a) && first_declaration_at(
                                    self@,
                                    ex2@,
                                    b,
                                ) && a < b;
                            lemma_first_declaration_unique(self@, ex1@, a, i as int);
                            lemma_first_declaration_unique(self@, ex2@, b, j as int);
                        }
                    }
                    i < j
                },
                None => false,
            },
            None => false,
        }
    }

    /// Whether the rigid variable `var` is in scope.
    pub fn u_var_wf(&self, var: &String) -> (r: bool)
        ensures
            r == self@.contains(Elem::Universal(var@)),
    {
        self.elem(&ContextElem::Universal(var.clone()))
    }

    /// Whether both sides of an arrow are well formed.
    pub fn arrow_wf(&self, a: &Type, b: &Type) -> (r: bool)
        ensures
            r == (type_wf(self@, a@) && type_wf(self@, b@)),
        decreases 1 + a@.size() + b@.size(), 0nat,
    {
        self.wf_type(a) && self.wf_type(b)
    }

    /// Whether the body of a quantifier is well formed once the variables it
    /// binds are in scope.
    pub fn forall_wf(&self, vars: &Vec<String>, ty: &Type) -> (r: bool)
        ensures
            r == type_wf(self@ + as_universals(names_view(*vars)), ty@),
        decreases 1 + ty@.size(), 0nat,
    {
        let mut tmp_elems = clone_elems(self.elems.as_slice());
        let mut i: usize = 0;
        while i < vars.len()
            invariant
                i <= vars.len(),
                models(tmp_elems@) == self@ + as_universals(names_view(*vars).take(i as int)),
            decreases vars.len() - i,
        {
            let ghost prev = models(tmp_elems@);
            tmp_elems.push(ContextElem::Universal(vars[i].clone()));
            proof {
                let shorter = as_universals(names_view(*vars).take(i as int));
                let longer = as_universals(names_view(*vars).take(i + 1));
                assert(models(tmp_elems@) =~= prev.push(Elem::Universal(vars[i as int]@)));
                assert(longer =~= shorter.push(Elem::Universal(vars[i as int]@)));
                assert(models(tmp_elems@) =~= self@ + longer);
            }
            i = i + 1;
        }
        assert(names_view(*vars).take(i as int) =~= names_view(*vars));
        let tmp_ctx = Context { elems: tmp_elems };
        tmp_ctx.wf_type(ty)
    }

    /// Whether `evar` is an unsolved existential of the context.
    pub fn evar_wf(&self, evar: &String) -> (r: bool)
        ensures
            r == self@.contains(Elem::ExVar(evar@)),
    {
        self.elem(&ContextElem::ExVar(evar.clone()))
    }

    /// Whether `evar` is a solved existential of the context.
    pub fn solved_evar_wf(&self, evar: &String) -> (r: bool)
        ensures
            r == has_solution(self@, evar@),
    {
        self.find_solved(evar).is_some()
    }

    /// Whether a type is well formed in the context.
    pub fn wf_type(&self, ty: &Type) -> (r: bool)
        ensures
            r == type_wf(self@, ty@),
        decreases ty@.size(), 1nat,
    {
        match ty {
            Type::Bool => true,
            Type::Int => true,
            Type::Poly { vars, ty } => self.forall_wf(vars, ty),
            Type::Fun { arg, result } => self.arrow_wf(arg, result),
            Type::Var(var) => self.u_var_wf(var),
            Type::Existential(var) => self.evar_wf(var) || self.solved_evar_wf(var),
        }
    }

    /// Whether the context is well formed.
    pub fn wf(&self) -> (r: bool)
        ensures
            r == wf(self@),
    {
        self.clone().wf_mut()
    }

    /// Whether the context is well formed. The elements are taken off, from
    /// the right end on, as far as they are checked: all of them where the
    /// context is well formed, and else those down to the last that may not
    /// follow what stands before it.
    pub fn wf_mut(&mut self) -> (r: bool)
        ensures
            r == wf(old(self)@),
            final(self)@ == old(self)@.take(final(self)@.len() as int),
            final(self)@.len() <= old(self)@.len(),
            r ==> final(self)@.len() == 0,
            !r ==> final(self)@.len() < old(self)@.len() && !elem_wf(
                final(self)@,
                old(self)@[final(self)@.len() as int],
            ),
            forall|j: int|
                final(self)@.len() < j < old(self)@.len() ==> elem_wf(
                    old(self)@.take(j),
                    #[trigger] old(self)@[j],
                ),
    {
        assert(self@.take(self@.len() as int) =~= self@);
        while self.elems.len() > 0
            invariant
                wf(old(self)@) == wf(self@),
                self@.len() <= old(self)@.len(),
                self@ == old(self)@.take(self@.len() as int),
                forall|j: int|
                    self@.len() <= j < old(self)@.len() ==> elem_wf(old(self)@.take(j), #[trigger] old(self)@[j]),
            decreases self.elems.len(),
        {
            let ghost whole = self@;
            let popped = self.elems.pop();
            assert(self@ =~= whole.drop_last());
            assert(self@ =~= old(self)@.take(self@.len() as int));
            let ok = match popped {
                Some(el) => {
                    assert(el@ == whole.last());
                    match el {
                        ContextElem::Universal(v) => !contains_name(&self.foralls(), &v),
                        ContextElem::Anno(v, ty) => !contains_name(&self.vars(), &v) && self.wf_type(&ty),
                        ContextElem::ExVar(ex) => !contains_name(&self.existentials(), &ex),
                        ContextElem::ExVarSolved(ex, ty) => {
                            !contains_name(&self.existentials(), &ex) && self.wf_type(&ty)
                                && ty.is_mono()
                        },
                        ContextElem::Marker(m) => {
                            !contains_name(&self.markers(), &m) && !contains_name(
                                &self.existentials(),
                                &m,
                            )
                        },
                    }
                },
                None => true,
            };
            assert(ok == elem_wf(self@, whole.last()));
            assert(whole.last() == old(self)@[self@.len() as int]);
            if !ok {
                return false;
            }
        }
        true
    }

    /// The type with every solved existential replaced by its solution.
    pub fn apply(&self, ty: &Type) -> (r: Type)
        ensures
            r@ == applied(self@, ty@),
            wf(self@) ==> applied(self@, r@) == r@,
    {
        proof {
            if wf(self@) {
                lemma_applied_idempotent(self@, ty@);
            }
        }
        let mut out = ty.clone();
        let mut i: usize = self.elems.len();
        assert(self@.take(i as int) =~= self@);
        while i > 0
            invariant
                i <= self.elems.len(),
                applied(self@, ty@) == applied(self@.take(i as int), out@),
            decreases i,
        {
            proof {
                assert(self@.take(i as int).drop_last() =~= self@.take(i - 1));
                assert(self@.take(i as int).last() == self.elems[i - 1]@);
            }
            i = i - 1;
            match &self.elems[i] {
                ContextElem::ExVarSolved(a, t) => {
                    out = out.with_solution(a, t);
                },
                _ => {},
            }
        }
        out
    }

    /// Structural equality.
    pub fn same(&self, other: &Context) -> (r: bool)
        ensures
            r == (self@ == other@),
    {
        if self.elems.len() != other.elems.len() {
            assert(self@.len() != other@.len());
            return false;
        }
        let mut i: usize = 0;
        while i < self.elems.len()
            invariant
                i <= self.elems.len(),
                self.elems.len() == other.elems.len(),
                forall|j: int| 0 <= j < i ==> self@[j] == other@[j],
            decreases self.elems.len() - i,
        {
            if !self.elems[i].same(&other.elems[i]) {
                assert(self@[i as int] != other@[i as int]);
                return false;
            }
            i = i + 1;
        }
        assert(self@ =~= other@);
        true
    }
}

impl PartialEq for Context {
    fn eq(&self, other: &Context) -> (r: bool) {
        self.same(other)
    }
}

impl vstd::std_specs::cmp::PartialEqSpecImpl for Context {
    open spec fn obeys_eq_spec() -> bool {
        true
    }

    open spec fn eq_spec(&self, other: &Context) -> bool {
        self@ == other@
    }
}

impl Eq for Context {}

} // verus!
