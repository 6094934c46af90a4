//! The checker: the rules of subtyping, instantiation, checking and
//! inference, run on contexts and types.

use crate::context::{as_universals, markers, models, universals, wf, Context, ContextElem, Elem};
use crate::error::{Failure, TypeError};
use crate::expr::{Expr, Literal};
use crate::names::{contains_name, fresh_name, fresh_names, names_view, Counter};
use crate::extension::{
    extends, lemma_extends_keeps, lemma_instantiate_l_extends, lemma_instantiate_r_extends,
    lemma_subtype_extends, markers_below,
};
use crate::progress::{
    fits, lemma_instantiate_l_defined, lemma_instantiate_r_defined, lemma_subtype_defined,
};
use crate::rules::{
    articulated, as_existentials, as_marked_existentials, check_rule, dropped, dropped_to_first,
    infer_application_rule, infer_rule, instantiate_l_rule, instantiate_r_rule,
    lemma_check_counts_up, lemma_infer_application_counts_up, lemma_infer_counts_up,
    lemma_instantiate_l_counts_up, lemma_instantiate_r_counts_up, lemma_subtype_counts_up,
    literal_of, reach, renamed, same_atom, solve_to, subtype_rule, synth_rule,
};
use crate::scoping::{
    lemma_check_scoped, lemma_infer_application_scoped, lemma_infer_scoped,
    lemma_instantiate_l_scoped, lemma_instantiate_r_scoped, lemma_subtype_scoped, scoped,
};
use crate::expr::tidy;
use crate::synthesis::lemma_synth_defined;
use crate::types::{Ty, Type};
use crate::validity::names_below;
use vstd::prelude::*;
use vstd::string::StringExecFns;

verus! {

/// The depth to which the rules of a new checker may nest.
pub const DEFAULT_DEPTH: u32 = 1024;

/// A supply of fresh names: a counter that only grows.
pub struct NameGen {
    ty_gen: Counter,
}

impl NameGen {
    /// The number of names made so far.
    pub closed spec fn made(&self) -> nat {
        self.ty_gen.value()
    }

    /// A supply that has made no name yet.
    pub fn new() -> (r: NameGen)
        ensures
            r.made() == 0,
    {
        NameGen { ty_gen: Counter::new() }
    }

    /// The next name.
    pub fn fresh_var(&mut self) -> (r: String)
        ensures
            final(self).made() == old(self).made() + 1,
            r@ == fresh_name(final(self).made()),
    {
        self.ty_gen.increment();
        let mut name = self.ty_gen.text();
        proof {
            reveal_strlit("v");
        }
        name.append("v");
        assert(name@ =~= fresh_name(self.ty_gen.value()));
        name
    }
}

/// The model of a context or a failure.
pub open spec fn context_outcome(r: Result<Context, TypeError>) -> Result<Seq<Elem>, Failure> {
    match r {
        Ok(ctx) => Ok(ctx@),
        Err(e) => Err(e@),
    }
}

/// The model of a context with a type, or a failure.
pub open spec fn typed_outcome(r: Result<(Context, Type), TypeError>) -> Result<(Seq<Elem>, Ty), Failure> {
    match r {
        Ok((ctx, ty)) => Ok((ctx@, ty@)),
        Err(e) => Err(e@),
    }
}

/// The model of a type or a failure.
pub open spec fn type_outcome(r: Result<Type, TypeError>) -> Result<Ty, Failure> {
    match r {
        Ok(ty) => Ok(ty@),
        Err(e) => Err(e@),
    }
}

/// The elements that bring a list of rigid variables into scope.
fn universal_elems(names: &Vec<String>) -> (r: Vec<ContextElem>)
    ensures
        models(r@) == as_universals(names_view(*names)),
{
    let mut out: Vec<ContextElem> = Vec::new();
    let mut i: usize = 0;
    while i < names.len()
        invariant
            i <= names.len(),
            out.len() == i,
            forall|j: int| 0 <= j < i ==> out[j]@ == Elem::Universal(names[j]@),
        decreases names.len() - i,
    {
        out.push(ContextElem::Universal(names[i].clone()));
        i = i + 1;
    }
    assert(models(out@) =~= as_universals(names_view(*names)));
    out
}

/// The elements that declare a list of unsolved existentials.
fn existential_elems(names: &Vec<String>) -> (r: Vec<ContextElem>)
    ensures
        models(r@) == as_existentials(names_view(*names)),
{
    let mut out: Vec<ContextElem> = Vec::new();
    let mut i: usize = 0;
    while i < names.len()
        invariant
            i <= names.len(),
            out.len() == i,
            forall|j: int| 0 <= j < i ==> out[j]@ == Elem::ExVar(names[j]@),
        decreases names.len() - i,
    {
        out.push(ContextElem::ExVar(names[i].clone()));
        i = i + 1;
    }
    assert(models(out@) =~= as_existentials(names_view(*names)));
    out
}

/// The elements that declare a list of unsolved existentials, each behind a
/// marker of its own name.
fn marked_elems(names: &Vec<String>) -> (r: Vec<ContextElem>)
    ensures
        models(r@) == as_marked_existentials(names_view(*names)),
{
    let mut out: Vec<ContextElem> = Vec::new();
    let mut i: usize = 0;
    while i < names.len()
        invariant
            i <= names.len(),
            out.len() == 2 * i,
            forall|j: int| 0 <= j < i ==> out[2 * j]@ == Elem::Marker(names[j]@),
            forall|j: int| 0 <= j < i ==> out[2 * j + 1]@ == Elem::ExVar(names[j]@),
        decreases names.len() - i,
    {
        out.push(ContextElem::Marker(names[i].clone()));
        out.push(ContextElem::ExVar(names[i].clone()));
        i = i + 1;
    }
    proof {
        let want = as_marked_existentials(names_view(*names));
        assert(models(out@).len() == want.len());
        assert forall|k: int| 0 <= k < want.len() implies models(out@)[k] == want[k] by {
            let j = k / 2;
            if k % 2 == 0 {
                assert(k == 2 * j);
            } else {
                assert(k == 2 * j + 1);
            }
        }
        assert(models(out@) =~= want);
    }
    out
}

/// Leaves a scope: cuts the context off before the marker of the scope.
fn leave(ctx: Context, marker: &ContextElem) -> (r: Result<Context, TypeError>)
    ensures
        context_outcome(r) == dropped(ctx@, marker@),
{
    let mut ctx = ctx;
    if ctx.elem(marker) {
        ctx.drop_marker(marker.clone());
        Ok(ctx)
    } else {
        Err(TypeError::MalformedContext)
    }
}

/// Leaves the scope of the rigid variables `fresh`.
fn leave_universals(ctx: Context, fresh: &Vec<String>) -> (r: Result<Context, TypeError>)
    ensures
        context_outcome(r) == dropped_to_first(ctx@, as_universals(names_view(*fresh))),
{
    if fresh.len() == 0 {
        Ok(ctx)
    } else {
        leave(ctx, &ContextElem::Universal(fresh[0].clone()))
    }
}

/// Leaves the scope of the marked existentials `fresh`.
fn leave_markers(ctx: Context, fresh: &Vec<String>) -> (r: Result<Context, TypeError>)
    ensures
        context_outcome(r) == dropped_to_first(ctx@, as_marked_existentials(names_view(*fresh))),
{
    if fresh.len() == 0 {
        Ok(ctx)
    } else {
        leave(ctx, &ContextElem::Marker(fresh[0].clone()))
    }
}

/// Commits the unsolved existential `a` to the shape of a function.
fn articulate(ctx: &Context, a: &String, a1: &String, a2: &String) -> (r: Context)
    requires
        ctx@.contains(Elem::ExVar(a@)),
    ensures
        r@ == articulated(ctx@, a@, a1@, a2@),
{
    let mut elems: Vec<ContextElem> = Vec::new();
    elems.push(ContextElem::ExVar(a2.clone()));
    elems.push(ContextElem::ExVar(a1.clone()));
    elems.push(
        ContextElem::ExVarSolved(
            a.clone(),
            Type::fun(Type::Existential(a1.clone()), Type::Existential(a2.clone())),
        ),
    );
    assert(models(elems@) =~= seq![
        Elem::ExVar(a2@),
        Elem::ExVar(a1@),
        Elem::ExVarSolved(
            a@,
            Ty::Fun { arg: Box::new(Ty::Existential(a1@)), result: Box::new(Ty::Existential(a2@)) },
        ),
    ]);
    ctx.insert_at_ex(a, elems)
}

/// Solves the unsolved existential `b`, declared after `a`, to `a`.
fn reach_to(ctx: Context, a: &String, b: &String) -> (r: Result<Context, TypeError>)
    ensures
        context_outcome(r) == reach(ctx@, a@, b@),
{
    if ctx.evar_wf(b) {
        match ctx.solve(b, Type::Existential(a.clone())) {
            Some(delta) => Ok(delta),
            None => Err(TypeError::MalformedContext),
        }
    } else {
        Err(TypeError::MalformedContext)
    }
}

/// Solves the unsolved existential `a` to `ty`, where `ty` is well formed in
/// what stands before `a`.
fn solve_with(ctx: Context, a: &String, ty: &Type) -> (r: Result<Context, TypeError>)
    ensures
        context_outcome(r) == solve_to(ctx@, a@, ty@),
{
    if ctx.evar_wf(a) {
        let mut prefix = ctx.clone();
        prefix.drop_marker(ContextElem::ExVar(a.clone()));
        if prefix.wf_type(ty) {
            match ctx.solve(a, ty.clone()) {
                Some(delta) => Ok(delta),
                None => Err(TypeError::MalformedContext),
            }
        } else {
            Err(TypeError::ExistentialEscaped(prefix, ty.clone(), a.clone()))
        }
    } else {
        Err(TypeError::MalformedContext)
    }
}

/// Whether both types are the same primitive, variable or existential.
fn atoms_same(a: &Type, b: &Type) -> (r: bool)
    ensures
        r == same_atom(a@, b@),
{
    match a {
        Type::Int => match b {
            Type::Int => true,
            _ => false,
        },
        Type::Bool => match b {
            Type::Bool => true,
            _ => false,
        },
        Type::Var(x) => match b {
            Type::Var(y) => *x == *y,
            _ => false,
        },
        Type::Existential(x) => match b {
            Type::Existential(y) => *x == *y,
            _ => false,
        },
        _ => false,
    }
}

/// Whether an expression is a literal of a primitive type.
fn is_literal_of(e: &Expr, ty: &Type) -> (r: bool)
    ensures
        r == literal_of(e@, ty@),
{
    match e {
        Expr::Literal(Literal::Int(_)) => match ty {
            Type::Int => true,
            _ => false,
        },
        Expr::Literal(Literal::Bool(_)) => match ty {
            Type::Bool => true,
            _ => false,
        },
        _ => false,
    }
}

/// A checker: a supply of fresh names, and the depth to which its rules may
/// nest.
pub struct TypeChecker {
    name_gen: NameGen,
    depth: u32,
}

impl TypeChecker {
    /// The number of fresh names made so far.
    pub closed spec fn made(&self) -> nat {
        self.name_gen.made()
    }

    /// The depth to which the rules may nest.
    pub closed spec fn depth(&self) -> nat {
        self.depth as nat
    }

    /// A checker that has made no name yet.
    pub fn new() -> (r: TypeChecker)
        ensures
            r.made() == 0,
            r.depth() == DEFAULT_DEPTH,
    {
        TypeChecker { name_gen: NameGen::new(), depth: DEFAULT_DEPTH }
    }

    /// A checker whose rules nest to the given depth.
    pub fn with_depth(depth: u32) -> (r: TypeChecker)
        ensures
            r.made() == 0,
            r.depth() == depth,
    {
        TypeChecker { name_gen: NameGen::new(), depth }
    }

    /// Gives each variable that a quantifier binds a fresh name: the fresh
    /// names, and the body with them in place of the variables, as
    /// existentials or as rigid variables.
    fn rename_poly(&mut self, vars: &Vec<String>, ty: &Type, existential: bool) -> (r: (Type, Vec<String>))
        ensures
            final(self).made() == old(self).made() + vars.len(),
            final(self).depth() == old(self).depth(),
            names_view(r.1) == fresh_names(old(self).made(), vars.len() as nat),
            r.0@ == renamed(ty@, names_view(*vars), names_view(r.1), existential),
    {
        let mut fresh_vars: Vec<String> = Vec::new();
        let mut tmp_ty = ty.clone();
        let mut i: usize = 0;
        let ghost start = self.made();
        assert(names_view(fresh_vars) =~= fresh_names(start, 0));
        assert(names_view(*vars).take(0).len() == 0);
        while i < vars.len()
            invariant
                i <= vars.len(),
                self.made() == start + i,
                self.depth() == old(self).depth(),
                names_view(fresh_vars) == fresh_names(start, i as nat),
                tmp_ty@ == renamed(
                    ty@,
                    names_view(*vars).take(i as int),
                    names_view(fresh_vars),
                    existential,
                ),
            decreases vars.len() - i,
        {
            let fresh = self.name_gen.fresh_var();
            let replacement = if existential {
                Type::Existential(fresh.clone())
            } else {
                Type::Var(fresh.clone())
            };
            let ghost before_names = names_view(fresh_vars);
            tmp_ty = tmp_ty.subst(&vars[i], &replacement);
            fresh_vars.push(fresh);
            proof {
                let names = names_view(*vars);
                assert(names_view(fresh_vars) =~= before_names.push(fresh@));
                assert(names_view(fresh_vars) =~= fresh_names(start, (i + 1) as nat));
                assert(names.take(i + 1).drop_last() =~= names.take(i as int));
                assert(names.take(i + 1).last() == vars[i as int]@);
                assert(names_view(fresh_vars).drop_last() =~= before_names);
            }
            i = i + 1;
        }
        assert(names_view(*vars).take(i as int) =~= names_view(*vars));
        (tmp_ty, fresh_vars)
    }

    /// Subtyping: the context in which `ty1` is a subtype of `ty2`, or why
    /// there is none. The rules nest to the depth of the checker.
    ///
    /// What is given back keeps every solution well formed in what stands
    /// before it, if the context given did; and it extends the context
    /// given, if that bears no marker name that is still to be made.
    /// Where the context is well formed and declares no name that is still
    /// to be made, and both types fit it, no element that a rule relies on
    /// is found missing, and what is given back is well formed.
    pub fn subtype(&mut self, ctx: Context, ty1: &Type, ty2: &Type) -> (r: Result<Context, TypeError>)
        ensures
            wf(ctx@) && names_below(ctx@, old(self).made()) && fits(ctx@, ty1@, old(self).made()) && fits(
                ctx@,
                ty2@,
                old(self).made(),
            ) ==> !(r matches Err(TypeError::MalformedContext)) && (r matches Ok(out) ==> wf(out@)
                && names_below(out@, final(self).made())),
            (final(self).made(), context_outcome(r)) == subtype_rule(
                old(self).depth(),
                old(self).made(),
                ctx@,
                ty1@,
                ty2@,
            ),
            final(self).depth() == old(self).depth(),
            old(self).made() <= final(self).made(),
            r matches Ok(out) ==> (scoped(ctx@) ==> scoped(out@)),
            r matches Ok(out) ==> (markers_below(ctx@, old(self).made()) ==> extends(ctx@, out@)
                && universals(out@) == universals(ctx@) && markers(out@) == markers(ctx@)),
    {
        proof {
            lemma_subtype_counts_up(self.depth(), self.made(), ctx@, ty1@, ty2@);
            if scoped(ctx@) {
                lemma_subtype_scoped(self.depth(), self.made(), ctx@, ty1@, ty2@);
            }
            if markers_below(ctx@, self.made()) {
                lemma_subtype_extends(self.depth(), self.made(), ctx@, ty1@, ty2@);
                if let Ok(out) = subtype_rule(self.depth(), self.made(), ctx@, ty1@, ty2@).1 {
                    lemma_extends_keeps(ctx@, out);
                }
            }
            if wf(ctx@) && names_below(ctx@, self.made()) && fits(ctx@, ty1@, self.made()) && fits(
                ctx@,
                ty2@,
                self.made(),
            ) {
                lemma_subtype_defined(self.depth(), self.made(), ctx@, ty1@, ty2@);
            }
        }
        let depth = self.depth;
        self.subtype_at(depth, ctx, ty1, ty2)
    }

    fn subtype_at(&mut self, depth: u32, ctx: Context, ty1: &Type, ty2: &Type) -> (r: Result<
        Context,
        TypeError,
    >)
        ensures
            (final(self).made(), context_outcome(r)) == subtype_rule(
                depth as nat,
                old(self).made(),
                ctx@,
                ty1@,
                ty2@,
            ),
            final(self).depth() == old(self).depth(),
        decreases depth,
    {
        if depth == 0 {
            return Err(TypeError::Exhausted);
        }
        if atoms_same(ty1, ty2) {
            return Ok(ctx);
        }
        match ty1 {
            Type::Fun { arg: arg1, result: result1 } => match ty2 {
                Type::Fun { arg: arg2, result: result2 } => {
                    let tmp_ctx = match self.subtype_at(depth - 1, ctx, arg2, arg1) {
                        Ok(theta) => theta,
                        Err(e) => {
                            return Err(e);
                        },
                    };
                    let res1 = tmp_ctx.apply(result1);
                    let res2 = tmp_ctx.apply(result2);
                    return self.subtype_at(depth - 1, tmp_ctx, &res1, &res2);
                },
                _ => {},
            },
            _ => {},
        }
        match ty2 {
            Type::Poly { vars, ty } => {
                let (renamed_ty, fresh_vars) = self.rename_poly(vars, ty, false);
                let mut tmp_ctx = ctx;
                tmp_ctx.push_elems(universal_elems(&fresh_vars));
                let res = match self.subtype_at(depth - 1, tmp_ctx, ty1, &renamed_ty) {
                    Ok(delta) => delta,
                    Err(e) => {
                        return Err(e);
                    },
                };
                return leave_universals(res, &fresh_vars);
            },
            _ => {},
        }
        match ty1 {
            Type::Poly { vars, ty } => {
                let (renamed_ty, fresh_vars) = self.rename_poly(vars, ty, true);
                let mut tmp_ctx = ctx;
                tmp_ctx.push_elems(marked_elems(&fresh_vars));
                let res = match self.subtype_at(depth - 1, tmp_ctx, &renamed_ty, ty2) {
                    Ok(delta) => delta,
                    Err(e) => {
                        return Err(e);
                    },
                };
                return leave_markers(res, &fresh_vars);
            },
            _ => {},
        }
        match ty1 {
            Type::Existential(ex) => {
                if !contains_name(&ty2.free_vars(), ex) {
                    return self.instantiate_l_at(depth - 1, ctx, ex, ty2);
                }
            },
            _ => {},
        }
        match ty2 {
            Type::Existential(ex) => {
                if !contains_name(&ty1.free_vars(), ex) {
                    return self.instantiate_r_at(depth - 1, ctx, ty1, ex);
                }
            },
            _ => {},
        }
        Err(TypeError::Subtype(ty1.clone(), ty2.clone()))
    }

    /// Instantiation to the left: the context in which the unsolved
    /// existential `ex` is solved to a subtype of `ty`.
    pub fn instantiate_l(&mut self, ctx: Context, ex: &String, ty: &Type) -> (r: Result<Context, TypeError>)
        ensures
            wf(ctx@) && names_below(ctx@, old(self).made()) && ctx@.contains(Elem::ExVar(ex@)) && fits(
                ctx@,
                ty@,
                old(self).made(),
            ) && !ty@.existentials().contains(ex@) ==> !(r matches Err(TypeError::MalformedContext)) && (r matches Ok(
                out,
            ) ==> wf(out@) && names_below(out@, final(self).made())),
            (final(self).made(), context_outcome(r)) == instantiate_l_rule(
                old(self).depth(),
                old(self).made(),
                ctx@,
                ex@,
                ty@,
            ),
            final(self).depth() == old(self).depth(),
            old(self).made() <= final(self).made(),
            r matches Ok(out) ==> (scoped(ctx@) ==> scoped(out@)),
            r matches Ok(out) ==> (markers_below(ctx@, old(self).made()) ==> extends(ctx@, out@)),
    {
        proof {
            lemma_instantiate_l_counts_up(self.depth(), self.made(), ctx@, ex@, ty@);
            if scoped(ctx@) {
                lemma_instantiate_l_scoped(self.depth(), self.made(), ctx@, ex@, ty@);
            }
            if markers_below(ctx@, self.made()) {
                lemma_instantiate_l_extends(self.depth(), self.made(), ctx@, ex@, ty@);
            }
            if wf(ctx@) && names_below(ctx@, self.made()) && ctx@.contains(Elem::ExVar(ex@)) && fits(
                ctx@,
                ty@,
                self.made(),
            ) && !ty@.existentials().contains(ex@) {
                lemma_instantiate_l_defined(self.depth(), self.made(), ctx@, ex@, ty@);
            }
        }
        let depth = self.depth;
        self.instantiate_l_at(depth, ctx, ex, ty)
    }

    fn instantiate_l_at(&mut self, depth: u32, ctx: Context, ex: &String, ty: &Type) -> (r: Result<
        Context,
        TypeError,
    >)
        ensures
            (final(self).made(), context_outcome(r)) == instantiate_l_rule(
                depth as nat,
                old(self).made(),
                ctx@,
                ex@,
                ty@,
            ),
            final(self).depth() == old(self).depth(),
        decreases depth,
    {
        if depth == 0 {
            return Err(TypeError::Exhausted);
        }
        match ty {
            Type::Existential(ex2) => {
                if ctx.existentials_ordered(ex, ex2) {
                    return reach_to(ctx, ex, ex2);
                }
            },
            _ => {},
        }
        match ty {
            Type::Fun { arg, result } => {
                if !ctx.evar_wf(ex) {
                    return Err(TypeError::MalformedContext);
                }
                let a2 = self.name_gen.fresh_var();
                let a1 = self.name_gen.fresh_var();
                let tmp_ctx = articulate(&ctx, ex, &a1, &a2);
                let omega_ctx = match self.instantiate_r_at(depth - 1, tmp_ctx, arg, &a1) {
                    Ok(theta) => theta,
                    Err(e) => {
                        return Err(e);
                    },
                };
                let applied_res = omega_ctx.apply(result);
                self.instantiate_l_at(depth - 1, omega_ctx, &a2, &applied_res)
            },
            Type::Poly { vars, ty: body } => {
                let (renamed_ty, fresh_vars) = self.rename_poly(vars, body, false);
                let mut new_ctx = ctx;
                new_ctx.push_elems(universal_elems(&fresh_vars));
                let res_ctx = match self.instantiate_l_at(depth - 1, new_ctx, ex, &renamed_ty) {
                    Ok(delta) => delta,
                    Err(e) => {
                        return Err(e);
                    },
                };
                leave_universals(res_ctx, &fresh_vars)
            },
            _ => solve_with(ctx, ex, ty),
        }
    }

    /// Instantiation to the right: the context in which the unsolved
    /// existential `ex` is solved to a supertype of `ty`.
    pub fn instantiate_r(&mut self, ctx: Context, ty: &Type, ex: &String) -> (r: Result<Context, TypeError>)
        ensures
            wf(ctx@) && names_below(ctx@, old(self).made()) && ctx@.contains(Elem::ExVar(ex@)) && fits(
                ctx@,
                ty@,
                old(self).made(),
            ) && !ty@.existentials().contains(ex@) ==> !(r matches Err(TypeError::MalformedContext)) && (r matches Ok(
                out,
            ) ==> wf(out@) && names_below(out@, final(self).made())),
            (final(self).made(), context_outcome(r)) == instantiate_r_rule(
                old(self).depth(),
                old(self).made(),
                ctx@,
                ty@,
                ex@,
            ),
            final(self).depth() == old(self).depth(),
            old(self).made() <= final(self).made(),
            r matches Ok(out) ==> (scoped(ctx@) ==> scoped(out@)),
            r matches Ok(out) ==> (markers_below(ctx@, old(self).made()) ==> extends(ctx@, out@)),
    {
        proof {
            lemma_instantiate_r_counts_up(self.depth(), self.made(), ctx@, ty@, ex@);
            if scoped(ctx@) {
                lemma_instantiate_r_scoped(self.depth(), self.made(), ctx@, ty@, ex@);
            }
            if markers_below(ctx@, self.made()) {
                lemma_instantiate_r_extends(self.depth(), self.made(), ctx@, ty@, ex@);
            }
            if wf(ctx@) && names_below(ctx@, self.made()) && ctx@.contains(Elem::ExVar(ex@)) && fits(
                ctx@,
                ty@,
                self.made(),
            ) && !ty@.existentials().contains(ex@) {
                lemma_instantiate_r_defined(self.depth(), self.made(), ctx@, ty@, ex@);
            }
        }
        let depth = self.depth;
        self.instantiate_r_at(depth, ctx, ty, ex)
    }

    fn instantiate_r_at(&mut self, depth: u32, ctx: Context, ty: &Type, ex: &String) -> (r: Result<
        Context,
        TypeError,
    >)
        ensures
            (final(self).made(), context_outcome(r)) == instantiate_r_rule(
                depth as nat,
                old(self).made(),
                ctx@,
                ty@,
                ex@,
            ),
            final(self).depth() == old(self).depth(),
        decreases depth,
    {
        if depth == 0 {
            return Err(TypeError::Exhausted);
        }
        match ty {
            Type::Existential(ex2) => {
                if ctx.existentials_ordered(ex, ex2) {
                    return reach_to(ctx, ex, ex2);
                }
            },
            _ => {},
        }
        match ty {
            Type::Fun { arg, result } => {
                if !ctx.evar_wf(ex) {
                    return Err(TypeError::MalformedContext);
                }
                let a1 = self.name_gen.fresh_var();
                let a2 = self.name_gen.fresh_var();
                let tmp_ctx = articulate(&ctx, ex, &a1, &a2);
                let omega_ctx = match self.instantiate_l_at(depth - 1, tmp_ctx, &a1, arg) {
                    Ok(theta) => theta,
                    Err(e) => {
                        return Err(e);
                    },
                };
                let applied_res = omega_ctx.apply(result);
                self.instantiate_r_at(depth - 1, omega_ctx, &applied_res, &a2)
            },
            Type::Poly { vars, ty: body } => {
                let (renamed_ty, fresh_vars) = self.rename_poly(vars, body, true);
                let mut new_ctx = ctx;
                new_ctx.push_elems(marked_elems(&fresh_vars));
                let res_ctx = match self.instantiate_r_at(depth - 1, new_ctx, &renamed_ty, ex) {
                    Ok(delta) => delta,
                    Err(e) => {
                        return Err(e);
                    },
                };
                leave_markers(res_ctx, &fresh_vars)
            },
            _ => solve_with(ctx, ex, ty),
        }
    }

    /// Checking: the context in which `expr` has the type `ty`.
    pub fn check(&mut self, ctx: Context, expr: &Expr, ty: &Type) -> (r: Result<Context, TypeError>)
        ensures
            (final(self).made(), context_outcome(r)) == check_rule(
                old(self).depth(),
                old(self).made(),
                ctx@,
                expr@,
                ty@,
            ),
            final(self).depth() == old(self).depth(),
            old(self).made() <= final(self).made(),
            r matches Ok(out) ==> (scoped(ctx@) ==> scoped(out@)),
    {
        proof {
            lemma_check_counts_up(self.depth(), self.made(), ctx@, expr@, ty@);
            if scoped(ctx@) {
                lemma_check_scoped(self.depth(), self.made(), ctx@, expr@, ty@);
            }
        }
        let depth = self.depth;
        self.check_at(depth, ctx, expr, ty)
    }

    fn check_at(&mut self, depth: u32, ctx: Context, expr: &Expr, ty: &Type) -> (r: Result<
        Context,
        TypeError,
    >)
        ensures
            (final(self).made(), context_outcome(r)) == check_rule(
                depth as nat,
                old(self).made(),
                ctx@,
                expr@,
                ty@,
            ),
            final(self).depth() == old(self).depth(),
        decreases depth,
    {
        if depth == 0 {
            return Err(TypeError::Exhausted);
        }
        if is_literal_of(expr, ty) {
            return Ok(ctx);
        }
        match expr {
            Expr::Lambda { binder, body } => match ty {
                Type::Fun { arg, result } => {
                    let mut new_ctx = ctx;
                    let anno_elem = ContextElem::Anno(binder.clone(), (**arg).clone());
                    new_ctx.push(anno_elem.clone());
                    let res_ctx = match self.check_at(depth - 1, new_ctx, body, result) {
                        Ok(delta) => delta,
                        Err(e) => {
                            return Err(e);
                        },
                    };
                    return leave(res_ctx, &anno_elem);
                },
                _ => {},
            },
            _ => {},
        }
        match ty {
            Type::Poly { vars, ty: body } => {
                let (renamed_ty, fresh_vars) = self.rename_poly(vars, body, false);
                let mut tmp_ctx = ctx;
                tmp_ctx.push_elems(universal_elems(&fresh_vars));
                let res_ctx = match self.check_at(depth - 1, tmp_ctx, expr, &renamed_ty) {
                    Ok(delta) => delta,
                    Err(e) => {
                        return Err(e);
                    },
                };
                leave_universals(res_ctx, &fresh_vars)
            },
            _ => {
                let (theta, inferred) = match self.infer_at(depth - 1, ctx, expr) {
                    Ok(found) => found,
                    Err(e) => {
                        return Err(e);
                    },
                };
                let inferred = theta.apply(&inferred);
                let wanted = theta.apply(ty);
                self.subtype_at(depth - 1, theta, &inferred, &wanted)
            },
        }
    }

    /// Inference: the type of `expr`, and the context in which it has it.
    pub fn infer(&mut self, ctx: Context, expr: &Expr) -> (r: Result<(Context, Type), TypeError>)
        ensures
            (final(self).made(), typed_outcome(r)) == infer_rule(
                old(self).depth(),
                old(self).made(),
                ctx@,
                expr@,
            ),
            final(self).depth() == old(self).depth(),
            old(self).made() <= final(self).made(),
            r matches Ok((out, _)) ==> (scoped(ctx@) ==> scoped(out@)),
    {
        proof {
            lemma_infer_counts_up(self.depth(), self.made(), ctx@, expr@);
            if scoped(ctx@) {
                lemma_infer_scoped(self.depth(), self.made(), ctx@, expr@);
            }
        }
        let depth = self.depth;
        self.infer_at(depth, ctx, expr)
    }

    fn infer_at(&mut self, depth: u32, ctx: Context, expr: &Expr) -> (r: Result<(Context, Type), TypeError>)
        ensures
            (final(self).made(), typed_outcome(r)) == infer_rule(
                depth as nat,
                old(self).made(),
                ctx@,
                expr@,
            ),
            final(self).depth() == old(self).depth(),
        decreases depth,
    {
        if depth == 0 {
            return Err(TypeError::Exhausted);
        }
        match expr {
            Expr::Literal(Literal::Int(_)) => Ok((ctx, Type::Int)),
            Expr::Literal(Literal::Bool(_)) => Ok((ctx, Type::Bool)),
            Expr::Var(var) => {
                let found = match ctx.find_var(var) {
                    Some(ty) => Some(ty.clone()),
                    None => None,
                };
                match found {
                    Some(ty) => Ok((ctx, ty)),
                    None => Err(TypeError::UnknownVar(var.clone())),
                }
            },
            Expr::Ann { expr: inner, ty } => {
                if ctx.wf_type(ty) {
                    match self.check_at(depth - 1, ctx, inner, ty) {
                        Ok(delta) => Ok((delta, ty.clone())),
                        Err(e) => Err(e),
                    }
                } else {
                    Err(TypeError::InvalidAnnotation(ty.clone()))
                }
            },
            Expr::Lambda { binder, body } => {
                let mut tmp_ctx = ctx;
                let binder_fresh = self.name_gen.fresh_var();
                let a = self.name_gen.fresh_var();
                let b = self.name_gen.fresh_var();
                let marker = ContextElem::Anno(binder_fresh.clone(), Type::Existential(a.clone()));
                let mut pushed: Vec<ContextElem> = Vec::new();
                pushed.push(ContextElem::ExVar(a.clone()));
                pushed.push(ContextElem::ExVar(b.clone()));
                pushed.push(marker.clone());
                assert(models(pushed@) =~= seq![Elem::ExVar(a@), Elem::ExVar(b@), marker@]);
                tmp_ctx.push_elems(pushed);
                let renamed_body = body.subst(binder, &Expr::Var(binder_fresh));
                let wanted = Type::Existential(b.clone());
                let res_ctx = match self.check_at(depth - 1, tmp_ctx, &renamed_body, &wanted) {
                    Ok(delta) => delta,
                    Err(e) => {
                        return Err(e);
                    },
                };
                match leave(res_ctx, &marker) {
                    Ok(out) => Ok((out, Type::fun(Type::Existential(a), Type::Existential(b)))),
                    Err(e) => Err(e),
                }
            },
            Expr::App { func, arg } => {
                let (theta, func_ty) = match self.infer_at(depth - 1, ctx, func) {
                    Ok(found) => found,
                    Err(e) => {
                        return Err(e);
                    },
                };
                let applied_func_ty = theta.apply(&func_ty);
                self.infer_application_at(depth - 1, theta, &applied_func_ty, arg)
            },
        }
    }

    /// Application: the type of what a function of type `ty` gives for
    /// `expr`, and the context in which it does.
    pub fn infer_application(&mut self, ctx: Context, ty: &Type, expr: &Expr) -> (r: Result<
        (Context, Type),
        TypeError,
    >)
        ensures
            (final(self).made(), typed_outcome(r)) == infer_application_rule(
                old(self).depth(),
                old(self).made(),
                ctx@,
                ty@,
                expr@,
            ),
            final(self).depth() == old(self).depth(),
            old(self).made() <= final(self).made(),
            r matches Ok((out, _)) ==> (scoped(ctx@) ==> scoped(out@)),
    {
        proof {
            lemma_infer_application_counts_up(self.depth(), self.made(), ctx@, ty@, expr@);
            if scoped(ctx@) {
                lemma_infer_application_scoped(self.depth(), self.made(), ctx@, ty@, expr@);
            }
        }
        let depth = self.depth;
        self.infer_application_at(depth, ctx, ty, expr)
    }

    fn infer_application_at(&mut self, depth: u32, ctx: Context, ty: &Type, expr: &Expr) -> (r: Result<
        (Context, Type),
        TypeError,
    >)
        ensures
            (final(self).made(), typed_outcome(r)) == infer_application_rule(
                depth as nat,
                old(self).made(),
                ctx@,
                ty@,
                expr@,
            ),
            final(self).depth() == old(self).depth(),
        decreases depth,
    {
        if depth == 0 {
            return Err(TypeError::Exhausted);
        }
        match ty {
            Type::Poly { vars, ty: body } => {
                let (renamed_ty, fresh_vars) = self.rename_poly(vars, body, true);
                let mut new_ctx = ctx;
                new_ctx.push_elems(existential_elems(&fresh_vars));
                self.infer_application_at(depth - 1, new_ctx, &renamed_ty, expr)
            },
            Type::Existential(ex) => {
                if !ctx.evar_wf(ex) {
                    return Err(TypeError::MalformedContext);
                }
                let a1 = self.name_gen.fresh_var();
                let a2 = self.name_gen.fresh_var();
                let new_ctx = articulate(&ctx, ex, &a1, &a2);
                let wanted = Type::Existential(a1);
                match self.check_at(depth - 1, new_ctx, expr, &wanted) {
                    Ok(delta) => Ok((delta, Type::Existential(a2))),
                    Err(e) => Err(e),
                }
            },
            Type::Fun { arg, result } => {
                match self.check_at(depth - 1, ctx, expr, arg) {
                    Ok(delta) => {
                        let applied_res = delta.apply(result);
                        Ok((delta, applied_res))
                    },
                    Err(e) => Err(e),
                }
            },
            _ => Err(TypeError::IsNotAFunction(ty.clone())),
        }
    }

    /// Synthesis: the type of `expr` in the empty context, with every solved
    /// existential replaced by its solution. The result depends on nothing
    /// but the expression, the number of names made before, and the depth of
    /// the checker. For a tidy expression no element that a rule relies on
    /// is found missing.
    pub fn synth(&mut self, expr: &Expr) -> (r: Result<Type, TypeError>)
        ensures
            tidy(expr@) ==> !(r matches Err(TypeError::MalformedContext)),
            (final(self).made(), type_outcome(r)) == synth_rule(
                old(self).depth(),
                old(self).made(),
                expr@,
            ),
            final(self).depth() == old(self).depth(),
            old(self).made() <= final(self).made(),
    {
        proof {
            lemma_infer_counts_up(self.depth(), self.made(), Seq::empty(), expr@);
            if tidy(expr@) {
                lemma_synth_defined(self.depth(), self.made(), expr@);
            }
        }
        let depth = self.depth;
        let empty = Context::new(Vec::new());
        assert(empty@ =~= Seq::empty());
        match self.infer_at(depth, empty, expr) {
            Ok((delta, ty)) => Ok(delta.apply(&ty)),
            Err(e) => Err(e),
        }
    }
}

} // verus!
