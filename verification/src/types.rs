//! Types of the calculus and their mathematical model.

use crate::names::{
    clone_names, contains_name, generated, insert_name, is_generated, lemma_take_to_set, names_view,
    same_names,
};
use vstd::string::StringExecFns;
use vstd::prelude::*;

verus! {

/// Mathematical model of a type: names are sequences of characters.
pub ghost enum Ty {
    Int,
    Bool,
    Var(Seq<char>),
    Existential(Seq<char>),
    Poly { vars: Seq<Seq<char>>, body: Box<Ty> },
    Fun { arg: Box<Ty>, result: Box<Ty> },
}

/// A type of the calculus.
#[derive(Debug)]
pub enum Type {
    Int,
    Bool,
    Var(String),
    Existential(String),
    Poly { vars: Vec<String>, ty: Box<Type> },
    Fun { arg: Box<Type>, result: Box<Type> },
}

impl Type {
    /// The model of this type.
    pub open spec fn model(&self) -> Ty
        decreases self,
    {
        match self {
            Type::Int => Ty::Int,
            Type::Bool => Ty::Bool,
            Type::Var(v) => Ty::Var(v@),
            Type::Existential(e) => Ty::Existential(e@),
            Type::Poly { vars, ty } => Ty::Poly { vars: names_view(*vars), body: Box::new(ty.model()) },
            Type::Fun { arg, result } => Ty::Fun {
                arg: Box::new(arg.model()),
                result: Box::new(result.model()),
            },
        }
    }
}

impl View for Type {
    type V = Ty;

    open spec fn view(&self) -> Ty {
        self.model()
    }
}

/// The names of a list, each behind a blank: the binders of a quantifier as
/// they are printed.
pub open spec fn spaced(names: Seq<Seq<char>>) -> Seq<char>
    decreases names.len(),
{
    if names.len() == 0 {
        Seq::empty()
    } else {
        spaced(names.drop_last()) + " "@ + names.last()
    }
}

impl Ty {
    /// A monotype holds no quantifier anywhere.
    pub open spec fn is_mono(self) -> bool
        decreases self,
    {
        match self {
            Ty::Poly { .. } => false,
            Ty::Fun { arg, result } => arg.is_mono() && result.is_mono(),
            _ => true,
        }
    }

    /// The number of nodes.
    pub open spec fn size(self) -> nat
        decreases self,
    {
        match self {
            Ty::Fun { arg, result } => 1 + arg.size() + result.size(),
            Ty::Poly { vars, body } => 1 + body.size(),
            _ => 1,
        }
    }

    /// The number of quantifiers.
    pub open spec fn quantifiers(self) -> nat
        decreases self,
    {
        match self {
            Ty::Fun { arg, result } => arg.quantifiers() + result.quantifiers(),
            Ty::Poly { vars, body } => 1 + body.quantifiers(),
            _ => 0,
        }
    }

    /// Whether the type is a primitive, a variable or an existential.
    pub open spec fn is_atom(self) -> bool {
        self is Int || self is Bool || self is Var || self is Existential
    }

    /// The names that occur free: those of variables and existentials that no
    /// enclosing quantifier binds.
    pub open spec fn free_vars(self) -> Set<Seq<char>>
        decreases self,
    {
        match self {
            Ty::Int | Ty::Bool => Set::empty(),
            Ty::Var(x) => Set::empty().insert(x),
            Ty::Existential(x) => Set::empty().insert(x),
            Ty::Fun { arg, result } => arg.free_vars().union(result.free_vars()),
            Ty::Poly { vars, body } => body.free_vars().difference(vars.to_set()),
        }
    }

    /// Replaces the free occurrences of the name `var`, as a variable or as an
    /// existential, by `replacement`. A quantifier that binds `var` is left as
    /// it is.
    pub open spec fn subst(self, var: Seq<char>, replacement: Ty) -> Ty
        decreases self,
    {
        match self {
            Ty::Int => Ty::Int,
            Ty::Bool => Ty::Bool,
            Ty::Var(v) => if v == var {
                replacement
            } else {
                self
            },
            Ty::Existential(v) => if v == var {
                replacement
            } else {
                self
            },
            Ty::Poly { vars, body } => if vars.contains(var) {
                self
            } else {
                Ty::Poly { vars, body: Box::new(body.subst(var, replacement)) }
            },
            Ty::Fun { arg, result } => Ty::Fun {
                arg: Box::new(arg.subst(var, replacement)),
                result: Box::new(result.subst(var, replacement)),
            },
        }
    }

    /// The names of the rigid variables that occur free.
    pub open spec fn variables(self) -> Set<Seq<char>>
        decreases self,
    {
        match self {
            Ty::Var(v) => Set::empty().insert(v),
            Ty::Poly { vars, body } => body.variables().difference(vars.to_set()),
            Ty::Fun { arg, result } => arg.variables().union(result.variables()),
            _ => Set::empty(),
        }
    }

    /// The names of the existentials that occur in the type.
    pub open spec fn existentials(self) -> Set<Seq<char>>
        decreases self,
    {
        match self {
            Ty::Existential(e) => Set::empty().insert(e),
            Ty::Poly { vars, body } => body.existentials(),
            Ty::Fun { arg, result } => arg.existentials().union(result.existentials()),
            _ => Set::empty(),
        }
    }

    /// The names that the quantifiers of the type bind.
    pub open spec fn binders(self) -> Set<Seq<char>>
        decreases self,
    {
        match self {
            Ty::Poly { vars, body } => vars.to_set().union(body.binders()),
            Ty::Fun { arg, result } => arg.binders().union(result.binders()),
            _ => Set::empty(),
        }
    }

    /// The type with `solution` in place of every occurrence of the
    /// existential `name`. Quantifiers bind variables, not existentials, so
    /// the replacement goes under them.
    pub open spec fn with_solution(self, name: Seq<char>, solution: Ty) -> Ty
        decreases self,
    {
        match self {
            Ty::Existential(e) => if e == name {
                solution
            } else {
                self
            },
            Ty::Poly { vars, body } => Ty::Poly { vars, body: Box::new(body.with_solution(name, solution)) },
            Ty::Fun { arg, result } => Ty::Fun {
                arg: Box::new(arg.with_solution(name, solution)),
                result: Box::new(result.with_solution(name, solution)),
            },
            _ => self,
        }
    }

    /// The printed form. Arrows associate to the right, so a function type is
    /// put in parentheses where it stands left of an arrow (`nested`).
    pub open spec fn print_inner(self, nested: bool) -> Seq<char>
        decreases self,
    {
        match self {
            Ty::Int => "Int"@,
            Ty::Bool => "Bool"@,
            Ty::Var(v) => v,
            Ty::Existential(e) => "{"@ + e + "}"@,
            Ty::Poly { vars, body } => "\u{2200}"@ + spaced(vars) + ". "@ + body.print_inner(false),
            Ty::Fun { arg, result } => {
                let arrow = arg.print_inner(true) + " -> "@ + result.print_inner(false);
                if nested {
                    "("@ + arrow + ")"@
                } else {
                    arrow
                }
            },
        }
    }

    /// The printed form of a type that stands alone.
    pub open spec fn print(self) -> Seq<char> {
        self.print_inner(false)
    }
}

/// Whether the quantifiers of a type bind no name that a generator hands
/// out.
pub open spec fn plain_binders(ty: Ty) -> bool {
    forall|v: Seq<char>| #[trigger] ty.binders().contains(v) ==> !generated(v)
}

/// Whether a type is one of the surface language: it holds no existential,
/// and its quantifiers bind no name that a generator hands out.
pub open spec fn surface(ty: Ty) -> bool {
    plain_binders(ty) && (forall|n: Seq<char>| !#[trigger] ty.existentials().contains(n))
}

/// A solution for an existential that does not occur changes nothing.
pub proof fn lemma_with_solution_absent(ty: Ty, name: Seq<char>, solution: Ty)
    requires
        !ty.existentials().contains(name),
    ensures
        ty.with_solution(name, solution) == ty,
    decreases ty,
{
    match ty {
        Ty::Fun { arg, result } => {
            lemma_with_solution_absent(*arg, name, solution);
            lemma_with_solution_absent(*result, name, solution);
        },
        Ty::Poly { vars, body } => {
            lemma_with_solution_absent(*body, name, solution);
        },
        _ => {},
    }
}

/// Once an existential is replaced by its solution, it occurs only where
/// the solution brings it.
pub proof fn lemma_with_solution_existentials(ty: Ty, name: Seq<char>, solution: Ty)
    ensures
        ty.with_solution(name, solution).existentials().subset_of(
            ty.existentials().remove(name).union(solution.existentials()),
        ),
    decreases ty,
{
    match ty {
        Ty::Fun { arg, result } => {
            lemma_with_solution_existentials(*arg, name, solution);
            lemma_with_solution_existentials(*result, name, solution);
        },
        Ty::Poly { vars, body } => {
            lemma_with_solution_existentials(*body, name, solution);
        },
        _ => {},
    }
}

/// A substitution brings in no existential but those of the replacement.
pub proof fn lemma_subst_existentials(ty: Ty, var: Seq<char>, replacement: Ty)
    ensures
        ty.subst(var, replacement).existentials().subset_of(
            ty.existentials().union(replacement.existentials()),
        ),
    decreases ty,
{
    match ty {
        Ty::Fun { arg, result } => {
            lemma_subst_existentials(*arg, var, replacement);
            lemma_subst_existentials(*result, var, replacement);
        },
        Ty::Poly { vars, body } => {
            if !vars.contains(var) {
                lemma_subst_existentials(*body, var, replacement);
            }
        },
        _ => {},
    }
}

/// A substitution brings in no binder but those of the replacement.
pub proof fn lemma_subst_binders(ty: Ty, var: Seq<char>, replacement: Ty)
    ensures
        ty.subst(var, replacement).binders().subset_of(ty.binders().union(replacement.binders())),
    decreases ty,
{
    match ty {
        Ty::Fun { arg, result } => {
            lemma_subst_binders(*arg, var, replacement);
            lemma_subst_binders(*result, var, replacement);
        },
        Ty::Poly { vars, body } => {
            if !vars.contains(var) {
                lemma_subst_binders(*body, var, replacement);
            }
        },
        _ => {},
    }
}

/// A solution brings in no binder but its own.
pub proof fn lemma_with_solution_binders(ty: Ty, name: Seq<char>, solution: Ty)
    ensures
        ty.with_solution(name, solution).binders().subset_of(ty.binders().union(solution.binders())),
    decreases ty,
{
    match ty {
        Ty::Fun { arg, result } => {
            lemma_with_solution_binders(*arg, name, solution);
            lemma_with_solution_binders(*result, name, solution);
        },
        Ty::Poly { vars, body } => {
            lemma_with_solution_binders(*body, name, solution);
        },
        _ => {},
    }
}

/// A monotype binds nothing.
pub proof fn lemma_mono_binders(ty: Ty)
    requires
        ty.is_mono(),
    ensures
        ty.binders() == Set::<Seq<char>>::empty(),
    decreases ty,
{
    match ty {
        Ty::Fun { arg, result } => {
            lemma_mono_binders(*arg);
            lemma_mono_binders(*result);
            assert(ty.binders() =~= Set::<Seq<char>>::empty());
        },
        _ => {},
    }
}

/// Where no binder of a type bears the name of an existential of the type,
/// every existential of the type is among its free names.
pub proof fn lemma_existentials_free(ty: Ty)
    requires
        forall|v: Seq<char>| ty.binders().contains(v) ==> !ty.existentials().contains(v),
    ensures
        ty.existentials().subset_of(ty.free_vars()),
    decreases ty,
{
    match ty {
        Ty::Fun { arg, result } => {
            assert forall|v: Seq<char>| arg.binders().contains(v) implies !arg.existentials().contains(
                v,
            ) by {
                assert(ty.binders().contains(v));
                assert(!ty.existentials().contains(v));
            }
            assert forall|v: Seq<char>| result.binders().contains(v) implies !result.existentials().contains(
                v,
            ) by {
                assert(ty.binders().contains(v));
                assert(!ty.existentials().contains(v));
            }
            lemma_existentials_free(*arg);
            lemma_existentials_free(*result);
        },
        Ty::Poly { vars, body } => {
            assert forall|v: Seq<char>| body.binders().contains(v) implies !body.existentials().contains(
                v,
            ) by {
                assert(ty.binders().contains(v));
                assert(!ty.existentials().contains(v));
            }
            lemma_existentials_free(*body);
            assert forall|n: Seq<char>| ty.existentials().contains(n) implies ty.free_vars().contains(
                n,
            ) by {
                if vars.to_set().contains(n) {
                    assert(ty.binders().contains(n));
                }
            }
        },
        _ => {},
    }
}

/// A type has at least one node, and one node only where it is a
/// primitive, a variable or an existential.
pub proof fn lemma_size_atom(ty: Ty)
    ensures
        ty.size() >= 1,
        ty.size() == 1 <==> ty.is_atom(),
    decreases ty,
{
    match ty {
        Ty::Fun { arg, result } => {
            lemma_size_atom(*arg);
            lemma_size_atom(*result);
        },
        Ty::Poly { vars, body } => {
            lemma_size_atom(*body);
        },
        _ => {},
    }
}

/// A type without quantifiers is a monotype, and the other way round.
pub proof fn lemma_quantifiers_mono(ty: Ty)
    ensures
        ty.quantifiers() == 0 <==> ty.is_mono(),
    decreases ty,
{
    match ty {
        Ty::Fun { arg, result } => {
            lemma_quantifiers_mono(*arg);
            lemma_quantifiers_mono(*result);
        },
        _ => {},
    }
}

/// Putting a primitive, a variable or an existential in place of a name
/// changes neither the number of nodes nor the number of quantifiers.
pub proof fn lemma_subst_atom(ty: Ty, var: Seq<char>, replacement: Ty)
    requires
        replacement.is_atom(),
    ensures
        ty.subst(var, replacement).size() == ty.size(),
        ty.subst(var, replacement).quantifiers() == ty.quantifiers(),
    decreases ty,
{
    match ty {
        Ty::Fun { arg, result } => {
            lemma_subst_atom(*arg, var, replacement);
            lemma_subst_atom(*result, var, replacement);
        },
        Ty::Poly { vars, body } => {
            if !vars.contains(var) {
                lemma_subst_atom(*body, var, replacement);
            }
        },
        _ => {},
    }
}

/// Putting a monotype in place of an existential changes the number of
/// quantifiers not.
pub proof fn lemma_with_solution_quantifiers(ty: Ty, name: Seq<char>, solution: Ty)
    requires
        solution.is_mono(),
    ensures
        ty.with_solution(name, solution).quantifiers() == ty.quantifiers(),
    decreases ty,
{
    match ty {
        Ty::Existential(e) => {
            lemma_quantifiers_mono(solution);
        },
        Ty::Fun { arg, result } => {
            lemma_with_solution_quantifiers(*arg, name, solution);
            lemma_with_solution_quantifiers(*result, name, solution);
        },
        Ty::Poly { vars, body } => {
            lemma_with_solution_quantifiers(*body, name, solution);
        },
        _ => {},
    }
}

/// Substituting a monotype into a monotype gives a monotype.
pub proof fn lemma_subst_preserves_mono(ty: Ty, var: Seq<char>, replacement: Ty)
    requires
        ty.is_mono(),
        replacement.is_mono(),
    ensures
        ty.subst(var, replacement).is_mono(),
    decreases ty,
{
    match ty {
        Ty::Fun { arg, result } => {
            lemma_subst_preserves_mono(*arg, var, replacement);
            lemma_subst_preserves_mono(*result, var, replacement);
        },
        _ => {},
    }
}

/// After a substitution the replaced name is free only where the replacement
/// brings it: the free names of `ty.subst(var, replacement)` are among those
/// of `ty` other than `var`, and those of `replacement`.
pub proof fn lemma_subst_free_vars(ty: Ty, var: Seq<char>, replacement: Ty)
    ensures
        ty.subst(var, replacement).free_vars().subset_of(
            ty.free_vars().remove(var).union(replacement.free_vars()),
        ),
    decreases ty,
{
    match ty {
        Ty::Fun { arg, result } => {
            lemma_subst_free_vars(*arg, var, replacement);
            lemma_subst_free_vars(*result, var, replacement);
        },
        Ty::Poly { vars, body } => {
            if !vars.contains(var) {
                lemma_subst_free_vars(*body, var, replacement);
            }
        },
        _ => {},
    }
}

impl Clone for Type {
    fn clone(&self) -> (r: Type)
        ensures
            r@ == self@,
        decreases self,
    {
        match self {
            Type::Int => Type::Int,
            Type::Bool => Type::Bool,
            Type::Var(v) => Type::Var(v.clone()),
            Type::Existential(e) => Type::Existential(e.clone()),
            Type::Poly { vars, ty } => Type::Poly { vars: clone_names(vars), ty: Box::new((**ty).clone()) },
            Type::Fun { arg, result } => Type::Fun {
                arg: Box::new((**arg).clone()),
                result: Box::new((**result).clone()),
            },
        }
    }
}

impl Type {
    /// A variable.
    pub fn var(name: &str) -> (r: Type)
        ensures
            r@ == Ty::Var(name@),
    {
        Type::Var(name.to_owned())
    }

    /// An existential.
    pub fn ex(name: &str) -> (r: Type)
        ensures
            r@ == Ty::Existential(name@),
    {
        Type::Existential(name.to_owned())
    }

    /// A function type.
    pub fn fun(arg: Type, result: Type) -> (r: Type)
        ensures
            r@ == (Ty::Fun { arg: Box::new(arg@), result: Box::new(result@) }),
    {
        Type::Fun { arg: Box::new(arg), result: Box::new(result) }
    }

    /// A quantified type.
    pub fn poly(vars: Vec<&str>, ty: Type) -> (r: Type)
        ensures
            r@ == (Ty::Poly { vars: Seq::new(vars.len() as nat, |i: int| vars[i]@), body: Box::new(ty@) }),
    {
        let mut names: Vec<String> = Vec::new();
        let mut i: usize = 0;
        while i < vars.len()
            invariant
                i <= vars.len(),
                names.len() == i,
                forall|j: int| 0 <= j < i ==> names[j]@ == vars[j]@,
            decreases vars.len() - i,
        {
            names.push(vars[i].to_owned());
            i = i + 1;
        }
        assert(names_view(names) =~= Seq::new(vars.len() as nat, |i: int| vars[i]@));
        Type::Poly { vars: names, ty: Box::new(ty) }
    }

    /// The printed form.
    pub fn print(&self) -> (r: String)
        ensures
            r@ == self@.print(),
    {
        self.print_inner(false)
    }

    fn print_inner(&self, nested: bool) -> (r: String)
        ensures
            r@ == self@.print_inner(nested),
        decreases self,
    {
        match self {
            Type::Int => "Int".to_owned(),
            Type::Bool => "Bool".to_owned(),
            Type::Var(s) => s.clone(),
            Type::Existential(e) => {
                let mut out = "{".to_owned();
                out.append(e.as_str());
                out.append("}");
                out
            },
            Type::Poly { vars, ty } => {
                let mut out = "\u{2200}".to_owned();
                let mut i: usize = 0;
                while i < vars.len()
                    invariant
                        i <= vars.len(),
                        out@ == "\u{2200}"@ + spaced(names_view(*vars).take(i as int)),
                    decreases vars.len() - i,
                {
                    out.append(" ");
                    out.append(vars[i].as_str());
                    proof {
                        let names = names_view(*vars);
                        assert(names.take(i + 1).drop_last() =~= names.take(i as int));
                        assert(names.take(i + 1).last() == vars[i as int]@);
                        assert(out@ =~= "\u{2200}"@ + spaced(names.take(i + 1)));
                    }
                    i = i + 1;
                }
                assert(names_view(*vars).take(i as int) =~= names_view(*vars));
                out.append(". ");
                let body = ty.print_inner(false);
                out.append(body.as_str());
                assert(out@ =~= self@.print_inner(nested));
                out
            },
            Type::Fun { arg, result } => {
                let left = arg.print_inner(true);
                let right = result.print_inner(false);
                let mut out = if nested {
                    "(".to_owned()
                } else {
                    String::new()
                };
                out.append(left.as_str());
                out.append(" -> ");
                out.append(right.as_str());
                if nested {
                    out.append(")");
                }
                assert(out@ =~= self@.print_inner(nested));
                out
            },
        }
    }

    /// The free names, each once.
    pub fn free_vars(&self) -> (r: Vec<String>)
        ensures
            names_view(r).to_set() == self@.free_vars(),
            names_view(r).no_duplicates(),
        decreases self,
    {
        let mut res: Vec<String> = Vec::new();
        assert(names_view(res).to_set() =~= Set::empty());
        match self {
            Type::Int | Type::Bool => {},
            Type::Var(x) => {
                insert_name(&mut res, x.clone());
            },
            Type::Existential(x) => {
                insert_name(&mut res, x.clone());
            },
            Type::Fun { arg, result } => {
                let left = arg.free_vars();
                let right = result.free_vars();
                let mut i: usize = 0;
                while i < left.len()
                    invariant
                        i <= left.len(),
                        names_view(res).no_duplicates(),
                        names_view(res).to_set() == names_view(left).take(i as int).to_set(),
                    decreases left.len() - i,
                {
                    insert_name(&mut res, left[i].clone());
                    proof {
                        lemma_take_to_set(names_view(left), i as int);
                    }
                    i = i + 1;
                }
                assert(names_view(left).take(i as int) =~= names_view(left));
                let mut j: usize = 0;
                while j < right.len()
                    invariant
                        j <= right.len(),
                        names_view(res).no_duplicates(),
                        names_view(res).to_set() == names_view(left).to_set().union(
                            names_view(right).take(j as int).to_set(),
                        ),
                    decreases right.len() - j,
                {
                    insert_name(&mut res, right[j].clone());
                    proof {
                        lemma_take_to_set(names_view(right), j as int);
                        assert(names_view(res).to_set() =~= names_view(left).to_set().union(
                            names_view(right).take(j + 1).to_set(),
                        ));
                    }
                    j = j + 1;
                }
                assert(names_view(right).take(j as int) =~= names_view(right));
            },
            Type::Poly { vars, ty } => {
                let inner = ty.free_vars();
                let mut i: usize = 0;
                while i < inner.len()
                    invariant
                        i <= inner.len(),
                        names_view(res).no_duplicates(),
                        names_view(res).to_set() == names_view(inner).take(i as int).to_set().difference(
                            names_view(*vars).to_set(),
                        ),
                    decreases inner.len() - i,
                {
                    proof {
                        lemma_take_to_set(names_view(inner), i as int);
                    }
                    if !contains_name(vars, &inner[i]) {
                        insert_name(&mut res, inner[i].clone());
                        assert(names_view(res).to_set() =~= names_view(inner).take(i + 1).to_set().difference(
                            names_view(*vars).to_set(),
                        ));
                    } else {
                        assert(names_view(res).to_set() =~= names_view(inner).take(i + 1).to_set().difference(
                            names_view(*vars).to_set(),
                        ));
                    }
                    i = i + 1;
                }
                assert(names_view(inner).take(i as int) =~= names_view(inner));
            },
        }
        res
    }

    /// The type with `replacement` in place of the free occurrences of `var`.
    pub fn subst(&self, var: &String, replacement: &Type) -> (r: Type)
        ensures
            r@ == self@.subst(var@, replacement@),
            self@.is_mono() && replacement@.is_mono() ==> r@.is_mono(),
            r@.free_vars().subset_of(
                self@.free_vars().remove(var@).union(replacement@.free_vars()),
            ),
    {
        proof {
            if self@.is_mono() && replacement@.is_mono() {
                lemma_subst_preserves_mono(self@, var@, replacement@);
            }
            lemma_subst_free_vars(self@, var@, replacement@);
        }
        self.subst_rec(var, replacement)
    }

    fn subst_rec(&self, var: &String, replacement: &Type) -> (r: Type)
        ensures
            r@ == self@.subst(var@, replacement@),
        decreases self,
    {
        match self {
            Type::Bool => Type::Bool,
            Type::Int => Type::Int,
            Type::Var(v) => {
                if *v == *var {
                    replacement.clone()
                } else {
                    self.clone()
                }
            },
            Type::Existential(v) => {
                if *v == *var {
                    replacement.clone()
                } else {
                    self.clone()
                }
            },
            Type::Poly { vars, ty } => {
                if contains_name(vars, var) {
                    self.clone()
                } else {
                    Type::Poly { vars: clone_names(vars), ty: Box::new(ty.subst_rec(var, replacement)) }
                }
            },
            Type::Fun { arg, result } => Type::Fun {
                arg: Box::new(arg.subst_rec(var, replacement)),
                result: Box::new(result.subst_rec(var, replacement)),
            },
        }
    }

    /// Whether the type is one of the surface language.
    pub fn is_surface(&self) -> (r: bool)
        ensures
            r == surface(self@),
        decreases self,
    {
        match self {
            Type::Int | Type::Bool | Type::Var(_) => {
                assert(self@.binders() =~= Set::<Seq<char>>::empty());
                assert(self@.existentials() =~= Set::<Seq<char>>::empty());
                assert(surface(self@));
                true
            },
            Type::Existential(e) => {
                assert(self@.existentials().contains(e@));
                false
            },
            Type::Poly { vars, ty } => {
                assert(self@ == Ty::Poly { vars: names_view(*vars), body: Box::new(ty@) });
                let mut i: usize = 0;
                while i < vars.len()
                    invariant
                        i <= vars.len(),
                        self@ == (Ty::Poly { vars: names_view(*vars), body: Box::new(ty@) }),
                        forall|j: int| 0 <= j < i ==> !generated(#[trigger] names_view(*vars)[j]),
                    decreases vars.len() - i,
                {
                    if is_generated(vars[i].as_str()) {
                        proof {
                            let v = names_view(*vars)[i as int];
                            assert(names_view(*vars).contains(v));
                            assert(names_view(*vars).to_set().contains(v));
                            assert(self@.binders().contains(v));
                        }
                        return false;
                    }
                    i = i + 1;
                }
                let inner = ty.is_surface();
                proof {
                    let names = names_view(*vars);
                    if inner {
                        assert forall|v: Seq<char>| #[trigger] self@.binders().contains(v) implies !generated(
                            v,
                        ) by {
                            if names.to_set().contains(v) {
                                let j = choose|j: int| 0 <= j < names.len() && names[j] == v;
                            } else {
                                assert(ty@.binders().contains(v));
                            }
                        }
                        assert forall|n: Seq<char>| !#[trigger] self@.existentials().contains(n) by {
                            assert(!ty@.existentials().contains(n));
                        }
                        assert(surface(self@));
                    } else {
                        if surface(self@) {
                            assert forall|v: Seq<char>| #[trigger] ty@.binders().contains(v) implies !generated(
                                v,
                            ) by {
                                assert(self@.binders().contains(v));
                            }
                            assert forall|n: Seq<char>| !#[trigger] ty@.existentials().contains(n) by {
                                assert(!self@.existentials().contains(n));
                            }
                            assert(surface(ty@));
                        }
                        assert(!surface(self@));
                    }
                }
                inner
            },
            Type::Fun { arg, result } => {
                assert(self@ == Ty::Fun { arg: Box::new(arg@), result: Box::new(result@) });
                let left = arg.is_surface();
                let right = result.is_surface();
                proof {
                    if left && right {
                        assert forall|v: Seq<char>| #[trigger] self@.binders().contains(v) implies !generated(
                            v,
                        ) by {
                            if arg@.binders().contains(v) {
                            } else {
                                assert(result@.binders().contains(v));
                            }
                        }
                        assert forall|n: Seq<char>| !#[trigger] self@.existentials().contains(n) by {
                            if self@.existentials().contains(n) {
                                if arg@.existentials().contains(n) {
                                } else {
                                    assert(result@.existentials().contains(n));
                                }
                            }
                        }
                        assert(surface(self@));
                    } else if surface(self@) {
                        assert forall|v: Seq<char>| #[trigger] arg@.binders().contains(v) implies !generated(
                            v,
                        ) by {
                            assert(self@.binders().contains(v));
                        }
                        assert forall|v: Seq<char>| #[trigger] result@.binders().contains(v) implies !generated(
                            v,
                        ) by {
                            assert(self@.binders().contains(v));
                        }
                        assert forall|n: Seq<char>| !#[trigger] arg@.existentials().contains(n) by {
                            assert(!self@.existentials().contains(n));
                        }
                        assert forall|n: Seq<char>| !#[trigger] result@.existentials().contains(n) by {
                            assert(!self@.existentials().contains(n));
                        }
                        assert(surface(arg@) && surface(result@));
                    }
                }
                left && right
            },
        }
    }

    /// The type with `solution` in place of every occurrence of the
    /// existential `name`.
    pub fn with_solution(&self, name: &String, solution: &Type) -> (r: Type)
        ensures
            r@ == self@.with_solution(name@, solution@),
        decreases self,
    {
        match self {
            Type::Bool => Type::Bool,
            Type::Int => Type::Int,
            Type::Var(v) => Type::Var(v.clone()),
            Type::Existential(e) => {
                if *e == *name {
                    solution.clone()
                } else {
                    Type::Existential(e.clone())
                }
            },
            Type::Poly { vars, ty } => Type::Poly {
                vars: clone_names(vars),
                ty: Box::new(ty.with_solution(name, solution)),
            },
            Type::Fun { arg, result } => Type::Fun {
                arg: Box::new(arg.with_solution(name, solution)),
                result: Box::new(result.with_solution(name, solution)),
            },
        }
    }

    /// Puts `replacement` in place of the free occurrences of `var`.
    pub fn subst_mut(&mut self, var: &String, replacement: &Type)
        ensures
            final(self)@ == old(self)@.subst(var@, replacement@),
    {
        let next = self.subst(var, replacement);
        *self = next;
    }

    pub fn is_mono(&self) -> (r: bool)
        ensures
            r == self@.is_mono(),
        decreases self,
    {
        match self {
            Type::Var(_) | Type::Existential(_) | Type::Int | Type::Bool => true,
            Type::Poly { .. } => false,
            Type::Fun { arg, result } => arg.is_mono() && result.is_mono(),
        }
    }

    /// Structural equality.
    pub fn same(&self, other: &Type) -> (r: bool)
        ensures
            r == (self@ == other@),
        decreases self,
    {
        match self {
            Type::Int => match other {
                Type::Int => {
                    assert(other@ is Int);
                    assert(self@ is Int);
                    true
                },
                _ => false,
            },
            Type::Bool => match other {
                Type::Bool => true,
                _ => false,
            },
            Type::Var(a) => match other {
                Type::Var(b) => {
                    let eq = *a == *b;
                    assert(eq == (a@ == b@));
                    assert(eq == (self@ == other@));
                    eq
                },
                _ => false,
            },
            Type::Existential(a) => match other {
                Type::Existential(b) => *a == *b,
                _ => false,
            },
            Type::Poly { vars: v1, ty: t1 } => match other {
                Type::Poly { vars: v2, ty: t2 } => {
                    let names = same_names(v1, v2);
                    let bodies = t1.same(t2);
                    assert(self@ == Ty::Poly { vars: names_view(*v1), body: Box::new(t1@) });
                    assert(other@ == Ty::Poly { vars: names_view(*v2), body: Box::new(t2@) });
                    names && bodies
                },
                _ => false,
            },
            Type::Fun { arg: a1, result: r1 } => match other {
                Type::Fun { arg: a2, result: r2 } => {
                    let args = a1.same(a2);
                    let results = r1.same(r2);
                    assert(self@ == Ty::Fun { arg: Box::new(a1@), result: Box::new(r1@) });
                    assert(other@ == Ty::Fun { arg: Box::new(a2@), result: Box::new(r2@) });
                    args && results
                },
                _ => false,
            },
        }
    }
}

impl PartialEq for Type {
    fn eq(&self, other: &Type) -> (r: bool) {
        self.same(other)
    }
}

impl vstd::std_specs::cmp::PartialEqSpecImpl for Type {
    open spec fn obeys_eq_spec() -> bool {
        true
    }

    open spec fn eq_spec(&self, other: &Type) -> bool {
        self@ == other@
    }
}

impl Eq for Type {}

} // verus!
