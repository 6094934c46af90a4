//! Expressions of the calculus and their mathematical model.

use crate::names::{
    contains_name, decimal, decimal_string, generated, insert_name, is_generated, lemma_take_to_set,
    names_view,
};
use crate::types::{surface, Ty, Type};
use vstd::prelude::*;
use vstd::string::StringExecFns;

verus! {

/// A literal value.
#[derive(Debug, Clone, Copy, PartialEq, Eq, Structural)]
pub enum Literal {
    Int(i32),
    Bool(bool),
}

/// Mathematical model of an expression: names are sequences of characters.
pub ghost enum Term {
    Literal(Literal),
    Var(Seq<char>),
    Lambda { binder: Seq<char>, body: Box<Term> },
    App { func: Box<Term>, arg: Box<Term> },
    Ann { expr: Box<Term>, ty: Ty },
}

/// An expression. Every subterm is owned by its parent.
#[derive(Debug)]
pub enum Expr {
    Literal(Literal),
    Var(String),
    Lambda { binder: String, body: Box<Expr> },
    App { func: Box<Expr>, arg: Box<Expr> },
    Ann { expr: Box<Expr>, ty: Type },
}

/// The printed form of a literal.
pub open spec fn print_literal(lit: Literal) -> Seq<char> {
    match lit {
        Literal::Int(n) => if n < 0 {
            "-"@ + decimal((-n) as nat)
        } else {
            decimal(n as nat)
        },
        Literal::Bool(b) => if b {
            "true"@
        } else {
            "false"@
        },
    }
}

impl Term {
    /// The variables that occur free: a lambda binds its binder in its body.
    pub open spec fn free_vars(self) -> Set<Seq<char>>
        decreases self,
    {
        match self {
            Term::Literal(_) => Set::empty(),
            Term::Var(x) => Set::empty().insert(x),
            Term::Lambda { binder, body } => body.free_vars().remove(binder),
            Term::App { func, arg } => func.free_vars().union(arg.free_vars()),
            Term::Ann { expr, ty } => expr.free_vars(),
        }
    }

    /// The number of nodes.
    pub open spec fn size(self) -> nat
        decreases self,
    {
        match self {
            Term::Lambda { binder, body } => 1 + body.size(),
            Term::App { func, arg } => 1 + func.size() + arg.size(),
            Term::Ann { expr, ty } => 1 + expr.size(),
            _ => 1,
        }
    }

    /// The variables that the lambdas of the expression bind.
    pub open spec fn binders(self) -> Set<Seq<char>>
        decreases self,
    {
        match self {
            Term::Lambda { binder, body } => body.binders().insert(binder),
            Term::App { func, arg } => func.binders().union(arg.binders()),
            Term::Ann { expr, ty } => expr.binders(),
            _ => Set::empty(),
        }
    }

    /// Replaces the free occurrences of the variable `var` by `replacement`,
    /// without renaming any binder: a lambda that binds `var` is left as it is.
    pub open spec fn subst(self, var: Seq<char>, replacement: Term) -> Term
        decreases self,
    {
        match self {
            Term::Literal(_) => self,
            Term::Var(x) => if x == var {
                replacement
            } else {
                self
            },
            Term::Lambda { binder, body } => if binder == var {
                self
            } else {
                Term::Lambda { binder, body: Box::new(body.subst(var, replacement)) }
            },
            Term::App { func, arg } => Term::App {
                func: Box::new(func.subst(var, replacement)),
                arg: Box::new(arg.subst(var, replacement)),
            },
            Term::Ann { expr, ty } => Term::Ann { expr: Box::new(expr.subst(var, replacement)), ty },
        }
    }

    /// The printed form. Application associates to the left; a lambda, an
    /// application or an annotation is put in parentheses where `nested`.
    pub open spec fn print_inner(self, nested: bool) -> Seq<char>
        decreases self,
    {
        match self {
            Term::Literal(lit) => print_literal(lit),
            Term::Var(x) => x,
            Term::Lambda { binder, body } => {
                let inner = "\\"@ + binder + ". "@ + body.print_inner(false);
                if nested {
                    "("@ + inner + ")"@
                } else {
                    inner
                }
            },
            Term::App { func, arg } => {
                let inner = func.print_inner(!(*func is App)) + " "@ + arg.print_inner(true);
                if nested {
                    "("@ + inner + ")"@
                } else {
                    inner
                }
            },
            Term::Ann { expr, ty } => {
                let inner = expr.print_inner(true) + " :: "@ + ty.print();
                if nested {
                    "("@ + inner + ")"@
                } else {
                    inner
                }
            },
        }
    }

    /// The printed form of an expression that stands alone.
    pub open spec fn print(self) -> Seq<char> {
        self.print_inner(false)
    }
}

/// Whether an expression is tidy: its lambdas bind names that no generator
/// hands out, none within the scope of a lambda that binds the same; and
/// its annotations are types of the surface language.
pub open spec fn tidy(e: Term) -> bool
    decreases e,
{
    match e {
        Term::Lambda { binder, body } => !generated(binder) && !body.binders().contains(binder) && tidy(
            *body,
        ),
        Term::App { func, arg } => tidy(*func) && tidy(*arg),
        Term::Ann { expr, ty } => tidy(*expr) && surface(ty),
        _ => true,
    }
}

/// Putting a variable in place of a variable changes the number of nodes
/// not.
pub proof fn lemma_subst_var_size(e: Term, var: Seq<char>, name: Seq<char>)
    ensures
        e.subst(var, Term::Var(name)).size() == e.size(),
    decreases e,
{
    match e {
        Term::Lambda { binder, body } => {
            if binder != var {
                lemma_subst_var_size(*body, var, name);
            }
        },
        Term::App { func, arg } => {
            lemma_subst_var_size(*func, var, name);
            lemma_subst_var_size(*arg, var, name);
        },
        Term::Ann { expr, ty } => {
            lemma_subst_var_size(*expr, var, name);
        },
        _ => {},
    }
}

impl Expr {
    /// The model of this expression.
    pub open spec fn model(&self) -> Term
        decreases self,
    {
        match self {
            Expr::Literal(lit) => Term::Literal(*lit),
            Expr::Var(x) => Term::Var(x@),
            Expr::Lambda { binder, body } => Term::Lambda { binder: binder@, body: Box::new(body.model()) },
            Expr::App { func, arg } => Term::App {
                func: Box::new(func.model()),
                arg: Box::new(arg.model()),
            },
            Expr::Ann { expr, ty } => Term::Ann { expr: Box::new(expr.model()), ty: ty@ },
        }
    }
}

impl View for Expr {
    type V = Term;

    open spec fn view(&self) -> Term {
        self.model()
    }
}

impl Clone for Expr {
    fn clone(&self) -> (r: Expr)
        ensures
            r@ == self@,
        decreases self,
    {
        match self {
            Expr::Literal(lit) => Expr::Literal(*lit),
            Expr::Var(x) => Expr::Var(x.clone()),
            Expr::Lambda { binder, body } => Expr::Lambda {
                binder: binder.clone(),
                body: Box::new((**body).clone()),
            },
            Expr::App { func, arg } => Expr::App {
                func: Box::new((**func).clone()),
                arg: Box::new((**arg).clone()),
            },
            Expr::Ann { expr, ty } => Expr::Ann { expr: Box::new((**expr).clone()), ty: ty.clone() },
        }
    }
}

/// Renders a literal.
fn literal_string(lit: Literal) -> (r: String)
    ensures
        r@ == print_literal(lit),
{
    match lit {
        Literal::Int(n) => {
            if n < 0 {
                let wide: i64 = n as i64;
                let magnitude: u32 = (-wide) as u32;
                let mut out = "-".to_owned();
                let digits = decimal_string(magnitude);
                out.append(digits.as_str());
                out
            } else {
                decimal_string(n as u32)
            }
        },
        Literal::Bool(b) => {
            if b {
                "true".to_owned()
            } else {
                "false".to_owned()
            }
        },
    }
}

impl Expr {
    /// An integer literal.
    pub fn integer(n: i32) -> (r: Expr)
        ensures
            r@ == Term::Literal(Literal::Int(n)),
    {
        Expr::Literal(Literal::Int(n))
    }

    /// A boolean literal.
    pub fn boolean(b: bool) -> (r: Expr)
        ensures
            r@ == Term::Literal(Literal::Bool(b)),
    {
        Expr::Literal(Literal::Bool(b))
    }

    /// A variable.
    pub fn var(name: &str) -> (r: Expr)
        ensures
            r@ == Term::Var(name@),
    {
        Expr::Var(name.to_owned())
    }

    /// A lambda.
    pub fn lambda(binder: &str, body: Expr) -> (r: Expr)
        ensures
            r@ == (Term::Lambda { binder: binder@, body: Box::new(body@) }),
    {
        Expr::Lambda { binder: binder.to_owned(), body: Box::new(body) }
    }

    /// An application.
    pub fn app(func: Expr, arg: Expr) -> (r: Expr)
        ensures
            r@ == (Term::App { func: Box::new(func@), arg: Box::new(arg@) }),
    {
        Expr::App { func: Box::new(func), arg: Box::new(arg) }
    }

    /// An annotated expression.
    pub fn ann(expr: Expr, ty: Type) -> (r: Expr)
        ensures
            r@ == (Term::Ann { expr: Box::new(expr@), ty: ty@ }),
    {
        Expr::Ann { expr: Box::new(expr), ty }
    }

    /// Structural equality.
    pub fn same(&self, other: &Expr) -> (r: bool)
        ensures
            r == (self@ == other@),
        decreases self,
    {
        match self {
            Expr::Literal(a) => match other {
                Expr::Literal(b) => {
                    let eq = match (*a, *b) {
                        (Literal::Int(x), Literal::Int(y)) => x == y,
                        (Literal::Bool(x), Literal::Bool(y)) => x == y,
                        _ => false,
                    };
                    assert(eq == (*a == *b));
                    eq
                },
                _ => false,
            },
            Expr::Var(a) => match other {
                Expr::Var(b) => *a == *b,
                _ => false,
            },
            Expr::Lambda { binder: b1, body: e1 } => match other {
                Expr::Lambda { binder: b2, body: e2 } => {
                    let binders = *b1 == *b2;
                    let bodies = e1.same(e2);
                    assert(self@ == Term::Lambda { binder: b1@, body: Box::new(e1@) });
                    assert(other@ == Term::Lambda { binder: b2@, body: Box::new(e2@) });
                    binders && bodies
                },
                _ => false,
            },
            Expr::App { func: f1, arg: a1 } => match other {
                Expr::App { func: f2, arg: a2 } => {
                    let funcs = f1.same(f2);
                    let args = a1.same(a2);
                    assert(self@ == Term::App { func: Box::new(f1@), arg: Box::new(a1@) });
                    assert(other@ == Term::App { func: Box::new(f2@), arg: Box::new(a2@) });
                    funcs && args
                },
                _ => false,
            },
            Expr::Ann { expr: e1, ty: t1 } => match other {
                Expr::Ann { expr: e2, ty: t2 } => {
                    let exprs = e1.same(e2);
                    let types = t1.same(t2);
                    assert(self@ == Term::Ann { expr: Box::new(e1@), ty: t1@ });
                    assert(other@ == Term::Ann { expr: Box::new(e2@), ty: t2@ });
                    exprs && types
                },
                _ => false,
            },
        }
    }

    /// The free variables, each once.
    pub fn free_vars(&self) -> (r: Vec<String>)
        ensures
            names_view(r).to_set() == self@.free_vars(),
            names_view(r).no_duplicates(),
        decreases self,
    {
        let mut res: Vec<String> = Vec::new();
        assert(names_view(res).to_set() =~= Set::empty());
        match self {
            Expr::Literal(_) => {},
            Expr::Var(x) => {
                insert_name(&mut res, x.clone());
            },
            Expr::Lambda { binder, body } => {
                let inner = body.free_vars();
                let mut i: usize = 0;
                while i < inner.len()
                    invariant
                        i <= inner.len(),
                        names_view(res).no_duplicates(),
                        names_view(res).to_set() == names_view(inner).take(i as int).to_set().remove(
                            binder@,
                        ),
                    decreases inner.len() - i,
                {
                    proof {
                        lemma_take_to_set(names_view(inner), i as int);
                    }
                    if inner[i] != *binder {
                        insert_name(&mut res, inner[i].clone());
                    }
                    assert(names_view(res).to_set() =~= names_view(inner).take(i + 1).to_set().remove(
                        binder@,
                    ));
                    i = i + 1;
                }
                assert(names_view(inner).take(i as int) =~= names_view(inner));
            },
            Expr::App { func, arg } => {
                let left = func.free_vars();
                let right = arg.free_vars();
                let mut i: usize = 0;
                while i < left.len()
                    invariant
                        i <= left.len(),
                        names_view(res).no_duplicates(),
                        names_view(res).to_set() == names_view(left).take(i as int).to_set(),
                    decreases left.len() - i,
                {
                    insert_name(&mut res, left[i].clone());
                    proof {
                        lemma_take_to_set(names_view(left), i as int);
                    }
                    i = i + 1;
                }
                assert(names_view(left).take(i as int) =~= names_view(left));
                let mut j: usize = 0;
                while j < right.len()
                    invariant
                        j <= right.len(),
                        names_view(res).no_duplicates(),
                        names_view(res).to_set() == names_view(left).to_set().union(
                            names_view(right).take(j as int).to_set(),
                        ),
                    decreases right.len() - j,
                {
                    insert_name(&mut res, right[j].clone());
                    proof {
                        lemma_take_to_set(names_view(right), j as int);
                        assert(names_view(res).to_set() =~= names_view(left).to_set().union(
                            names_view(right).take(j + 1).to_set(),
                        ));
                    }
                    j = j + 1;
                }
                assert(names_view(right).take(j as int) =~= names_view(right));
            },
            Expr::Ann { expr, ty } => {
                return expr.free_vars();
            },
        }
        res
    }

    /// The variables that the lambdas bind, each once.
    pub fn binders(&self) -> (r: Vec<String>)
        ensures
            names_view(r).to_set() == self@.binders(),
        decreases self,
    {
        match self {
            Expr::Lambda { binder, body } => {
                let mut res = body.binders();
                insert_name(&mut res, binder.clone());
                res
            },
            Expr::App { func, arg } => {
                let mut res = func.binders();
                let right = arg.binders();
                let ghost left = names_view(res).to_set();
                let mut j: usize = 0;
                assert(names_view(right).take(0).to_set() =~= Set::<Seq<char>>::empty());
                assert(left.union(Set::empty()) =~= left);
                while j < right.len()
                    invariant
                        j <= right.len(),
                        names_view(res).to_set() == left.union(names_view(right).take(j as int).to_set()),
                    decreases right.len() - j,
                {
                    insert_name(&mut res, right[j].clone());
                    proof {
                        lemma_take_to_set(names_view(right), j as int);
                        assert(names_view(res).to_set() =~= left.union(
                            names_view(right).take(j + 1).to_set(),
                        ));
                    }
                    j = j + 1;
                }
                assert(names_view(right).take(j as int) =~= names_view(right));
                res
            },
            Expr::Ann { expr, ty } => expr.binders(),
            _ => {
                let res: Vec<String> = Vec::new();
                assert(names_view(res).to_set() =~= Set::<Seq<char>>::empty());
                res
            },
        }
    }

    /// Whether the expression is tidy.
    pub fn is_tidy(&self) -> (r: bool)
        ensures
            r == tidy(self@),
        decreases self,
    {
        match self {
            Expr::Lambda { binder, body } => {
                !is_generated(binder.as_str()) && !contains_name(&body.binders(), binder) && body.is_tidy()
            },
            Expr::App { func, arg } => func.is_tidy() && arg.is_tidy(),
            Expr::Ann { expr, ty } => expr.is_tidy() && ty.is_surface(),
            _ => true,
        }
    }

    /// The expression with `replacement` in place of the free occurrences of
    /// the variable `var`. No binder is renamed.
    pub fn subst(&self, var: &String, replacement: &Expr) -> (r: Expr)
        ensures
            r@ == self@.subst(var@, replacement@),
        decreases self,
    {
        match self {
            Expr::Literal(lit) => Expr::Literal(*lit),
            Expr::Var(x) => {
                if *x == *var {
                    replacement.clone()
                } else {
                    self.clone()
                }
            },
            Expr::Lambda { binder, body } => {
                if *binder == *var {
                    self.clone()
                } else {
                    Expr::Lambda { binder: binder.clone(), body: Box::new(body.subst(var, replacement)) }
                }
            },
            Expr::App { func, arg } => Expr::App {
                func: Box::new(func.subst(var, replacement)),
                arg: Box::new(arg.subst(var, replacement)),
            },
            Expr::Ann { expr, ty } => Expr::Ann {
                expr: Box::new(expr.subst(var, replacement)),
                ty: ty.clone(),
            },
        }
    }

    /// The printed form.
    pub fn print(&self) -> (r: String)
        ensures
            r@ == self@.print(),
    {
        self.print_inner(false)
    }

    fn print_inner(&self, nested: bool) -> (r: String)
        ensures
            r@ == self@.print_inner(nested),
        decreases self,
    {
        match self {
            Expr::Literal(lit) => literal_string(*lit),
            Expr::Var(x) => x.clone(),
            Expr::Lambda { binder, body } => {
                let inner = body.print_inner(false);
                let mut out = if nested {
                    "(".to_owned()
                } else {
                    String::new()
                };
                out.append("\\");
                out.append(binder.as_str());
                out.append(". ");
                out.append(inner.as_str());
                if nested {
                    out.append(")");
                }
                assert(out@ =~= self@.print_inner(nested));
                out
            },
            Expr::App { func, arg } => {
                let head_nested = match **func {
                    Expr::App { .. } => false,
                    _ => true,
                };
                let left = func.print_inner(head_nested);
                let right = arg.print_inner(true);
                let mut out = if nested {
                    "(".to_owned()
                } else {
                    String::new()
                };
                out.append(left.as_str());
                out.append(" ");
                out.append(right.as_str());
                if nested {
                    out.append(")");
                }
                assert(out@ =~= self@.print_inner(nested));
                out
            },
            Expr::Ann { expr, ty } => {
                let left = expr.print_inner(true);
                let right = ty.print();
                let mut out = if nested {
                    "(".to_owned()
                } else {
                    String::new()
                };
                out.append(left.as_str());
                out.append(" :: ");
                out.append(right.as_str());
                if nested {
                    out.append(")");
                }
                assert(out@ =~= self@.print_inner(nested));
                out
            },
        }
    }
}

impl PartialEq for Expr {
    fn eq(&self, other: &Expr) -> (r: bool) {
        self.same(other)
    }
}

impl vstd::std_specs::cmp::PartialEqSpecImpl for Expr {
    open spec fn obeys_eq_spec() -> bool {
        true
    }

    open spec fn eq_spec(&self, other: &Expr) -> bool {
        self@ == other@
    }
}

impl Eq for Expr {}

} // verus!
