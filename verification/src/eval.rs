//! The evaluator: call-by-value reduction to weak head normal form, with
//! substitution that renames a binder rather than capture a variable.

use crate::expr::{Expr, Term};
use crate::names::{contains_name, decimal, Counter};
use vstd::prelude::*;
use vstd::string::StringExecFns;

verus! {

/// The depth to which the steps of a new evaluator may nest.
pub const DEFAULT_EVAL_DEPTH: u32 = 1024;

/// The name that takes the place of the binder `var`: the number of the
/// renaming in decimal, then the binder.
pub open spec fn renamed_binder(number: nat, var: Seq<char>) -> Seq<char> {
    decimal(number) + var
}

/// The lambda of a binder and a body, where there is a body.
pub open spec fn lambda_of(binder: Seq<char>, body: Option<Term>) -> Option<Term> {
    match body {
        Some(b) => Some(Term::Lambda { binder, body: Box::new(b) }),
        None => None,
    }
}

/// Substitution that avoids capture: `e` with `r` in place of the free
/// occurrences of the variable `x`. Where a lambda binds a variable that is
/// free in `r`, its binder is renamed first, to a name made from the number
/// of renamings so far. Gives the number of renamings made and the result,
/// or nothing where `e` nests deeper than `depth`.
pub open spec fn substitute_rule(depth: nat, supply: nat, e: Term, x: Seq<char>, r: Term) -> (
    nat,
    Option<Term>,
)
    decreases depth,
{
    if depth == 0 {
        (supply, None)
    } else {
        match e {
            Term::Literal(_) => (supply, Some(e)),
            Term::Var(y) => (
                supply,
                Some(
                    if y == x {
                        r
                    } else {
                        e
                    },
                ),
            ),
            Term::Lambda { binder, body } => if binder == x {
                (supply, Some(e))
            } else if r.free_vars().contains(binder) {
                let new_binder = renamed_binder(supply + 1, binder);
                let (made, renamed) = substitute_rule(
                    (depth - 1) as nat,
                    supply + 1,
                    *body,
                    binder,
                    Term::Var(new_binder),
                );
                match renamed {
                    Some(renamed_body) => {
                        let (last, new_body) = substitute_rule(
                            (depth - 1) as nat,
                            made,
                            renamed_body,
                            x,
                            r,
                        );
                        (last, lambda_of(new_binder, new_body))
                    },
                    None => (made, None),
                }
            } else {
                let (made, new_body) = substitute_rule((depth - 1) as nat, supply, *body, x, r);
                (made, lambda_of(binder, new_body))
            },
            Term::App { func, arg } => {
                let (made, new_func) = substitute_rule((depth - 1) as nat, supply, *func, x, r);
                match new_func {
                    Some(f) => {
                        let (last, new_arg) = substitute_rule((depth - 1) as nat, made, *arg, x, r);
                        match new_arg {
                            Some(a) => (last, Some(Term::App { func: Box::new(f), arg: Box::new(a) })),
                            None => (last, None),
                        }
                    },
                    None => (made, None),
                }
            },
            Term::Ann { expr, ty } => {
                let (made, inner) = substitute_rule((depth - 1) as nat, supply, *expr, x, r);
                match inner {
                    Some(i) => (made, Some(Term::Ann { expr: Box::new(i), ty })),
                    None => (made, None),
                }
            },
        }
    }
}

/// Substitution brings in no free variable but those of the replacement:
/// the free variables of the result are among those of the expression
/// other than the variable, and those of the replacement.
pub proof fn lemma_substitute_free_vars(depth: nat, supply: nat, e: Term, x: Seq<char>, r: Term)
    ensures
        substitute_rule(depth, supply, e, x, r).1 matches Some(out) ==> out.free_vars().subset_of(
            e.free_vars().remove(x).union(r.free_vars()),
        ),
    decreases depth,
{
    if depth > 0 {
        let d = (depth - 1) as nat;
        match e {
            Term::Lambda { binder, body } => {
                if binder == x {
                } else if r.free_vars().contains(binder) {
                    let new_binder = renamed_binder(supply + 1, binder);
                    let name = Term::Var(new_binder);
                    lemma_substitute_free_vars(d, supply + 1, *body, binder, name);
                    let (made, renamed) = substitute_rule(d, supply + 1, *body, binder, name);
                    if let Some(renamed_body) = renamed {
                        lemma_substitute_free_vars(d, made, renamed_body, x, r);
                    }
                } else {
                    lemma_substitute_free_vars(d, supply, *body, x, r);
                }
            },
            Term::App { func, arg } => {
                lemma_substitute_free_vars(d, supply, *func, x, r);
                let (made, new_func) = substitute_rule(d, supply, *func, x, r);
                if new_func is Some {
                    lemma_substitute_free_vars(d, made, *arg, x, r);
                }
            },
            Term::Ann { expr, ty } => {
                lemma_substitute_free_vars(d, supply, *expr, x, r);
            },
            _ => {},
        }
    }
}

/// Substitution comes to an end: at a depth of no less than the number of
/// nodes of the expression it gives a result; and where a variable is put
/// in, the result has as many nodes as the expression.
pub proof fn lemma_substitute_terminates(depth: nat, supply: nat, e: Term, x: Seq<char>, r: Term)
    requires
        depth >= e.size(),
    ensures
        substitute_rule(depth, supply, e, x, r).1 is Some,
        r is Var ==> substitute_rule(depth, supply, e, x, r).1->Some_0.size() == e.size(),
    decreases depth,
{
    let d = (depth - 1) as nat;
    match e {
        Term::Lambda { binder, body } => {
            if binder == x {
            } else if r.free_vars().contains(binder) {
                let name = Term::Var(renamed_binder(supply + 1, binder));
                lemma_substitute_terminates(d, supply + 1, *body, binder, name);
                let (made, renamed) = substitute_rule(d, supply + 1, *body, binder, name);
                lemma_substitute_terminates(d, made, renamed->Some_0, x, r);
            } else {
                lemma_substitute_terminates(d, supply, *body, x, r);
            }
        },
        Term::App { func, arg } => {
            lemma_substitute_terminates(d, supply, *func, x, r);
            let (made, new_func) = substitute_rule(d, supply, *func, x, r);
            lemma_substitute_terminates(d, made, *arg, x, r);
        },
        Term::Ann { expr, ty } => {
            lemma_substitute_terminates(d, supply, *expr, x, r);
        },
        _ => {},
    }
}

/// Evaluation: the value of `e`, and the number of renamings made.
///
/// A literal, a variable and a lambda are values. An annotation has the
/// value of what it annotates. Of an application the function is evaluated
/// first; where that gives a lambda, the argument is evaluated and put in
/// place of the binder in the body, which is evaluated in turn; where it
/// gives anything else, the application of it to the argument as it stands
/// is the value. Where the steps would nest deeper than `depth`, what is
/// reached is given back as it stands.
pub open spec fn eval_rule(depth: nat, supply: nat, e: Term) -> (nat, Term)
    decreases depth,
{
    if depth == 0 {
        (supply, e)
    } else {
        match e {
            Term::App { func, arg } => {
                let (made, f) = eval_rule((depth - 1) as nat, supply, *func);
                match f {
                    Term::Lambda { binder, body } => {
                        let (more, a) = eval_rule((depth - 1) as nat, made, *arg);
                        let (last, new_body) = substitute_rule((depth - 1) as nat, more, *body, binder, a);
                        match new_body {
                            Some(b) => eval_rule((depth - 1) as nat, last, b),
                            None => (last, Term::App { func: Box::new(f), arg: Box::new(a) }),
                        }
                    },
                    _ => (made, Term::App { func: Box::new(f), arg }),
                }
            },
            Term::Ann { expr, ty } => eval_rule((depth - 1) as nat, supply, *expr),
            _ => (supply, e),
        }
    }
}

/// The model of an expression, where there is one.
pub open spec fn expr_outcome(r: Option<Expr>) -> Option<Term> {
    match r {
        Some(e) => Some(e@),
        None => None,
    }
}

/// An evaluator: a counter of the renamings made, and the depth to which its
/// steps may nest.
pub struct Eval {
    supply: Counter,
    depth: u32,
}

impl Eval {
    /// The number of renamings made so far.
    pub closed spec fn supply(&self) -> nat {
        self.supply.value()
    }

    /// The depth to which the steps may nest.
    pub closed spec fn depth(&self) -> nat {
        self.depth as nat
    }

    /// An evaluator that has renamed nothing yet.
    pub fn new() -> (r: Eval)
        ensures
            r.supply() == 0,
            r.depth() == DEFAULT_EVAL_DEPTH,
    {
        Eval { supply: Counter::new(), depth: DEFAULT_EVAL_DEPTH }
    }

    /// An evaluator whose steps nest to the given depth.
    pub fn with_depth(depth: u32) -> (r: Eval)
        ensures
            r.supply() == 0,
            r.depth() == depth,
    {
        Eval { supply: Counter::new(), depth }
    }

    /// The value of `expr`.
    pub fn eval(&mut self, expr: Expr) -> (r: Expr)
        ensures
            (final(self).supply(), r@) == eval_rule(old(self).depth(), old(self).supply(), expr@),
            final(self).depth() == old(self).depth(),
    {
        let depth = self.depth;
        self.eval_at(depth, &expr)
    }

    fn eval_at(&mut self, depth: u32, expr: &Expr) -> (r: Expr)
        ensures
            (final(self).supply(), r@) == eval_rule(depth as nat, old(self).supply(), expr@),
            final(self).depth() == old(self).depth(),
        decreases depth,
    {
        if depth == 0 {
            return expr.clone();
        }
        match expr {
            Expr::App { func, arg } => {
                let evaluated = self.eval_at(depth - 1, func);
                match evaluated {
                    Expr::Lambda { binder, body } => {
                        let value = self.eval_at(depth - 1, arg);
                        match self.substitute_at(depth - 1, &body, &binder, &value) {
                            Some(new_body) => self.eval_at(depth - 1, &new_body),
                            None => Expr::App {
                                func: Box::new(Expr::Lambda { binder, body }),
                                arg: Box::new(value),
                            },
                        }
                    },
                    new_func => Expr::App { func: Box::new(new_func), arg: Box::new((**arg).clone()) },
                }
            },
            Expr::Ann { expr: inner, ty } => self.eval_at(depth - 1, inner),
            _ => expr.clone(),
        }
    }

    /// The name that takes the place of the binder `var`.
    fn fresh_var(&mut self, var: &String) -> (r: String)
        ensures
            final(self).supply() == old(self).supply() + 1,
            final(self).depth() == old(self).depth(),
            r@ == renamed_binder(final(self).supply(), var@),
    {
        self.supply.increment();
        let mut name = self.supply.text();
        name.append(var.as_str());
        name
    }

    /// Substitution that avoids capture: `expr` with `replacement` in place
    /// of the free occurrences of the variable `scrutinee`, or nothing where
    /// `expr` nests deeper than the depth of the evaluator.
    pub fn substitute(&mut self, expr: &Expr, scrutinee: &String, replacement: &Expr) -> (r: Option<Expr>)
        ensures
            (final(self).supply(), expr_outcome(r)) == substitute_rule(
                old(self).depth(),
                old(self).supply(),
                expr@,
                scrutinee@,
                replacement@,
            ),
            final(self).depth() == old(self).depth(),
            r matches Some(out) ==> out@.free_vars().subset_of(
                expr@.free_vars().remove(scrutinee@).union(replacement@.free_vars()),
            ),
    {
        proof {
            lemma_substitute_free_vars(self.depth(), self.supply(), expr@, scrutinee@, replacement@);
        }
        let depth = self.depth;
        self.substitute_at(depth, expr, scrutinee, replacement)
    }

    fn substitute_at(&mut self, depth: u32, expr: &Expr, scrutinee: &String, replacement: &Expr) -> (r:
        Option<Expr>)
        ensures
            (final(self).supply(), expr_outcome(r)) == substitute_rule(
                depth as nat,
                old(self).supply(),
                expr@,
                scrutinee@,
                replacement@,
            ),
            final(self).depth() == old(self).depth(),
        decreases depth,
    {
        if depth == 0 {
            return None;
        }
        match expr {
            Expr::Var(x) => {
                if *scrutinee == *x {
                    Some(replacement.clone())
                } else {
                    Some(expr.clone())
                }
            },
            Expr::Lambda { binder, body } => {
                if *binder == *scrutinee {
                    return Some(expr.clone());
                }
                let free_vars = replacement.free_vars();
                if contains_name(&free_vars, binder) {
                    let new_binder = self.fresh_var(binder);
                    let renamed_body = match self.substitute_at(
                        depth - 1,
                        body,
                        binder,
                        &Expr::Var(new_binder.clone()),
                    ) {
                        Some(renamed) => renamed,
                        None => {
                            return None;
                        },
                    };
                    match self.substitute_at(depth - 1, &renamed_body, scrutinee, replacement) {
                        Some(new_body) => Some(
                            Expr::Lambda { binder: new_binder, body: Box::new(new_body) },
                        ),
                        None => None,
                    }
                } else {
                    match self.substitute_at(depth - 1, body, scrutinee, replacement) {
                        Some(new_body) => Some(
                            Expr::Lambda { binder: binder.clone(), body: Box::new(new_body) },
                        ),
                        None => None,
                    }
                }
            },
            Expr::App { func, arg } => {
                let new_func = match self.substitute_at(depth - 1, func, scrutinee, replacement) {
                    Some(f) => f,
                    None => {
                        return None;
                    },
                };
                match self.substitute_at(depth - 1, arg, scrutinee, replacement) {
                    Some(new_arg) => Some(Expr::App { func: Box::new(new_func), arg: Box::new(new_arg) }),
                    None => None,
                }
            },
            Expr::Literal(_) => Some(expr.clone()),
            Expr::Ann { expr: inner, ty } => {
                match self.substitute_at(depth - 1, inner, scrutinee, replacement) {
                    Some(new_inner) => Some(Expr::Ann { expr: Box::new(new_inner), ty: ty.clone() }),
                    None => None,
                }
            },
        }
    }
}

} // verus!
