//! What the checker reports when it fails.

use crate::context::{print_context, Context, Elem};
use crate::types::{Ty, Type};
use vstd::prelude::*;
use vstd::string::StringExecFns;

verus! {

/// Mathematical model of a failure.
pub ghost enum Failure {
    /// No rule makes the first type a subtype of the second.
    Subtype(Ty, Ty),
    /// A term variable is not in scope.
    UnknownVar(Seq<char>),
    /// An annotation is not well formed where it stands.
    InvalidAnnotation(Ty),
    /// What is applied is no function, existential or quantified type.
    IsNotAFunction(Ty),
    /// The existential would be solved to a type that is not well formed in
    /// what stands before it.
    ExistentialEscaped(Seq<Elem>, Ty, Seq<char>),
    /// The rules were given up: their nesting reached the depth of the
    /// checker.
    Exhausted,
    /// The context lacks an element that a rule relies on: the marker of a
    /// scope that is left, or the unsolved existential that is to be solved.
    MalformedContext,
}

/// A failure of the checker.
#[derive(Debug)]
pub enum TypeError {
    Subtype(Type, Type),
    UnknownVar(String),
    InvalidAnnotation(Type),
    IsNotAFunction(Type),
    ExistentialEscaped(Context, Type, String),
    Exhausted,
    MalformedContext,
}

impl View for TypeError {
    type V = Failure;

    open spec fn view(&self) -> Failure {
        match self {
            TypeError::Subtype(a, b) => Failure::Subtype(a@, b@),
            TypeError::UnknownVar(x) => Failure::UnknownVar(x@),
            TypeError::InvalidAnnotation(t) => Failure::InvalidAnnotation(t@),
            TypeError::IsNotAFunction(t) => Failure::IsNotAFunction(t@),
            TypeError::ExistentialEscaped(c, t, a) => Failure::ExistentialEscaped(c@, t@, a@),
            TypeError::Exhausted => Failure::Exhausted,
            TypeError::MalformedContext => Failure::MalformedContext,
        }
    }
}

/// The message of a failure.
pub open spec fn print_failure(f: Failure) -> Seq<char> {
    match f {
        Failure::Subtype(a, b) => "Can't figure out subtyping between: "@ + a.print() + " <: "@
            + b.print(),
        Failure::UnknownVar(x) => "Unknown variable: "@ + x,
        Failure::InvalidAnnotation(t) => t.print() + " is not a valid annotation here."@,
        Failure::IsNotAFunction(t) => t.print() + " is not a function"@,
        Failure::ExistentialEscaped(c, t, a) => "An existential escaped, go get it! "@
            + print_context(c) + " "@ + t.print() + " "@ + a,
        Failure::Exhausted => "The checker gave up: its rules nest too deep"@,
        Failure::MalformedContext => "The context lacks an element that a rule relies on"@,
    }
}

impl TypeError {
    /// The message.
    pub fn print(&self) -> (r: String)
        ensures
            r@ == print_failure(self@),
    {
        match self {
            TypeError::Subtype(ty1, ty2) => {
                let mut out = "Can't figure out subtyping between: ".to_owned();
                let left = ty1.print();
                let right = ty2.print();
                out.append(left.as_str());
                out.append(" <: ");
                out.append(right.as_str());
                out
            },
            TypeError::UnknownVar(var) => {
                let mut out = "Unknown variable: ".to_owned();
                out.append(var.as_str());
                out
            },
            TypeError::InvalidAnnotation(ty) => {
                let mut out = ty.print();
                out.append(" is not a valid annotation here.");
                out
            },
            TypeError::IsNotAFunction(ty) => {
                let mut out = ty.print();
                out.append(" is not a function");
                out
            },
            TypeError::ExistentialEscaped(ctx, ty, ex) => {
                let mut out = "An existential escaped, go get it! ".to_owned();
                let context = ctx.print();
                let printed = ty.print();
                out.append(context.as_str());
                out.append(" ");
                out.append(printed.as_str());
                out.append(" ");
                out.append(ex.as_str());
                assert(out@ =~= print_failure(self@));
                out
            },
            TypeError::Exhausted => "The checker gave up: its rules nest too deep".to_owned(),
            TypeError::MalformedContext => "The context lacks an element that a rule relies on".to_owned(),
        }
    }

    /// Structural equality.
    pub fn same(&self, other: &TypeError) -> (r: bool)
        ensures
            r == (self@ == other@),
    {
        match self {
            TypeError::Subtype(a1, b1) => match other {
                TypeError::Subtype(a2, b2) => a1.same(a2) && b1.same(b2),
                _ => false,
            },
            TypeError::UnknownVar(x) => match other {
                TypeError::UnknownVar(y) => *x == *y,
                _ => false,
            },
            TypeError::InvalidAnnotation(s) => match other {
                TypeError::InvalidAnnotation(t) => s.same(t),
                _ => false,
            },
            TypeError::IsNotAFunction(s) => match other {
                TypeError::IsNotAFunction(t) => s.same(t),
                _ => false,
            },
            TypeError::ExistentialEscaped(c1, t1, a1) => match other {
                TypeError::ExistentialEscaped(c2, t2, a2) => c1.same(c2) && t1.same(t2) && *a1 == *a2,
                _ => false,
            },
            TypeError::Exhausted => match other {
                TypeError::Exhausted => true,
                _ => false,
            },
            TypeError::MalformedContext => match other {
                TypeError::MalformedContext => true,
                _ => false,
            },
        }
    }
}

impl PartialEq for TypeError {
    fn eq(&self, other: &TypeError) -> (r: bool) {
        self.same(other)
    }
}

impl vstd::std_specs::cmp::PartialEqSpecImpl for TypeError {
    open spec fn obeys_eq_spec() -> bool {
        true
    }

    open spec fn eq_spec(&self, other: &TypeError) -> bool {
        self@ == other@
    }
}

impl Eq for TypeError {}

} // verus!
