//! The reader of the surface language: from tokens to expressions and
//! types.
//!
//! An expression is a lambda `\x. e`, or an application, which may carry an
//! annotation `:: T`. An application is a row of atoms, taken from the left.
//! An atom is a literal, a variable, or an expression in parentheses. A type
//! is a quantifier `forall a b. T` or an arrow; an arrow is an atom, which
//! `-> T` may follow, so that arrows are taken from the right. An atom of a
//! type is `Int`, `Bool`, a variable, or a type in parentheses.

use crate::expr::{Expr, Literal, Term};
use crate::names::names_view;
use crate::eval::expr_outcome;
use crate::token::{lexed, skip_spaces, token_models, Lexer, Tok, Token};
use crate::types::{Ty, Type};
use vstd::prelude::*;
use vstd::string::StrSliceExecFns;

verus! {

/// The names of the run of identifiers that begins at `i`, and where the
/// run ends.
pub open spec fn binders(ts: Seq<Tok>, i: int) -> (Seq<Seq<char>>, int)
    decreases ts.len() - i,
{
    if 0 <= i < ts.len() && ts[i] is Ident {
        let (rest, end) = binders(ts, i + 1);
        (seq![ts[i]->Ident_0] + rest, end)
    } else {
        (Seq::empty(), i)
    }
}

/// The type that is read at `i`, and where it ends.
pub open spec fn parsed_type(ts: Seq<Tok>, i: int) -> Option<(Ty, int)>
    decreases ts.len() - i, 2nat,
{
    if 0 <= i < ts.len() && ts[i] is Forall {
        let (vars, dot) = binders(ts, i + 1);
        if vars.len() > 0 && i < dot < ts.len() && ts[dot] is Dot {
            match parsed_type(ts, dot + 1) {
                Some((body, end)) => Some((Ty::Poly { vars, body: Box::new(body) }, end)),
                None => None,
            }
        } else {
            None
        }
    } else {
        parsed_arrow(ts, i)
    }
}

/// The arrow, or the atom of a type, that is read at `i`.
pub open spec fn parsed_arrow(ts: Seq<Tok>, i: int) -> Option<(Ty, int)>
    decreases ts.len() - i, 1nat,
{
    match parsed_type_atom(ts, i) {
        Some((arg, next)) => if i < next < ts.len() && ts[next] is Arrow {
            match parsed_type(ts, next + 1) {
                Some((result, end)) => Some(
                    (Ty::Fun { arg: Box::new(arg), result: Box::new(result) }, end),
                ),
                None => None,
            }
        } else {
            Some((arg, next))
        },
        None => None,
    }
}

/// The atom of a type that is read at `i`.
pub open spec fn parsed_type_atom(ts: Seq<Tok>, i: int) -> Option<(Ty, int)>
    decreases ts.len() - i, 0nat,
{
    if !(0 <= i < ts.len()) {
        None
    } else {
        match ts[i] {
            Tok::UpperIdent(name) => if name == "Int"@ {
                Some((Ty::Int, i + 1))
            } else if name == "Bool"@ {
                Some((Ty::Bool, i + 1))
            } else {
                None
            },
            Tok::Ident(name) => Some((Ty::Var(name), i + 1)),
            Tok::LParen => match parsed_type(ts, i + 1) {
                Some((inner, close)) => if 0 <= close < ts.len() && ts[close] is RParen {
                    Some((inner, close + 1))
                } else {
                    None
                },
                None => None,
            },
            _ => None,
        }
    }
}

/// The expression that is read at `i`, and where it ends.
pub open spec fn parsed_expr(ts: Seq<Tok>, i: int) -> Option<(Term, int)>
    decreases ts.len() - i, 3nat,
{
    if 0 <= i < ts.len() && ts[i] is Lambda {
        if i + 2 < ts.len() && ts[i + 1] is Ident && ts[i + 2] is Dot {
            match parsed_expr(ts, i + 3) {
                Some((body, end)) => Some(
                    (Term::Lambda { binder: ts[i + 1]->Ident_0, body: Box::new(body) }, end),
                ),
                None => None,
            }
        } else {
            None
        }
    } else {
        parsed_annotated(ts, i)
    }
}

/// The application that is read at `i`, with the annotation that follows
/// it, if one does.
pub open spec fn parsed_annotated(ts: Seq<Tok>, i: int) -> Option<(Term, int)>
    decreases ts.len() - i, 2nat,
{
    match parsed_atom(ts, i) {
        Some((head, next)) => if i < next <= ts.len() {
            let (e, after) = parsed_arguments(ts, next, head);
            if 0 <= after < ts.len() && ts[after] is DoubleColon {
                match parsed_type(ts, after + 1) {
                    Some((ty, end)) => Some((Term::Ann { expr: Box::new(e), ty }, end)),
                    None => None,
                }
            } else {
                Some((e, after))
            }
        } else {
            None
        },
        None => None,
    }
}

/// The application of `head` to the atoms that are read from `i` on.
pub open spec fn parsed_arguments(ts: Seq<Tok>, i: int, head: Term) -> (Term, int)
    decreases ts.len() - i, 1nat,
{
    match parsed_atom(ts, i) {
        Some((arg, next)) => if i < next <= ts.len() {
            parsed_arguments(ts, next, Term::App { func: Box::new(head), arg: Box::new(arg) })
        } else {
            (head, i)
        },
        None => (head, i),
    }
}

/// The atom that is read at `i`.
pub open spec fn parsed_atom(ts: Seq<Tok>, i: int) -> Option<(Term, int)>
    decreases ts.len() - i, 0nat,
{
    if !(0 <= i < ts.len()) {
        None
    } else {
        match ts[i] {
            Tok::IntLiteral(n) => Some((Term::Literal(Literal::Int(n)), i + 1)),
            Tok::BooleanLiteral(b) => Some((Term::Literal(Literal::Bool(b)), i + 1)),
            Tok::Ident(name) => Some((Term::Var(name), i + 1)),
            Tok::LParen => match parsed_expr(ts, i + 1) {
                Some((inner, close)) => if 0 <= close < ts.len() && ts[close] is RParen {
                    Some((inner, close + 1))
                } else {
                    None
                },
                None => None,
            },
            _ => None,
        }
    }
}

/// The expression that the tokens spell from the first to the last.
pub open spec fn parsed(ts: Seq<Tok>) -> Option<Term> {
    match parsed_expr(ts, 0) {
        Some((e, end)) => if end == ts.len() {
            Some(e)
        } else {
            None
        },
        None => None,
    }
}

/// The type that the tokens spell from the first to the last.
pub open spec fn parsed_whole_type(ts: Seq<Tok>) -> Option<Ty> {
    match parsed_type(ts, 0) {
        Some((ty, end)) => if end == ts.len() {
            Some(ty)
        } else {
            None
        },
        None => None,
    }
}

/// The tokens of a text from `i` to its end, where every character from
/// `i` on belongs to a token or is white space.
pub open spec fn lexed_whole(s: Seq<char>, i: int) -> Option<Seq<Tok>>
    decreases s.len() - i,
{
    if i >= s.len() {
        Some(Seq::empty())
    } else {
        let (token, next) = lexed(s, i);
        match token {
            Some(t) => if i < next <= s.len() {
                match lexed_whole(s, next) {
                    Some(rest) => Some(seq![t] + rest),
                    None => None,
                }
            } else {
                None
            },
            None => None,
        }
    }
}

/// The expression that a text spells.
pub open spec fn parsed_text(text: Seq<char>) -> Option<Term> {
    match lexed_whole(text, skip_spaces(text, 0)) {
        Some(ts) => parsed(ts),
        None => None,
    }
}

/// The type that a text spells.
pub open spec fn parsed_type_text(text: Seq<char>) -> Option<Ty> {
    match lexed_whole(text, skip_spaces(text, 0)) {
        Some(ts) => parsed_whole_type(ts),
        None => None,
    }
}

/// The model of a list of tokens, where there is one.
pub open spec fn tokens_outcome(r: Option<Vec<Token>>) -> Option<Seq<Tok>> {
    match r {
        Some(ts) => Some(token_models(ts@)),
        None => None,
    }
}

/// The model of a type, where there is one.
pub open spec fn type_found(r: Option<Type>) -> Option<Ty> {
    match r {
        Some(ty) => Some(ty@),
        None => None,
    }
}

/// The model of a type with where it ends.
pub open spec fn type_at(r: Option<(Type, usize)>) -> Option<(Ty, int)> {
    match r {
        Some((ty, end)) => Some((ty@, end as int)),
        None => None,
    }
}

/// The model of an expression with where it ends.
pub open spec fn expr_at(r: Option<(Expr, usize)>) -> Option<(Term, int)> {
    match r {
        Some((e, end)) => Some((e@, end as int)),
        None => None,
    }
}

/// What is read ends after where it began, within the tokens.
pub proof fn lemma_binders_bounds(ts: Seq<Tok>, i: int)
    requires
        0 <= i <= ts.len(),
    ensures
        i <= binders(ts, i).1 <= ts.len(),
        binders(ts, i).0.len() == binders(ts, i).1 - i,
    decreases ts.len() - i,
{
    if i < ts.len() && ts[i] is Ident {
        lemma_binders_bounds(ts, i + 1);
    }
}

/// A type that is read ends after where it began, within the tokens.
pub proof fn lemma_parsed_type_bounds(ts: Seq<Tok>, i: int, level: nat)
    requires
        0 <= i,
        level <= 2,
    ensures
        level == 2 ==> (parsed_type(ts, i) matches Some((_, end)) ==> i < end <= ts.len()),
        level == 1 ==> (parsed_arrow(ts, i) matches Some((_, end)) ==> i < end <= ts.len()),
        level == 0 ==> (parsed_type_atom(ts, i) matches Some((_, end)) ==> i < end <= ts.len()),
    decreases ts.len() - i, level,
{
    if i < ts.len() {
        if level == 2 {
            if ts[i] is Forall {
                lemma_binders_bounds(ts, i + 1);
                let (vars, dot) = binders(ts, i + 1);
                if vars.len() > 0 && i < dot < ts.len() && ts[dot] is Dot {
                    lemma_parsed_type_bounds(ts, dot + 1, 2);
                }
            } else {
                lemma_parsed_type_bounds(ts, i, 1);
            }
        } else if level == 1 {
            lemma_parsed_type_bounds(ts, i, 0);
            if let Some((arg, next)) = parsed_type_atom(ts, i) {
                if i < next < ts.len() && ts[next] is Arrow {
                    lemma_parsed_type_bounds(ts, next + 1, 2);
                }
            }
        } else {
            if ts[i] is LParen {
                lemma_parsed_type_bounds(ts, i + 1, 2);
            }
        }
    }
}

/// An expression that is read ends after where it began, within the
/// tokens.
pub proof fn lemma_parsed_expr_bounds(ts: Seq<Tok>, i: int, level: nat)
    requires
        0 <= i,
        level <= 3,
    ensures
        level == 3 ==> (parsed_expr(ts, i) matches Some((_, end)) ==> i < end <= ts.len()),
        level == 2 ==> (parsed_annotated(ts, i) matches Some((_, end)) ==> i < end <= ts.len()),
        level == 0 ==> (parsed_atom(ts, i) matches Some((_, end)) ==> i < end <= ts.len()),
    decreases ts.len() - i, level,
{
    if i < ts.len() {
        if level == 3 {
            if ts[i] is Lambda {
                if i + 2 < ts.len() && ts[i + 1] is Ident && ts[i + 2] is Dot {
                    lemma_parsed_expr_bounds(ts, i + 3, 3);
                }
            } else {
                lemma_parsed_expr_bounds(ts, i, 2);
            }
        } else if level == 2 {
            lemma_parsed_expr_bounds(ts, i, 0);
            if let Some((head, next)) = parsed_atom(ts, i) {
                if i < next <= ts.len() {
                    lemma_parsed_arguments_bounds(ts, next, head);
                    let (e, after) = parsed_arguments(ts, next, head);
                    if 0 <= after < ts.len() && ts[after] is DoubleColon {
                        lemma_parsed_type_bounds(ts, after + 1, 2);
                    }
                }
            }
        } else if level == 0 {
            if ts[i] is LParen {
                lemma_parsed_expr_bounds(ts, i + 1, 3);
            }
        }
    }
}

/// The arguments that are read end within the tokens.
pub proof fn lemma_parsed_arguments_bounds(ts: Seq<Tok>, i: int, head: Term)
    requires
        0 <= i <= ts.len(),
    ensures
        i <= parsed_arguments(ts, i, head).1 <= ts.len(),
    decreases ts.len() - i, 1nat,
{
    lemma_parsed_expr_bounds(ts, i, 0);
    if let Some((arg, next)) = parsed_atom(ts, i) {
        if i < next <= ts.len() {
            lemma_parsed_arguments_bounds(
                ts,
                next,
                Term::App { func: Box::new(head), arg: Box::new(arg) },
            );
        }
    }
}

/// Whether two texts are the same.
fn same_text(a: &str, b: &str) -> (r: bool)
    ensures
        r == (a@ == b@),
{
    let n = a.unicode_len();
    if n != b.unicode_len() {
        return false;
    }
    let mut i: usize = 0;
    while i < n
        invariant
            i <= n,
            n == a@.len(),
            n == b@.len(),
            forall|j: int| 0 <= j < i ==> a@[j] == b@[j],
        decreases n - i,
    {
        if a.get_char(i) != b.get_char(i) {
            return false;
        }
        i = i + 1;
    }
    assert(a@ =~= b@);
    true
}

/// Reads the run of identifiers that begins at `pos`.
fn read_binders(tokens: &Vec<Token>, pos: usize) -> (r: (Vec<String>, usize))
    requires
        pos <= tokens.len(),
    ensures
        (names_view(r.0), r.1 as int) == binders(token_models(tokens@), pos as int),
        pos <= r.1 <= tokens.len(),
    decreases tokens.len() - pos,
{
    if pos < tokens.len() {
        match &tokens[pos] {
            Token::Ident(name) => {
                let (rest, end) = read_binders(tokens, pos + 1);
                let mut names: Vec<String> = Vec::new();
                names.push(name.clone());
                let mut i: usize = 0;
                while i < rest.len()
                    invariant
                        i <= rest.len(),
                        names.len() == i + 1,
                        names[0]@ == name@,
                        forall|j: int| 0 <= j < i ==> names[j + 1]@ == rest[j]@,
                    decreases rest.len() - i,
                {
                    names.push(rest[i].clone());
                    i = i + 1;
                }
                assert(names_view(names) =~= seq![name@] + names_view(rest));
                (names, end)
            },
            _ => {
                let names: Vec<String> = Vec::new();
                assert(names_view(names) =~= Seq::empty());
                (names, pos)
            },
        }
    } else {
        let names: Vec<String> = Vec::new();
        assert(names_view(names) =~= Seq::empty());
        (names, pos)
    }
}

/// Reads a type at `pos`: the type, and where it ends.
pub fn read_type(tokens: &Vec<Token>, pos: usize) -> (r: Option<(Type, usize)>)
    ensures
        type_at(r) == parsed_type(token_models(tokens@), pos as int),
        r matches Some((_, end)) ==> pos < end <= tokens.len(),
    decreases tokens.len() - pos, 2nat,
{
    proof {
        lemma_parsed_type_bounds(token_models(tokens@), pos as int, 2);
    }
    if pos < tokens.len() {
        match &tokens[pos] {
            Token::Forall => {
                let (vars, dot) = read_binders(tokens, pos + 1);
                if vars.len() > 0 && dot < tokens.len() {
                    match &tokens[dot] {
                        Token::Dot => {
                            return match read_type(tokens, dot + 1) {
                                Some((body, end)) => Some((Type::Poly { vars, ty: Box::new(body) }, end)),
                                None => None,
                            };
                        },
                        _ => {
                            return None;
                        },
                    }
                }
                return None;
            },
            _ => {},
        }
    }
    read_arrow(tokens, pos)
}

/// Reads an arrow, or the atom of a type, at `pos`.
fn read_arrow(tokens: &Vec<Token>, pos: usize) -> (r: Option<(Type, usize)>)
    ensures
        type_at(r) == parsed_arrow(token_models(tokens@), pos as int),
        r matches Some((_, end)) ==> pos < end <= tokens.len(),
    decreases tokens.len() - pos, 1nat,
{
    proof {
        lemma_parsed_type_bounds(token_models(tokens@), pos as int, 1);
    }
    let (arg, next) = match read_type_atom(tokens, pos) {
        Some(found) => found,
        None => {
            return None;
        },
    };
    if next < tokens.len() {
        match &tokens[next] {
            Token::Arrow => {
                return match read_type(tokens, next + 1) {
                    Some((result, end)) => Some((Type::fun(arg, result), end)),
                    None => None,
                };
            },
            _ => {},
        }
    }
    Some((arg, next))
}

/// Reads the atom of a type at `pos`.
fn read_type_atom(tokens: &Vec<Token>, pos: usize) -> (r: Option<(Type, usize)>)
    ensures
        type_at(r) == parsed_type_atom(token_models(tokens@), pos as int),
        r matches Some((_, end)) ==> pos < end <= tokens.len(),
    decreases tokens.len() - pos, 0nat,
{
    proof {
        lemma_parsed_type_bounds(token_models(tokens@), pos as int, 0);
    }
    if pos >= tokens.len() {
        return None;
    }
    match &tokens[pos] {
        Token::UpperIdent(name) => {
            if same_text(name.as_str(), "Int") {
                Some((Type::Int, pos + 1))
            } else if same_text(name.as_str(), "Bool") {
                Some((Type::Bool, pos + 1))
            } else {
                None
            }
        },
        Token::Ident(name) => Some((Type::Var(name.clone()), pos + 1)),
        Token::LParen => {
            match read_type(tokens, pos + 1) {
                Some((inner, close)) => {
                    if close < tokens.len() {
                        match &tokens[close] {
                            Token::RParen => Some((inner, close + 1)),
                            _ => None,
                        }
                    } else {
                        None
                    }
                },
                None => None,
            }
        },
        _ => None,
    }
}

/// Reads an expression at `pos`: the expression, and where it ends.
pub fn read_expr(tokens: &Vec<Token>, pos: usize) -> (r: Option<(Expr, usize)>)
    ensures
        expr_at(r) == parsed_expr(token_models(tokens@), pos as int),
        r matches Some((_, end)) ==> pos < end <= tokens.len(),
    decreases tokens.len() - pos, 3nat,
{
    proof {
        lemma_parsed_expr_bounds(token_models(tokens@), pos as int, 3);
    }
    if pos < tokens.len() {
        match &tokens[pos] {
            Token::Lambda => {
                if tokens.len() - pos > 2 {
                    match &tokens[pos + 1] {
                        Token::Ident(binder) => match &tokens[pos + 2] {
                            Token::Dot => {
                                return match read_expr(tokens, pos + 3) {
                                    Some((body, end)) => Some(
                                        (Expr::Lambda { binder: binder.clone(), body: Box::new(body) }, end),
                                    ),
                                    None => None,
                                };
                            },
                            _ => {
                                return None;
                            },
                        },
                        _ => {
                            return None;
                        },
                    }
                }
                return None;
            },
            _ => {},
        }
    }
    read_annotated(tokens, pos)
}

/// Reads an application at `pos`, with the annotation that follows it, if
/// one does.
fn read_annotated(tokens: &Vec<Token>, pos: usize) -> (r: Option<(Expr, usize)>)
    ensures
        expr_at(r) == parsed_annotated(token_models(tokens@), pos as int),
        r matches Some((_, end)) ==> pos < end <= tokens.len(),
    decreases tokens.len() - pos, 2nat,
{
    proof {
        lemma_parsed_expr_bounds(token_models(tokens@), pos as int, 2);
    }
    let (head, next) = match read_atom(tokens, pos) {
        Some(found) => found,
        None => {
            return None;
        },
    };
    let ghost ts = token_models(tokens@);
    let mut e = head;
    let mut at = next;
    loop
        invariant
            ts == token_models(tokens@),
            pos < at <= tokens.len(),
            parsed_arguments(ts, next as int, head@) == parsed_arguments(ts, at as int, e@),
        ensures
            pos < at <= tokens.len(),
            parsed_arguments(ts, next as int, head@) == (e@, at as int),
        decreases tokens.len() - at,
    {
        match read_atom(tokens, at) {
            Some((arg, after)) => {
                e = Expr::App { func: Box::new(e), arg: Box::new(arg) };
                at = after;
            },
            None => {
                assert(parsed_arguments(ts, at as int, e@) == (e@, at as int));
                break;
            },
        }
    }
    if at < tokens.len() {
        match &tokens[at] {
            Token::DoubleColon => {
                return match read_type(tokens, at + 1) {
                    Some((ty, end)) => Some((Expr::Ann { expr: Box::new(e), ty }, end)),
                    None => None,
                };
            },
            _ => {},
        }
    }
    Some((e, at))
}

/// Reads an atom at `pos`.
fn read_atom(tokens: &Vec<Token>, pos: usize) -> (r: Option<(Expr, usize)>)
    ensures
        expr_at(r) == parsed_atom(token_models(tokens@), pos as int),
        r matches Some((_, end)) ==> pos < end <= tokens.len(),
    decreases tokens.len() - pos, 0nat,
{
    proof {
        lemma_parsed_expr_bounds(token_models(tokens@), pos as int, 0);
    }
    if pos >= tokens.len() {
        return None;
    }
    match &tokens[pos] {
        Token::IntLiteral(n) => Some((Expr::Literal(Literal::Int(*n)), pos + 1)),
        Token::BooleanLiteral(b) => Some((Expr::Literal(Literal::Bool(*b)), pos + 1)),
        Token::Ident(name) => Some((Expr::Var(name.clone()), pos + 1)),
        Token::LParen => {
            match read_expr(tokens, pos + 1) {
                Some((inner, close)) => {
                    if close < tokens.len() {
                        match &tokens[close] {
                            Token::RParen => Some((inner, close + 1)),
                            _ => None,
                        }
                    } else {
                        None
                    }
                },
                None => None,
            }
        },
        _ => None,
    }
}

/// The expression that the tokens spell from the first to the last, or
/// nothing where they spell none.
pub fn parse_tokens(tokens: &Vec<Token>) -> (r: Option<Expr>)
    ensures
        expr_outcome(r) == parsed(token_models(tokens@)),
{
    match read_expr(tokens, 0) {
        Some((e, end)) => {
            if end == tokens.len() {
                Some(e)
            } else {
                None
            }
        },
        None => None,
    }
}

/// The type that the tokens spell from the first to the last, or nothing
/// where they spell none.
pub fn parse_type_tokens(tokens: &Vec<Token>) -> (r: Option<Type>)
    ensures
        type_found(r) == parsed_whole_type(token_models(tokens@)),
{
    match read_type(tokens, 0) {
        Some((ty, end)) => {
            if end == tokens.len() {
                Some(ty)
            } else {
                None
            }
        },
        None => None,
    }
}

/// The tokens of a text, or nothing where some character of it neither
/// belongs to a token nor is white space.
pub fn tokenize(input: &str) -> (r: Option<Vec<Token>>)
    ensures
        tokens_outcome(r) == lexed_whole(input@, skip_spaces(input@, 0)),
{
    let mut lexer = Lexer::new(input);
    let mut out: Vec<Token> = Vec::new();
    let ghost s = input@;
    let ghost begin = lexer.position();
    assert(token_models(out@) =~= Seq::empty());
    proof {
        if let Some(all) = lexed_whole(s, begin) {
            assert(token_models(out@) + all =~= all);
        }
    }
    loop
        invariant
            s == input@,
            begin == skip_spaces(input@, 0),
            lexer.text() == s,
            0 <= lexer.position() <= s.len(),
            match lexed_whole(s, lexer.position()) {
                Some(rest) => lexed_whole(s, begin) == Some(token_models(out@) + rest),
                None => lexed_whole(s, begin) is None,
            },
        decreases s.len() - lexer.position(),
    {
        if lexer.at_end() {
            assert(lexed_whole(s, lexer.position()) == Some(Seq::<Tok>::empty()));
            assert(token_models(out@) + Seq::<Tok>::empty() =~= token_models(out@));
            return Some(out);
        }
        let ghost before = token_models(out@);
        let ghost at = lexer.position();
        match lexer.next_token() {
            Some(t) => {
                out.push(t);
                proof {
                    assert(token_models(out@) =~= before.push(t@));
                    match lexed_whole(s, lexer.position()) {
                        Some(rest) => {
                            assert(lexed_whole(s, at) == Some(seq![t@] + rest));
                            assert(before + (seq![t@] + rest) =~= token_models(out@) + rest);
                        },
                        None => {},
                    }
                }
            },
            None => {
                return None;
            },
        }
    }
}

/// The expression that a text spells, or nothing where it spells none.
pub fn parse(input: &str) -> (r: Option<Expr>)
    ensures
        expr_outcome(r) == parsed_text(input@),
{
    match tokenize(input) {
        Some(tokens) => parse_tokens(&tokens),
        None => None,
    }
}

/// The type that a text spells, or nothing where it spells none.
pub fn parse_type(input: &str) -> (r: Option<Type>)
    ensures
        type_found(r) == parsed_type_text(input@),
{
    match tokenize(input) {
        Some(tokens) => parse_type_tokens(&tokens),
        None => None,
    }
}

} // verus!
