//! The recursive-descent parser and the expression tree it builds.
//!
//! Grammar, lowest precedence first; every rule folds into a
//! left-associated chain, so exponentiation is deliberately
//! left-associative here (`2^3^2` parses as `(2^3)^2`), unlike conventional
//! mathematical notation:
//!
//! ```text
//! sum     := product (('+' | '-') product)*
//! product := power (('*' | '/') power)*
//! power   := atom ('^' atom)*
//! atom    := NUMBER | '(' sum ')'
//! ```
//!
//! The parser consumes the longest prefix of the token sequence that forms
//! one expression; after a parenthesized group it consumes the following
//! token unconditionally, without checking that it is the close
//! parenthesis.  Token repair usually guarantees a consumable sequence; on
//! a sequence where no atom stands where one is expected (for instance an
//! empty parenthesis group), parsing reports failure rather than reading
//! past the end.

use vstd::prelude::*;

use crate::token::lemma_toks_view_index;
use crate::token::toks_view;
use crate::token::Op;
use crate::token::Tok;
use crate::token::Token;

verus! {

/// A parsed expression: a literal (decimal text) or a binary term whose
/// operands are exclusively owned subtrees.
#[derive(Debug)]
pub enum Expr {
    Term(Box<Expr>, Op, Box<Expr>),
    Literal(Vec<char>),
}

/// The mathematical model of an expression tree.
pub enum ExprModel {
    Term(Box<ExprModel>, Op, Box<ExprModel>),
    Lit(Seq<char>),
}

/// The model of an expression tree: literal text becomes a `Seq<char>`.
pub open spec fn expr_view(e: Expr) -> ExprModel
    decreases e,
{
    match e {
        Expr::Term(l, op, r) => ExprModel::Term(
            Box::new(expr_view(*l)),
            op,
            Box::new(expr_view(*r)),
        ),
        Expr::Literal(text) => ExprModel::Lit(text@),
    }
}

impl View for Expr {
    type V = ExprModel;

    open spec fn view(&self) -> ExprModel {
        expr_view(*self)
    }
}

/// Whether token `t` is the operator `o`.
pub open spec fn tok_is_op(t: Tok, o: Op) -> bool {
    match t {
        Tok::Op(x) => x == o,
        _ => false,
    }
}

/// Parses one atom at `i`: a literal, or a parenthesized group whose
/// following token is consumed unconditionally.
pub open spec fn parse_atom(ts: Seq<Tok>, i: int) -> Option<(ExprModel, int)>
    decreases ts.len() - i, 0int,
{
    if 0 <= i < ts.len() {
        match ts[i] {
            Tok::Num(text) => Some((ExprModel::Lit(text), i + 1)),
            Tok::LPar => match parse_sum(ts, i + 1) {
                None => None,
                Some((e, j)) => if j < ts.len() {
                    Some((e, j + 1))
                } else {
                    None
                },
            },
            _ => None,
        }
    } else {
        None
    }
}

/// Parses a power chain starting at `i`.
pub open spec fn parse_pow(ts: Seq<Tok>, i: int) -> Option<(ExprModel, int)>
    decreases ts.len() - i, 1int,
{
    match parse_atom(ts, i) {
        None => None,
        Some((e, j)) => if i < j <= ts.len() {
            parse_pow_tail(ts, j, e)
        } else {
            None
        },
    }
}

/// Folds further `^ atom` steps onto `acc`, left-associatively.
pub open spec fn parse_pow_tail(ts: Seq<Tok>, j: int, acc: ExprModel) -> Option<(ExprModel, int)>
    decreases ts.len() - j, 2int,
{
    if 0 <= j < ts.len() && tok_is_op(ts[j], Op::Exp) {
        match parse_atom(ts, j + 1) {
            None => None,
            Some((e2, k)) => if j + 1 < k <= ts.len() {
                parse_pow_tail(ts, k, ExprModel::Term(Box::new(acc), Op::Exp, Box::new(e2)))
            } else {
                None
            },
        }
    } else {
        Some((acc, j))
    }
}

/// Parses a product chain starting at `i`.
pub open spec fn parse_prod(ts: Seq<Tok>, i: int) -> Option<(ExprModel, int)>
    decreases ts.len() - i, 3int,
{
    match parse_pow(ts, i) {
        None => None,
        Some((e, j)) => if i < j <= ts.len() {
            parse_prod_tail(ts, j, e)
        } else {
            None
        },
    }
}

/// Folds further `* power` or `/ power` steps onto `acc`.
pub open spec fn parse_prod_tail(ts: Seq<Tok>, j: int, acc: ExprModel) -> Option<(ExprModel, int)>
    decreases ts.len() - j, 4int,
{
    if 0 <= j < ts.len() && (tok_is_op(ts[j], Op::Mul) || tok_is_op(ts[j], Op::Div)) {
        let o = match ts[j] {
            Tok::Op(x) => x,
            _ => Op::Mul,
        };
        match parse_pow(ts, j + 1) {
            None => None,
            Some((e2, k)) => if j + 1 < k <= ts.len() {
                parse_prod_tail(ts, k, ExprModel::Term(Box::new(acc), o, Box::new(e2)))
            } else {
                None
            },
        }
    } else {
        Some((acc, j))
    }
}

/// Parses a sum chain starting at `i`: the grammar's entry rule.
pub open spec fn parse_sum(ts: Seq<Tok>, i: int) -> Option<(ExprModel, int)>
    decreases ts.len() - i, 5int,
{
    match parse_prod(ts, i) {
        None => None,
        Some((e, j)) => if i < j <= ts.len() {
            parse_sum_tail(ts, j, e)
        } else {
            None
        },
    }
}

/// Folds further `+ product` or `- product` steps onto `acc`.
pub open spec fn parse_sum_tail(ts: Seq<Tok>, j: int, acc: ExprModel) -> Option<(ExprModel, int)>
    decreases ts.len() - j, 6int,
{
    if 0 <= j < ts.len() && (tok_is_op(ts[j], Op::Add) || tok_is_op(ts[j], Op::Sub)) {
        let o = match ts[j] {
            Tok::Op(x) => x,
            _ => Op::Add,
        };
        match parse_prod(ts, j + 1) {
            None => None,
            Some((e2, k)) => if j + 1 < k <= ts.len() {
                parse_sum_tail(ts, k, ExprModel::Term(Box::new(acc), o, Box::new(e2)))
            } else {
                None
            },
        }
    } else {
        Some((acc, j))
    }
}

/// Copies literal text out of a borrowed token.
fn copy_chars(text: &Vec<char>) -> (r: Vec<char>)
    ensures
        r@ == text@,
{
    let mut out: Vec<char> = Vec::new();
    let mut i: usize = 0;
    while i < text.len()
        invariant
            i <= text@.len(),
            out@ == text@.take(i as int),
        decreases text@.len() - i,
    {
        out.push(text[i]);
        i = i + 1;
        proof {
            assert(out@ =~= text@.take(i as int));
        }
    }
    proof {
        assert(out@ =~= text@);
    }
    out
}

/// The executable mirror of `parse_atom`.
fn atom_exec(ts: &Vec<Token>, i: usize) -> (r: Option<(Box<Expr>, usize)>)
    requires
        i <= ts@.len(),
    ensures
        (r is Some) == (parse_atom(toks_view(ts@), i as int) is Some),
        r matches Some(p) ==> parse_atom(toks_view(ts@), i as int) == Some(
            (expr_view(*p.0), p.1 as int),
        ) && i < p.1 <= ts@.len(),
    decreases ts@.len() - i, 0int,
{
    proof {
        lemma_toks_view_index(ts@);
    }
    if i < ts.len() {
        match &ts[i] {
            Token::Num(text) => Some((Box::new(Expr::Literal(copy_chars(text))), i + 1)),
            Token::LPar => {
                match sum_exec(ts, i + 1) {
                    None => None,
                    Some((e, j)) => {
                        if j < ts.len() {
                            Some((e, j + 1))
                        } else {
                            None
                        }
                    },
                }
            },
            _ => None,
        }
    } else {
        None
    }
}

/// The executable mirror of `parse_pow`.
fn pow_exec(ts: &Vec<Token>, i: usize) -> (r: Option<(Box<Expr>, usize)>)
    requires
        i <= ts@.len(),
    ensures
        (r is Some) == (parse_pow(toks_view(ts@), i as int) is Some),
        r matches Some(p) ==> parse_pow(toks_view(ts@), i as int) == Some(
            (expr_view(*p.0), p.1 as int),
        ) && i < p.1 <= ts@.len(),
    decreases ts@.len() - i, 1int,
{
    let first = atom_exec(ts, i);
    match first {
        None => None,
        Some((e0, j0)) => {
            let mut acc = e0;
            let mut j = j0;
            while j < ts.len() && matches!(&ts[j], Token::Op(Op::Exp))
                invariant
                    i < j <= ts@.len(),
                    parse_pow_tail(toks_view(ts@), j as int, expr_view(*acc)) == parse_pow(
                        toks_view(ts@),
                        i as int,
                    ),
                decreases ts@.len() - j,
            {
                proof {
                    lemma_toks_view_index(ts@);
                    assert(tok_is_op(toks_view(ts@)[j as int], Op::Exp));
                }
                match atom_exec(ts, j + 1) {
                    None => {
                        return None;
                    },
                    Some((e2, k)) => {
                        acc = Box::new(Expr::Term(acc, Op::Exp, e2));
                        j = k;
                    },
                }
            }
            proof {
                lemma_toks_view_index(ts@);
                assert(parse_pow_tail(toks_view(ts@), j as int, expr_view(*acc)) == Some(
                    (expr_view(*acc), j as int),
                ));
            }
            Some((acc, j))
        },
    }
}

/// The executable mirror of `parse_prod`.
fn prod_exec(ts: &Vec<Token>, i: usize) -> (r: Option<(Box<Expr>, usize)>)
    requires
        i <= ts@.len(),
    ensures
        (r is Some) == (parse_prod(toks_view(ts@), i as int) is Some),
        r matches Some(p) ==> parse_prod(toks_view(ts@), i as int) == Some(
            (expr_view(*p.0), p.1 as int),
        ) && i < p.1 <= ts@.len(),
    decreases ts@.len() - i, 3int,
{
    let first = pow_exec(ts, i);
    match first {
        None => None,
        Some((e0, j0)) => {
            let mut acc = e0;
            let mut j = j0;
            while j < ts.len() && matches!(&ts[j], Token::Op(Op::Mul | Op::Div))
                invariant
                    i < j <= ts@.len(),
                    parse_prod_tail(toks_view(ts@), j as int, expr_view(*acc)) == parse_prod(
                        toks_view(ts@),
                        i as int,
                    ),
                decreases ts@.len() - j,
            {
                let op = if matches!(&ts[j], Token::Op(Op::Mul)) {
                    Op::Mul
                } else {
                    Op::Div
                };
                proof {
                    lemma_toks_view_index(ts@);
                    assert(tok_is_op(toks_view(ts@)[j as int], op));
                }
                match pow_exec(ts, j + 1) {
                    None => {
                        return None;
                    },
                    Some((e2, k)) => {
                        acc = Box::new(Expr::Term(acc, op, e2));
                        j = k;
                    },
                }
            }
            proof {
                lemma_toks_view_index(ts@);
                assert(parse_prod_tail(toks_view(ts@), j as int, expr_view(*acc)) == Some(
                    (expr_view(*acc), j as int),
                ));
            }
            Some((acc, j))
        },
    }
}

/// The executable mirror of `parse_sum`.
pub(crate) fn sum_exec(ts: &Vec<Token>, i: usize) -> (r: Option<(Box<Expr>, usize)>)
    requires
        i <= ts@.len(),
    ensures
        (r is Some) == (parse_sum(toks_view(ts@), i as int) is Some),
        r matches Some(p) ==> parse_sum(toks_view(ts@), i as int) == Some(
            (expr_view(*p.0), p.1 as int),
        ) && i < p.1 <= ts@.len(),
    decreases ts@.len() - i, 5int,
{
    let first = prod_exec(ts, i);
    match first {
        None => None,
        Some((e0, j0)) => {
            let mut acc = e0;
            let mut j = j0;
            while j < ts.len() && matches!(&ts[j], Token::Op(Op::Add | Op::Sub))
                invariant
                    i < j <= ts@.len(),
                    parse_sum_tail(toks_view(ts@), j as int, expr_view(*acc)) == parse_sum(
                        toks_view(ts@),
                        i as int,
                    ),
                decreases ts@.len() - j,
            {
                let op = if matches!(&ts[j], Token::Op(Op::Add)) {
                    Op::Add
                } else {
                    Op::Sub
                };
                proof {
                    lemma_toks_view_index(ts@);
                    assert(tok_is_op(toks_view(ts@)[j as int], op));
                }
                match prod_exec(ts, j + 1) {
                    None => {
                        return None;
                    },
                    Some((e2, k)) => {
                        acc = Box::new(Expr::Term(acc, op, e2));
                        j = k;
                    },
                }
            }
            proof {
                lemma_toks_view_index(ts@);
                assert(parse_sum_tail(toks_view(ts@), j as int, expr_view(*acc)) == Some(
                    (expr_view(*acc), j as int),
                ));
            }
            Some((acc, j))
        },
    }
}

/// A parser cursor: the repaired token sequence and the next position.
pub struct Ast {
    tokens: Vec<Token>,
    current_index: usize,
}

impl Ast {
    /// The model of the cursor's token sequence.
    pub closed spec fn toks(self) -> Seq<Tok> {
        toks_view(self.tokens@)
    }

    /// The cursor's current position.
    pub closed spec fn pos(self) -> int {
        self.current_index as int
    }

    /// A fresh cursor over `tokens`, at the start.
    pub fn new(tokens: Vec<Token>) -> (r: Ast)
        ensures
            r.toks() == toks_view(tokens@),
            r.pos() == 0,
    {
        Ast { tokens, current_index: 0 }
    }

    /// Builds the expression tree of the longest parseable prefix.  Token
    /// repair normally guarantees the precondition; `parse_text` checks it
    /// at run time instead of assuming it.
    pub fn build(self) -> (r: Box<Expr>)
        requires
            parse_sum(self.toks(), self.pos()) is Some,
        ensures
            parse_sum(self.toks(), self.pos()) matches Some(p) && expr_view(*r) == p.0,
    {
        proof {
            assert(self.current_index as int <= self.toks().len()) by {
                if self.toks().len() < self.current_index as int {
                    assert(parse_atom(self.toks(), self.pos()) is None);
                    assert(parse_pow(self.toks(), self.pos()) is None);
                    assert(parse_prod(self.toks(), self.pos()) is None);
                    assert(parse_sum(self.toks(), self.pos()) is None);
                }
            }
            lemma_toks_view_index(self.tokens@);
        }
        let r = sum_exec(&self.tokens, self.current_index);
        match r {
            Some((e, _next)) => e,
            None => vstd::pervasive::unreached(),
        }
    }
}

} // verus!

verus! {

/// The character naming an operator.
pub open spec fn op_char_of(op: Op) -> char {
    match op {
        Op::Add => '+',
        Op::Sub => '-',
        Op::Mul => '*',
        Op::Div => '/',
        Op::Exp => '^',
    }
}

/// The debug-style rendering of a tree: a literal is its text, a term is
/// `(left op right)`.
pub open spec fn render_view(e: ExprModel) -> Seq<char>
    decreases e,
{
    match e {
        ExprModel::Lit(text) => text,
        ExprModel::Term(l, op, r) => seq!['('] + render_view(*l) + seq![' ', op_char_of(op), ' ']
            + render_view(*r) + seq![')'],
    }
}

impl Op {
    /// The character naming this operator.
    pub fn symbol(&self) -> (c: char)
        ensures
            c == op_char_of(*self),
    {
        match self {
            Op::Add => '+',
            Op::Sub => '-',
            Op::Mul => '*',
            Op::Div => '/',
            Op::Exp => '^',
        }
    }
}

impl Expr {
    /// Renders the tree as text, a literal as itself and a term as
    /// `(left op right)`.
    pub fn render(&self) -> (r: Vec<char>)
        ensures
            r@ == render_view(expr_view(*self)),
        decreases *self,
    {
        match self {
            Expr::Literal(text) => copy_chars(text),
            Expr::Term(l, op, rt) => {
                let mut out: Vec<char> = Vec::new();
                out.push('(');
                let mut left = l.render();
                out.append(&mut left);
                out.push(' ');
                out.push(op.symbol());
                out.push(' ');
                let mut right = rt.render();
                out.append(&mut right);
                out.push(')');
                proof {
                    assert(out@ =~= render_view(expr_view(*self)));
                }
                out
            },
        }
    }
}

} // verus!
