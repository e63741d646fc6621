//! The vocabulary of lexical units: numeric literals, operators and
//! parenthesis markers, together with the operators' identity elements.
//!
//! A numeric literal is carried as its decimal text (a sequence of digits
//! with at most one `.`); its floating-point value is only produced by the
//! unverified evaluation layer around this library, since this library's
//! verified code holds no floating-point values.

use vstd::prelude::*;

verus! {

/// One of the five binary operators of the expression grammar.
#[derive(Clone, Copy, PartialEq, Eq, Structural, Debug)]
pub enum Op {
    Add,
    Sub,
    Mul,
    Div,
    Exp,
}

/// An atomic lexical unit: a numeric literal (as decimal text), an
/// operator, or a parenthesis marker.
#[derive(Debug)]
pub enum Token {
    Num(Vec<char>),
    Op(Op),
    LPar,
    RPar,
}

/// The mathematical model of a token: literal text becomes a `Seq<char>`.
pub enum Tok {
    Num(Seq<char>),
    Op(Op),
    LPar,
    RPar,
}

impl View for Token {
    type V = Tok;

    open spec fn view(&self) -> Tok {
        match self {
            Token::Num(text) => Tok::Num(text@),
            Token::Op(op) => Tok::Op(*op),
            Token::LPar => Tok::LPar,
            Token::RPar => Tok::RPar,
        }
    }
}

/// The model of a token sequence.
pub open spec fn toks_view(ts: Seq<Token>) -> Seq<Tok> {
    ts.map_values(|t: Token| t@)
}

/// The model of a token sequence is the sequence of the tokens' models.
pub proof fn lemma_toks_view_index(ts: Seq<Token>)
    ensures
        toks_view(ts).len() == ts.len(),
        forall|i: int| 0 <= i < ts.len() ==> #[trigger] toks_view(ts)[i] == ts[i]@,
{
}

/// Whether a token is a numeric literal.
pub open spec fn is_num(t: Tok) -> bool {
    match t {
        Tok::Num(_) => true,
        _ => false,
    }
}

/// Whether a token is an operator.
pub open spec fn is_op(t: Tok) -> bool {
    match t {
        Tok::Op(_) => true,
        _ => false,
    }
}

/// Whether a token is an open parenthesis.
pub open spec fn is_lpar(t: Tok) -> bool {
    match t {
        Tok::LPar => true,
        _ => false,
    }
}

/// Whether a token is a close parenthesis.
pub open spec fn is_rpar(t: Tok) -> bool {
    match t {
        Tok::RPar => true,
        _ => false,
    }
}

/// The identity element of an operator, as the decimal text of a numeric
/// literal: `0` for addition and subtraction, `1` for multiplication,
/// division and exponentiation.
pub open spec fn identity_text(op: Op) -> Seq<char> {
    match op {
        Op::Add | Op::Sub => seq!['0'],
        Op::Mul | Op::Div | Op::Exp => seq!['1'],
    }
}

impl Op {
    /// The operand text that leaves this operator's result unchanged; token
    /// repair inserts it where an operand is implicitly missing.
    pub fn identity(&self) -> (r: Vec<char>)
        ensures
            r@ == identity_text(*self),
    {
        let mut text: Vec<char> = Vec::new();
        match self {
            Op::Add | Op::Sub => text.push('0'),
            Op::Mul | Op::Div | Op::Exp => text.push('1'),
        }
        proof {
            assert(text@ =~= identity_text(*self));
        }
        text
    }
}

} // verus!
