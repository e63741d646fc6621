//! Token repair: the normalization pass between the lexer and the parser.
//!
//! The pass first walks the sequence keeping a running parenthesis counter;
//! a close parenthesis with no matching open is an unrecoverable failure,
//! while opens left unclosed at the end are repaired by appending the
//! missing close parentheses.  A second pass, walking the sequence from the
//! end towards the start, inserts an implicit multiplication between a close
//! parenthesis and a following literal or open parenthesis, and inserts an
//! operator's identity literal next to any operator that is missing an
//! operand on either side.

use vstd::prelude::*;

use crate::token::identity_text;
use crate::token::is_lpar;
use crate::token::lemma_toks_view_index;
use crate::token::is_num;
use crate::token::is_rpar;
use crate::token::toks_view;
use crate::token::Op;
use crate::token::Tok;
use crate::token::Token;

verus! {

/// The contribution of one token to the running parenthesis counter.
pub open spec fn tok_delta(t: Tok) -> int {
    match t {
        Tok::LPar => 1,
        Tok::RPar => -1,
        _ => 0,
    }
}

/// The parenthesis counter after the first `n` tokens of `ts`.
pub open spec fn depth_after(ts: Seq<Tok>, n: int) -> int
    decreases n,
{
    if n <= 0 {
        0
    } else {
        depth_after(ts, n - 1) + tok_delta(ts[n - 1])
    }
}

/// Whether no prefix of `ts` closes more parentheses than it opens.
pub open spec fn prefixes_balanced(ts: Seq<Tok>) -> bool {
    forall|n: int| 0 <= n <= ts.len() ==> depth_after(ts, n) >= 0
}

/// `k` close parentheses, as appended for opens left unclosed at the end.
pub open spec fn close_fill(k: nat) -> Seq<Tok> {
    Seq::new(k, |i: int| Tok::RPar)
}

/// The insertion pass over `src[k..]`, walking from the end towards the
/// start.  At each position the inserted tokens depend on the original token
/// before the current one and on the first token of the already-processed
/// suffix (so an identity literal inserted at one position is seen as the
/// successor of the operator before it).
pub open spec fn insert_pass_from(src: Seq<Tok>, k: int) -> Seq<Tok>
    decreases src.len() - k,
{
    if k < 0 || k >= src.len() {
        Seq::empty()
    } else {
        let out = insert_pass_from(src, k + 1);
        let cur = src[k];
        let behind_rpar = k > 0 && is_rpar(src[k - 1]);
        let behind_operand = k > 0 && (is_num(src[k - 1]) || is_rpar(src[k - 1]));
        let ahead_operand = out.len() > 0 && (is_num(out[0]) || is_lpar(out[0]));
        if behind_rpar && (is_num(cur) || is_lpar(cur)) {
            seq![Tok::Op(Op::Mul), cur] + out
        } else {
            match cur {
                Tok::Op(op) => {
                    let with_after = if ahead_operand {
                        seq![cur] + out
                    } else {
                        seq![cur, Tok::Num(identity_text(op))] + out
                    };
                    if behind_operand {
                        with_after
                    } else {
                        seq![Tok::Num(identity_text(op))] + with_after
                    }
                },
                _ => seq![cur] + out,
            }
        }
    }
}

/// What token repair produces: `None` exactly when some prefix closes more
/// parentheses than it opens; otherwise the missing close parentheses are
/// appended and the insertion pass is run over the balanced sequence.
pub open spec fn spec_fix(ts: Seq<Tok>) -> Option<Seq<Tok>> {
    if prefixes_balanced(ts) {
        Some(insert_pass_from(ts + close_fill(depth_after(ts, ts.len() as int) as nat), 0))
    } else {
        None
    }
}

/// Repairs a raw token sequence, per `spec_fix`.
pub fn fix_tokens(tokens: Vec<Token>) -> (r: Option<Vec<Token>>)
    ensures
        match r {
            Some(v) => spec_fix(toks_view(tokens@)) == Some(toks_view(v@)),
            None => spec_fix(toks_view(tokens@)) is None,
        },
{
    let ghost orig = toks_view(tokens@);
    let mut work = tokens;

    // First pass: the running parenthesis counter, kept as two
    // non-negative counts so that the arithmetic stays in `usize`.
    let mut opens: usize = 0;
    let mut closes: usize = 0;
    let mut i: usize = 0;
    while i < work.len()
        invariant
            orig == toks_view(tokens@),
            toks_view(work@) == orig,
            i <= work@.len(),
            closes <= opens <= i,
            opens - closes == depth_after(orig, i as int),
            forall|n: int| 0 <= n <= i ==> depth_after(orig, n) >= 0,
        decreases work@.len() - i,
    {
        proof {
            lemma_toks_view_index(work@);
            assert(orig[i as int] == work@[i as int]@);
        }
        match &work[i] {
            Token::LPar => {
                opens = opens + 1;
            },
            Token::RPar => {
                closes = closes + 1;
                if closes > opens {
                    proof {
                        assert(depth_after(orig, i + 1) < 0);
                        assert(!prefixes_balanced(orig));
                        assert(spec_fix(orig) is None);
                    }
                    return None;
                }
            },
            _ => {},
        }
        i = i + 1;
    }
    proof {
        assert(prefixes_balanced(orig));
    }

    // Append one close parenthesis for each open left unclosed.
    let missing: usize = opens - closes;
    let mut j: usize = 0;
    while j < missing
        invariant
            j <= missing,
            toks_view(work@) == orig + close_fill(j as nat),
        decreases missing - j,
    {
        let ghost before = work@;
        let ghost jprev = j as nat;
        work.push(Token::RPar);
        j = j + 1;
        proof {
            lemma_toks_view_index(before);
            lemma_toks_view_index(work@);
            assert forall|n: int| 0 <= n < work@.len() implies #[trigger] toks_view(work@)[n]
                == (orig + close_fill(j as nat))[n] by {
                if n < before.len() {
                    assert(work@[n] == before[n]);
                    assert(toks_view(before)[n] == (orig + close_fill(jprev))[n]);
                } else {
                    assert(work@[n] == Token::RPar);
                }
            }
            assert(toks_view(work@) =~= orig + close_fill(j as nat));
        }
    }
    let ghost src = toks_view(work@);
    proof {
        assert(src =~= src.take(work@.len() as int));
        assert(spec_fix(orig) == Some(insert_pass_from(src, 0)));
    }

    // Second pass: consume the balanced sequence from the end, prepending
    // each original token, with its inserted companions, to the output.
    let mut out: Vec<Token> = Vec::new();
    proof {
        assert(toks_view(out@) =~= insert_pass_from(src, work@.len() as int));
    }
    while work.len() > 0
        invariant
            work@.len() <= src.len(),
            toks_view(work@) == src.take(work@.len() as int),
            toks_view(out@) == insert_pass_from(src, work@.len() as int),
            spec_fix(orig) == Some(insert_pass_from(src, 0)),
        decreases work@.len(),
    {
        let ghost out_before = toks_view(out@);
        let ghost toks_before = work@;
        let cur = work.pop().unwrap();
        let k = work.len();
        proof {
            lemma_toks_view_index(toks_before);
            lemma_toks_view_index(work@);
            assert(cur@ == toks_view(toks_before)[k as int]);
            assert(cur@ == src[k as int]);
            assert(toks_view(work@) =~= src.take(k as int));
            assert(k > 0 ==> toks_view(work@)[k - 1] == src.take(k as int)[k - 1]);
            assert(k > 0 ==> work@[k - 1]@ == src[k - 1]);
        }
        let behind_rpar = k > 0 && matches!(&work[k - 1], Token::RPar);
        let behind_operand = k > 0 && matches!(&work[k - 1], Token::Num(_) | Token::RPar);
        let ahead_operand = out.len() > 0 && matches!(&out[0], Token::Num(_) | Token::LPar);
        proof {
            assert(behind_rpar == (k > 0 && is_rpar(src[k - 1])));
            assert(behind_operand == (k > 0 && (is_num(src[k - 1]) || is_rpar(src[k - 1]))));
            assert(ahead_operand == (out_before.len() > 0 && (is_num(out_before[0]) || is_lpar(
                out_before[0],
            ))));
        }
        let ghost out_seq_before = out@;
        let ghost curv = cur@;
        match cur {
            Token::Num(text) => {
                out.insert(0, Token::Num(text));
                if behind_rpar {
                    out.insert(0, Token::Op(Op::Mul));
                    proof {
                        lemma_toks_view_index(out_seq_before);
                        lemma_toks_view_index(out@);
                        assert(toks_view(out@) =~= seq![Tok::Op(Op::Mul), curv] + out_before);
                    }
                } else {
                    proof {
                        lemma_toks_view_index(out_seq_before);
                        lemma_toks_view_index(out@);
                        assert(toks_view(out@) =~= seq![curv] + out_before);
                    }
                }
            },
            Token::LPar => {
                out.insert(0, Token::LPar);
                if behind_rpar {
                    out.insert(0, Token::Op(Op::Mul));
                    proof {
                        lemma_toks_view_index(out_seq_before);
                        lemma_toks_view_index(out@);
                        assert(toks_view(out@) =~= seq![Tok::Op(Op::Mul), curv] + out_before);
                    }
                } else {
                    proof {
                        lemma_toks_view_index(out_seq_before);
                        lemma_toks_view_index(out@);
                        assert(toks_view(out@) =~= seq![curv] + out_before);
                    }
                }
            },
            Token::RPar => {
                out.insert(0, Token::RPar);
                proof {
                    lemma_toks_view_index(out_seq_before);
                    lemma_toks_view_index(out@);
                    assert(toks_view(out@) =~= seq![curv] + out_before);
                }
            },
            Token::Op(op) => {
                let ghost idt = Tok::Num(identity_text(op));
                if !ahead_operand {
                    out.insert(0, Token::Num(op.identity()));
                }
                out.insert(0, Token::Op(op));
                if !behind_operand {
                    out.insert(0, Token::Num(op.identity()));
                }
                proof {
                    lemma_toks_view_index(out_seq_before);
                    lemma_toks_view_index(out@);
                    if behind_operand && ahead_operand {
                        assert(toks_view(out@) =~= seq![curv] + out_before);
                    } else if behind_operand && !ahead_operand {
                        assert(toks_view(out@) =~= seq![curv, idt] + out_before);
                    } else if !behind_operand && ahead_operand {
                        assert(toks_view(out@) =~= seq![idt] + (seq![curv] + out_before));
                    } else {
                        assert(toks_view(out@) =~= seq![idt] + (seq![curv, idt] + out_before));
                    }
                }
            },
        }
        proof {
            assert(toks_view(out@) =~= insert_pass_from(src, k as int));
        }
    }
    proof {
        assert(toks_view(out@) == insert_pass_from(src, 0));
        assert(spec_fix(orig) == Some(toks_view(out@)));
    }
    Some(out)
}

} // verus!

