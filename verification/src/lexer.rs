//! The lexer: raw text to a token sequence, followed by token repair.
//!
//! Digits and at most one `.` accumulate into a literal buffer, which is
//! flushed when any other character arrives and at the end of the input.
//! `+ - * / ^ ( )` map to their tokens, space and newline are skipped, and
//! any other character is a lexical failure.  A second `.` inside one
//! buffered literal is a lexical failure, and so is a buffered literal with
//! no digit at all (a lone `.`), since such text does not denote a number.

use vstd::prelude::*;

use crate::repair::fix_tokens;
use crate::repair::spec_fix;
use crate::token::lemma_toks_view_index;
use crate::token::toks_view;
use crate::token::Op;
use crate::token::Tok;
use crate::token::Token;

verus! {

/// Whether `c` is a decimal digit.
pub open spec fn is_digit_char(c: char) -> bool {
    48 <= c as u32 && c as u32 <= 57
}

/// Whether some character of `buf` is a decimal digit.
pub open spec fn has_digit(buf: Seq<char>) -> bool {
    exists|i: int| 0 <= i < buf.len() && is_digit_char(buf[i])
}

/// One lexer step: flush the literal buffer if `c` ends it, then consume
/// `c`.  `None` is a lexical failure: a duplicate `.`, a buffered literal
/// with no digit, or an unrecognized character.
pub open spec fn lex_step(toks: Seq<Tok>, buf: Seq<char>, c: char) -> Option<(Seq<Tok>, Seq<char>)> {
    let flushed = if buf.len() > 0 && !is_digit_char(c) && c != '.' {
        if has_digit(buf) {
            Some((toks.push(Tok::Num(buf)), Seq::<char>::empty()))
        } else {
            None
        }
    } else {
        Some((toks, buf))
    };
    match flushed {
        None => None,
        Some((toks2, buf2)) => {
            if c == '.' && buf2.contains('.') {
                None
            } else if is_digit_char(c) || c == '.' {
                Some((toks2, buf2.push(c)))
            } else if c == '+' {
                Some((toks2.push(Tok::Op(Op::Add)), buf2))
            } else if c == '-' {
                Some((toks2.push(Tok::Op(Op::Sub)), buf2))
            } else if c == '*' {
                Some((toks2.push(Tok::Op(Op::Mul)), buf2))
            } else if c == '/' {
                Some((toks2.push(Tok::Op(Op::Div)), buf2))
            } else if c == '^' {
                Some((toks2.push(Tok::Op(Op::Exp)), buf2))
            } else if c == '(' {
                Some((toks2.push(Tok::LPar), buf2))
            } else if c == ')' {
                Some((toks2.push(Tok::RPar), buf2))
            } else if c == ' ' || c == '\n' {
                Some((toks2, buf2))
            } else {
                None
            }
        },
    }
}

/// The lexer from position `i` on, given the tokens and literal buffer
/// accumulated so far; the final buffer is flushed at the end of the input.
pub open spec fn lex_from(s: Seq<char>, i: int, toks: Seq<Tok>, buf: Seq<char>) -> Option<
    Seq<Tok>,
>
    decreases s.len() - i,
{
    if i < 0 || i >= s.len() {
        if buf.len() == 0 {
            Some(toks)
        } else if has_digit(buf) {
            Some(toks.push(Tok::Num(buf)))
        } else {
            None
        }
    } else {
        match lex_step(toks, buf, s[i]) {
            None => None,
            Some((toks2, buf2)) => lex_from(s, i + 1, toks2, buf2),
        }
    }
}

/// The raw token sequence of `s`, before repair.
pub open spec fn spec_lex(s: Seq<char>) -> Option<Seq<Tok>> {
    lex_from(s, 0, Seq::empty(), Seq::empty())
}

/// What `tokenize` returns: the lexed sequence, repaired.
pub open spec fn spec_tokenize(s: Seq<char>) -> Option<Seq<Tok>> {
    match spec_lex(s) {
        None => None,
        Some(ts) => spec_fix(ts),
    }
}

/// Whether `c` is a decimal digit.
fn digit_exec(c: char) -> (b: bool)
    ensures
        b == is_digit_char(c),
{
    let u = c as u32;
    48 <= u && u <= 57
}

/// Lexes `s` and repairs the result, per `spec_tokenize`.
pub fn tokenize(s: &str) -> (r: Option<Vec<Token>>)
    ensures
        match r {
            Some(v) => spec_tokenize(s@) == Some(toks_view(v@)),
            None => spec_tokenize(s@) is None,
        },
{
    let len = s.unicode_len();
    let mut tokens: Vec<Token> = Vec::new();
    let mut buffer: Vec<char> = Vec::new();
    let mut saw_digit = false;
    let mut saw_dot = false;
    let mut i: usize = 0;
    proof {
        assert(toks_view(tokens@) =~= Seq::<Tok>::empty());
        assert(buffer@ =~= Seq::<char>::empty());
    }
    while i < len
        invariant
            len as nat == s@.len(),
            i <= len,
            saw_digit == has_digit(buffer@),
            saw_dot == buffer@.contains('.'),
            lex_from(s@, i as int, toks_view(tokens@), buffer@) == spec_lex(s@),
        decreases len - i,
    {
        let c = s.get_char(i);
        let ghost toks0 = toks_view(tokens@);
        let ghost buf0 = buffer@;
        let digit = digit_exec(c);
        if buffer.len() > 0 && !digit && c != '.' {
            if saw_digit {
                let ghost before = tokens@;
                tokens.push(Token::Num(buffer));
                buffer = Vec::new();
                saw_digit = false;
                saw_dot = false;
                proof {
                    lemma_toks_view_index(before);
                    lemma_toks_view_index(tokens@);
                    assert(toks_view(tokens@) =~= toks0.push(Tok::Num(buf0)));
                    assert(buffer@ =~= Seq::<char>::empty());
                }
            } else {
                proof {
                    assert(lex_step(toks0, buf0, c) is None);
                    assert(spec_lex(s@) is None);
                }
                return None;
            }
        }
        let ghost toks1 = toks_view(tokens@);
        let ghost buf1 = buffer@;
        proof {
            assert(s@[i as int] == c);
        }
        if c == '.' && saw_dot {
            proof {
                assert(lex_step(toks0, buf0, c) is None);
                assert(spec_lex(s@) is None);
            }
            return None;
        } else if digit || c == '.' {
            buffer.push(c);
            if digit {
                saw_digit = true;
            } else {
                saw_dot = true;
            }
            proof {
                assert(has_digit(buffer@) == (has_digit(buf1) || is_digit_char(c))) by {
                    assert(forall|n: int|
                        0 <= n < buf1.len() ==> buffer@[n] == buf1[n]);
                    assert(buffer@[buf1.len() as int] == c);
                    if has_digit(buf1) {
                        let w = choose|n: int| 0 <= n < buf1.len() && is_digit_char(buf1[n]);
                        assert(is_digit_char(buffer@[w]));
                    }
                }
                assert(buffer@.contains('.') == (buf1.contains('.') || c == '.')) by {
                    if buf1.contains('.') {
                        let w = choose|n: int| 0 <= n < buf1.len() && buf1[n] == '.';
                        assert(buffer@[w] == '.');
                        assert(buffer@.contains('.'));
                    }
                    if c == '.' {
                        assert(buffer@[buf1.len() as int] == '.');
                        assert(buffer@.contains('.'));
                    }
                    if buffer@.contains('.') {
                        let w = choose|n: int|
                            0 <= n < buffer@.len() && buffer@[n] == '.';
                        if w < buf1.len() {
                            assert(buf1[w] == '.');
                            assert(buf1.contains('.'));
                        } else {
                            assert(buffer@[w] == c);
                        }
                    }
                }
                assert(lex_step(toks0, buf0, c) == Some((toks1, buffer@)));
            }
        } else {
            let ghost before = tokens@;
            let pushed: bool;
            if c == '+' {
                tokens.push(Token::Op(Op::Add));
                pushed = true;
            } else if c == '-' {
                tokens.push(Token::Op(Op::Sub));
                pushed = true;
            } else if c == '*' {
                tokens.push(Token::Op(Op::Mul));
                pushed = true;
            } else if c == '/' {
                tokens.push(Token::Op(Op::Div));
                pushed = true;
            } else if c == '^' {
                tokens.push(Token::Op(Op::Exp));
                pushed = true;
            } else if c == '(' {
                tokens.push(Token::LPar);
                pushed = true;
            } else if c == ')' {
                tokens.push(Token::RPar);
                pushed = true;
            } else if c == ' ' || c == '\n' {
                pushed = false;
            } else {
                proof {
                    assert(lex_step(toks0, buf0, c) is None);
                    assert(spec_lex(s@) is None);
                }
                return None;
            }
            proof {
                lemma_toks_view_index(before);
                lemma_toks_view_index(tokens@);
                if pushed {
                    assert(toks_view(tokens@) =~= toks1.push(toks_view(tokens@).last()));
                }
                assert(lex_step(toks0, buf0, c) == Some((toks_view(tokens@), buffer@)));
            }
        }
        i = i + 1;
        proof {
            assert(lex_from(s@, i as int, toks_view(tokens@), buffer@) == spec_lex(s@));
        }
    }

    // End of input: flush the final literal buffer.
    if buffer.len() > 0 {
        if saw_digit {
            let ghost before = tokens@;
            let ghost buf0 = buffer@;
            let ghost toks0 = toks_view(tokens@);
            tokens.push(Token::Num(buffer));
            proof {
                lemma_toks_view_index(before);
                lemma_toks_view_index(tokens@);
                assert(toks_view(tokens@) =~= toks0.push(Tok::Num(buf0)));
            }
        } else {
            return None;
        }
    }
    proof {
        assert(spec_lex(s@) == Some(toks_view(tokens@)));
    }
    let fixed = fix_tokens(tokens);
    fixed
}

} // verus!
