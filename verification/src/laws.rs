//! Laws of the pipeline, stated over whole classes of inputs.
//!
//! Text made only of digits, decimal points, whitespace, the five operators
//! and parentheses is meant to evaluate to a value rather than fail: repair
//! closes unbalanced opens, and inserts the operands that informal input
//! leaves out.  The laws here prove that promise in two pieces: such text
//! always lexes (provided each unbroken run of numeric characters holds at
//! most one decimal point and every decimal point touches a digit), and,
//! for text without parentheses, the repaired sequence always parses, so
//! the pipeline returns a tree.  A close parenthesis with no matching open
//! is the stated exception and must fail instead; parenthesized text can
//! also fail on an empty group, which the repair pass does not fill.

use vstd::prelude::*;

use crate::lexer::has_digit;
use crate::lexer::is_digit_char;
use crate::lexer::lex_from;
use crate::lexer::spec_lex;
use crate::token::is_lpar;
use crate::token::is_num;
use crate::token::is_op;
use crate::token::is_rpar;
use crate::token::Tok;

verus! {

/// A character that may stand inside a numeric literal.
pub open spec fn is_numchar(c: char) -> bool {
    is_digit_char(c) || c == '.'
}

/// A whitespace character the lexer skips.
pub open spec fn is_ws_char(c: char) -> bool {
    c == ' ' || c == '\n'
}

/// A character naming one of the five operators.
pub open spec fn is_op_char(c: char) -> bool {
    c == '+' || c == '-' || c == '*' || c == '/' || c == '^'
}

/// A parenthesis character.
pub open spec fn is_paren_char(c: char) -> bool {
    c == '(' || c == ')'
}

/// A character the lexer recognizes at all.
pub open spec fn allowed_char(c: char) -> bool {
    is_numchar(c) || is_ws_char(c) || is_op_char(c) || is_paren_char(c)
}

/// Every character of `s` is one the lexer recognizes.
pub open spec fn alphabet_ok(s: Seq<char>) -> bool {
    forall|n: int| 0 <= n < s.len() ==> allowed_char(#[trigger] s[n])
}

/// No unbroken run of numeric characters holds two decimal points: between
/// any two decimal points stands some non-numeric character.
pub open spec fn dots_separated(s: Seq<char>) -> bool {
    forall|a: int, b: int|
        0 <= a < b < s.len() && s[a] == '.' && #[trigger] s[b] == '.' && #[trigger] s[a] == '.'
            ==> exists|m: int| a < m < b && !is_numchar(s[m])
}

/// Every decimal point has a digit immediately before or after it, so no
/// literal consists of a decimal point alone.
pub open spec fn dots_anchored(s: Seq<char>) -> bool {
    forall|a: int|
        0 <= a < s.len() && #[trigger] s[a] == '.' ==> ((a > 0 && is_digit_char(s[a - 1])) || (a
            + 1 < s.len() && is_digit_char(s[a + 1])))
}

/// How the lexer's literal buffer relates to the input: the buffer is the
/// unbroken run of numeric characters that ends just before position `i`.
pub open spec fn buf_tracks(s: Seq<char>, i: int, buf: Seq<char>) -> bool {
    if buf.len() == 0 {
        i == 0 || !is_numchar(s[i - 1])
    } else {
        let r = i - buf.len();
        &&& 0 <= r
        &&& buf == s.subrange(r, i)
        &&& (r == 0 || !is_numchar(s[r - 1]))
        &&& forall|m: int| r <= m < i ==> is_numchar(#[trigger] s[m])
    }
}

/// A buffer about to be flushed holds a digit: a run with no digit is a
/// lone decimal point, which `dots_anchored` rules out at a run's end.
proof fn lemma_flush_has_digit(s: Seq<char>, i: int, buf: Seq<char>)
    requires
        0 <= i <= s.len(),
        dots_separated(s),
        dots_anchored(s),
        buf_tracks(s, i, buf),
        buf.len() > 0,
        i == s.len() || !is_digit_char(s[i]),
    ensures
        has_digit(buf),
{
    let r = i - buf.len();
    if !has_digit(buf) {
        assert(forall|m: int| 0 <= m < buf.len() ==> !is_digit_char(#[trigger] buf[m]));
        assert(forall|m: int| r <= m < i ==> s[m] == buf[m - r]);
        assert(forall|m: int| r <= m < i ==> #[trigger] s[m] == '.') by {
            assert(forall|m: int| r <= m < i ==> is_numchar(#[trigger] s[m]));
        }
        if buf.len() >= 2 {
            assert(s[r] == '.' && s[r + 1] == '.');
            let m = choose|m: int| r < m < r + 1 && !is_numchar(s[m]);
            assert(false);
        } else {
            assert(s[i - 1] == '.');
            assert((i - 1 > 0 && is_digit_char(s[i - 2])) || (i < s.len() && is_digit_char(
                s[i],
            )));
            assert(false);
        }
    }
}

/// No token of `ts` is a parenthesis marker.
pub open spec fn no_paren_toks(ts: Seq<Tok>) -> bool {
    forall|p: int| 0 <= p < ts.len() ==> !is_lpar(#[trigger] ts[p]) && !is_rpar(ts[p])
}

/// No character of `s` is a parenthesis.
pub open spec fn no_paren_chars(s: Seq<char>) -> bool {
    forall|n: int| 0 <= n < s.len() ==> !is_paren_char(#[trigger] s[n])
}

/// The lexer never fails on recognized characters with well-formed literal
/// runs; its output is non-empty as soon as some non-whitespace character
/// remains; and parenthesis-free text yields parenthesis-free tokens.
proof fn lemma_lex_from_total(s: Seq<char>, i: int, toks: Seq<Tok>, buf: Seq<char>)
    requires
        0 <= i <= s.len(),
        alphabet_ok(s),
        dots_separated(s),
        dots_anchored(s),
        buf_tracks(s, i, buf),
    ensures
        lex_from(s, i, toks, buf) is Some,
        (toks.len() > 0 || buf.len() > 0 || exists|m: int|
            i <= m < s.len() && !is_ws_char(#[trigger] s[m])) ==> lex_from(s, i, toks, buf)->0.len()
            > 0,
        (no_paren_chars(s) && no_paren_toks(toks)) ==> no_paren_toks(lex_from(s, i, toks, buf)->0),
    decreases s.len() - i,
{
    if i == s.len() {
        if buf.len() > 0 {
            lemma_flush_has_digit(s, i, buf);
            assert(lex_from(s, i, toks, buf) == Some(toks.push(Tok::Num(buf))));
            if no_paren_chars(s) && no_paren_toks(toks) {
                assert(no_paren_toks(toks.push(Tok::Num(buf)))) by {
                    let res = toks.push(Tok::Num(buf));
                    assert(forall|p: int|
                        0 <= p < toks.len() ==> #[trigger] res[p] == toks[p]);
                    assert(res[toks.len() as int] == Tok::Num(buf));
                }
            }
        }
    } else {
        let c = s[i];
        assert(allowed_char(c));
        if is_numchar(c) {
            if c == '.' && buf.contains('.') {
                let w = choose|m: int| 0 <= m < buf.len() && buf[m] == '.';
                let r = i - buf.len();
                assert(s[r + w] == '.');
                assert(s[i] == '.');
                let m = choose|m: int| r + w < m < i && !is_numchar(s[m]);
                assert(is_numchar(s[m]));
                assert(false);
            }
            let buf2 = buf.push(c);
            assert(buf_tracks(s, i + 1, buf2)) by {
                let r = i - buf.len();
                assert(buf2 =~= s.subrange(r, i + 1));
            }
            lemma_lex_from_total(s, i + 1, toks, buf2);
            assert(lex_from(s, i, toks, buf) == lex_from(s, i + 1, toks, buf2));
        } else {
            // Flush the buffer if it is non-empty, then consume `c`.
            let toks2 = if buf.len() > 0 {
                lemma_flush_has_digit(s, i, buf);
                toks.push(Tok::Num(buf))
            } else {
                toks
            };
            if buf.len() > 0 && no_paren_chars(s) && no_paren_toks(toks) {
                assert(no_paren_toks(toks2)) by {
                    assert(forall|p: int|
                        0 <= p < toks.len() ==> #[trigger] toks2[p] == toks[p]);
                    assert(toks2[toks.len() as int] == Tok::Num(buf));
                }
            }
            let toks3 = if is_ws_char(c) {
                toks2
            } else if c == '+' {
                toks2.push(Tok::Op(crate::token::Op::Add))
            } else if c == '-' {
                toks2.push(Tok::Op(crate::token::Op::Sub))
            } else if c == '*' {
                toks2.push(Tok::Op(crate::token::Op::Mul))
            } else if c == '/' {
                toks2.push(Tok::Op(crate::token::Op::Div))
            } else if c == '^' {
                toks2.push(Tok::Op(crate::token::Op::Exp))
            } else if c == '(' {
                toks2.push(Tok::LPar)
            } else {
                toks2.push(Tok::RPar)
            };
            if !is_ws_char(c) && no_paren_chars(s) && no_paren_toks(toks2) {
                assert(no_paren_toks(toks3)) by {
                    assert(!is_paren_char(c));
                    assert(forall|p: int|
                        0 <= p < toks2.len() ==> #[trigger] toks3[p] == toks2[p]);
                }
            }
            assert(buf_tracks(s, i + 1, Seq::<char>::empty()));
            lemma_lex_from_total(s, i + 1, toks3, Seq::<char>::empty());
            if buf.len() == 0 {
                assert(buf =~= Seq::<char>::empty());
            }
            assert(lex_from(s, i, toks, buf) == lex_from(s, i + 1, toks3, Seq::<char>::empty()));
            if toks.len() == 0 && buf.len() == 0 && is_ws_char(c) {
                if exists|m: int| i <= m < s.len() && !is_ws_char(#[trigger] s[m]) {
                    let m = choose|m: int| i <= m < s.len() && !is_ws_char(#[trigger] s[m]);
                    assert(i + 1 <= m < s.len() && !is_ws_char(s[m]));
                }
            }
        }
    }
}

/// Text of recognized characters with well-formed literal runs always
/// lexes; a non-whitespace character guarantees at least one token; and
/// parenthesis-free text gives parenthesis-free tokens.
pub proof fn lemma_lex_total(s: Seq<char>)
    requires
        alphabet_ok(s),
        dots_separated(s),
        dots_anchored(s),
    ensures
        spec_lex(s) is Some,
        (exists|m: int| 0 <= m < s.len() && !is_ws_char(#[trigger] s[m])) ==> spec_lex(
            s,
        )->0.len() > 0,
        no_paren_chars(s) ==> no_paren_toks(spec_lex(s)->0),
{
    lemma_lex_from_total(s, 0, Seq::empty(), Seq::empty());
}

} // verus!

use crate::ast::parse_atom;
use crate::ast::parse_pow;
use crate::ast::parse_pow_tail;
use crate::ast::parse_prod;
use crate::ast::parse_prod_tail;
use crate::ast::parse_sum;
use crate::ast::parse_sum_tail;
use crate::ast::tok_is_op;
use crate::ast::ExprModel;
use crate::repair::close_fill;
use crate::repair::depth_after;
use crate::repair::insert_pass_from;
use crate::repair::prefixes_balanced;
use crate::repair::spec_fix;
use crate::repair::tok_delta;
use crate::lexer::spec_tokenize;
use crate::spec_parse;
use crate::spec_parse_text;
use crate::token::identity_text;
use crate::token::Op;

verus! {

/// Parenthesis-free tokens keep the parenthesis counter at zero.
proof fn lemma_no_paren_depth(ts: Seq<Tok>, n: int)
    requires
        no_paren_toks(ts),
        0 <= n <= ts.len(),
    ensures
        depth_after(ts, n) == 0,
    decreases n,
{
    if n > 0 {
        lemma_no_paren_depth(ts, n - 1);
        assert(!is_lpar(ts[n - 1]) && !is_rpar(ts[n - 1]));
        assert(tok_delta(ts[n - 1]) == 0);
    }
}

/// Every operator token is immediately followed by a literal.
pub open spec fn sat_after(ts: Seq<Tok>) -> bool {
    forall|p: int|
        0 <= p < ts.len() && is_op(#[trigger] ts[p]) ==> p + 1 < ts.len() && is_num(ts[p + 1])
}

/// Every operator token not at the front is immediately preceded by a
/// literal.
pub open spec fn sat_before(ts: Seq<Tok>) -> bool {
    forall|p: int| 1 <= p < ts.len() && is_op(#[trigger] ts[p]) ==> is_num(ts[p - 1])
}

/// On parenthesis-free input the insertion pass saturates every operator
/// with a literal on both sides, and starts its output with a literal (or,
/// mid-pass, with an operator whose literal still stands in the unprocessed
/// part).
proof fn lemma_insert_pass_saturated(src: Seq<Tok>, k: int)
    requires
        no_paren_toks(src),
        0 <= k <= src.len(),
    ensures
        no_paren_toks(insert_pass_from(src, k)),
        sat_after(insert_pass_from(src, k)),
        sat_before(insert_pass_from(src, k)),
        insert_pass_from(src, k).len() > 0 <==> k < src.len(),
        insert_pass_from(src, k).len() > 0 ==> (is_num(insert_pass_from(src, k)[0]) || (is_op(
            insert_pass_from(src, k)[0],
        ) && k > 0 && is_num(src[k - 1]))),
    decreases src.len() - k,
{
    if k < src.len() {
        lemma_insert_pass_saturated(src, k + 1);
        let out_next = insert_pass_from(src, k + 1);
        let out = insert_pass_from(src, k);
        let cur = src[k];
        assert(!is_lpar(cur) && !is_rpar(cur));
        assert(k > 0 ==> !is_rpar(src[k - 1]) && !is_lpar(src[k - 1]));
        let behind_operand = k > 0 && is_num(src[k - 1]);
        let ahead_operand = out_next.len() > 0 && (is_num(out_next[0]) || is_lpar(out_next[0]));
        if is_num(cur) {
            assert(out =~= seq![cur] + out_next);
            assert(out_next.len() > 0 && is_op(out_next[0]) ==> is_num(src[k]));
            assert(sat_after(out)) by {
                assert forall|p: int| 0 <= p < out.len() && is_op(#[trigger] out[p]) implies p + 1
                    < out.len() && is_num(out[p + 1]) by {
                    assert(out[p] == out_next[p - 1]);
                }
            }
            assert(sat_before(out)) by {
                assert forall|p: int| 1 <= p < out.len() && is_op(#[trigger] out[p]) implies is_num(
                    out[p - 1],
                ) by {
                    assert(out[p] == out_next[p - 1]);
                    if p >= 2 {
                        assert(out[p - 1] == out_next[p - 2]);
                    }
                }
            }
        } else {
            let op = match cur {
                Tok::Op(x) => x,
                _ => Op::Add,
            };
            let idt = Tok::Num(identity_text(op));
            let with_after: Seq<Tok> = if ahead_operand {
                seq![cur] + out_next
            } else {
                seq![cur, idt] + out_next
            };
            let full: Seq<Tok> = if behind_operand {
                with_after
            } else {
                seq![idt] + with_after
            };
            assert(out =~= full);
            let pre: Seq<Tok> = if behind_operand {
                if ahead_operand {
                    seq![cur]
                } else {
                    seq![cur, idt]
                }
            } else {
                if ahead_operand {
                    seq![idt, cur]
                } else {
                    seq![idt, cur, idt]
                }
            };
            assert(out =~= pre + out_next);
            // The operator's successor is a literal: either the head of the
            // processed suffix, or the inserted identity literal.
            assert(ahead_operand ==> out_next.len() > 0 && is_num(out_next[0]));
            assert(sat_after(out)) by {
                assert forall|p: int| 0 <= p < out.len() && is_op(#[trigger] out[p]) implies p + 1
                    < out.len() && is_num(out[p + 1]) by {
                    if p >= pre.len() {
                        assert(out[p] == out_next[p - pre.len()]);
                        assert(out[p + 1] == out_next[p + 1 - pre.len()]);
                    } else {
                        assert(out_next.len() > 0 && is_op(out_next[0]) ==> !ahead_operand);
                    }
                }
            }
            assert(sat_before(out)) by {
                assert forall|p: int| 1 <= p < out.len() && is_op(#[trigger] out[p]) implies is_num(
                    out[p - 1],
                ) by {
                    if p >= pre.len() + 1 {
                        assert(out[p] == out_next[p - pre.len()]);
                        assert(out[p - 1] == out_next[p - 1 - pre.len()]);
                    } else if p == pre.len() {
                        assert(out[p] == out_next[0]);
                        assert(is_num(pre.last()) || !is_op(out_next[0]));
                    }
                }
            }
        }
    }
}

} // verus!

verus! {

/// A literal parses as an atom, consuming exactly itself.
proof fn lemma_parse_atom_total(ts: Seq<Tok>, i: int)
    requires
        0 <= i < ts.len(),
        is_num(ts[i]),
    ensures
        parse_atom(ts, i) matches Some(p) && p.1 == i + 1,
{
}

/// With every operator followed by a literal, folding further `^` steps
/// never fails.
proof fn lemma_parse_pow_tail_total(ts: Seq<Tok>, j: int, acc: ExprModel)
    requires
        sat_after(ts),
        0 <= j <= ts.len(),
    ensures
        parse_pow_tail(ts, j, acc) matches Some(p) && j <= p.1 <= ts.len(),
    decreases ts.len() - j, 2int,
{
    if j < ts.len() && tok_is_op(ts[j], Op::Exp) {
        assert(is_op(ts[j]));
        assert(j + 1 < ts.len() && is_num(ts[j + 1]));
        lemma_parse_atom_total(ts, j + 1);
        let e2 = (parse_atom(ts, j + 1)->0).0;
        lemma_parse_pow_tail_total(
            ts,
            j + 2,
            ExprModel::Term(Box::new(acc), Op::Exp, Box::new(e2)),
        );
    }
}

/// A power chain starting at a literal never fails.
proof fn lemma_parse_pow_total(ts: Seq<Tok>, i: int)
    requires
        sat_after(ts),
        0 <= i < ts.len(),
        is_num(ts[i]),
    ensures
        parse_pow(ts, i) matches Some(p) && i < p.1 <= ts.len(),
    decreases ts.len() - i, 1int,
{
    lemma_parse_atom_total(ts, i);
    let e = (parse_atom(ts, i)->0).0;
    lemma_parse_pow_tail_total(ts, i + 1, e);
}

/// With every operator followed by a literal, folding further `*` or `/`
/// steps never fails.
proof fn lemma_parse_prod_tail_total(ts: Seq<Tok>, j: int, acc: ExprModel)
    requires
        sat_after(ts),
        0 <= j <= ts.len(),
    ensures
        parse_prod_tail(ts, j, acc) matches Some(p) && j <= p.1 <= ts.len(),
    decreases ts.len() - j, 4int,
{
    if j < ts.len() && (tok_is_op(ts[j], Op::Mul) || tok_is_op(ts[j], Op::Div)) {
        assert(is_op(ts[j]));
        assert(j + 1 < ts.len() && is_num(ts[j + 1]));
        lemma_parse_pow_total(ts, j + 1);
        let o = match ts[j] {
            Tok::Op(x) => x,
            _ => Op::Mul,
        };
        let e2 = (parse_pow(ts, j + 1)->0).0;
        let k = (parse_pow(ts, j + 1)->0).1;
        lemma_parse_prod_tail_total(ts, k, ExprModel::Term(Box::new(acc), o, Box::new(e2)));
    }
}

/// A product chain starting at a literal never fails.
proof fn lemma_parse_prod_total(ts: Seq<Tok>, i: int)
    requires
        sat_after(ts),
        0 <= i < ts.len(),
        is_num(ts[i]),
    ensures
        parse_prod(ts, i) matches Some(p) && i < p.1 <= ts.len(),
    decreases ts.len() - i, 3int,
{
    lemma_parse_pow_total(ts, i);
    let e = (parse_pow(ts, i)->0).0;
    let j = (parse_pow(ts, i)->0).1;
    lemma_parse_prod_tail_total(ts, j, e);
}

/// With every operator followed by a literal, folding further `+` or `-`
/// steps never fails.
proof fn lemma_parse_sum_tail_total(ts: Seq<Tok>, j: int, acc: ExprModel)
    requires
        sat_after(ts),
        0 <= j <= ts.len(),
    ensures
        parse_sum_tail(ts, j, acc) matches Some(p) && j <= p.1 <= ts.len(),
    decreases ts.len() - j, 6int,
{
    if j < ts.len() && (tok_is_op(ts[j], Op::Add) || tok_is_op(ts[j], Op::Sub)) {
        assert(is_op(ts[j]));
        assert(j + 1 < ts.len() && is_num(ts[j + 1]));
        lemma_parse_prod_total(ts, j + 1);
        let o = match ts[j] {
            Tok::Op(x) => x,
            _ => Op::Add,
        };
        let e2 = (parse_prod(ts, j + 1)->0).0;
        let k = (parse_prod(ts, j + 1)->0).1;
        lemma_parse_sum_tail_total(ts, k, ExprModel::Term(Box::new(acc), o, Box::new(e2)));
    }
}

/// A sum chain — the whole grammar — starting at a literal never fails.
proof fn lemma_parse_sum_total(ts: Seq<Tok>, i: int)
    requires
        sat_after(ts),
        0 <= i < ts.len(),
        is_num(ts[i]),
    ensures
        parse_sum(ts, i) matches Some(p) && i < p.1 <= ts.len(),
    decreases ts.len() - i, 5int,
{
    lemma_parse_prod_total(ts, i);
    let e = (parse_prod(ts, i)->0).0;
    let j = (parse_prod(ts, i)->0).1;
    lemma_parse_sum_tail_total(ts, j, e);
}

/// Parenthesis-free expression text — recognized characters, well-formed
/// literal runs, at least one non-whitespace character, no parentheses —
/// always comes through the whole pipeline as a tree: the lexer accepts
/// it, repair saturates every operator with operands, and the parser
/// consumes the result.  With parentheses the promise does not hold in
/// general: an empty group is not repaired, and an operator completed with
/// its identity literal can strand the tokens behind it.
pub proof fn lemma_paren_free_pipeline_total(s: Seq<char>)
    requires
        alphabet_ok(s),
        dots_separated(s),
        dots_anchored(s),
        no_paren_chars(s),
        exists|m: int| 0 <= m < s.len() && !is_ws_char(#[trigger] s[m]),
    ensures
        spec_parse_text(s) is Some,
{
    lemma_lex_total(s);
    let ts = spec_lex(s)->0;
    assert(ts.len() > 0);
    assert(no_paren_toks(ts));
    assert(prefixes_balanced(ts)) by {
        assert forall|n: int| 0 <= n <= ts.len() implies depth_after(ts, n) >= 0 by {
            lemma_no_paren_depth(ts, n);
        }
    }
    lemma_no_paren_depth(ts, ts.len() as int);
    assert(ts + close_fill(0nat) =~= ts);
    assert(spec_fix(ts) == Some(insert_pass_from(ts, 0)));
    lemma_insert_pass_saturated(ts, 0);
    let out = insert_pass_from(ts, 0);
    assert(out.len() > 0);
    assert(is_num(out[0]));
    lemma_parse_sum_total(out, 0);
    assert(spec_tokenize(s) == Some(out));
    assert(spec_parse(out) is Some);
}

} // verus!

verus! {

/// The contribution of one character to the parenthesis counter.
pub open spec fn char_delta(c: char) -> int {
    if c == '(' {
        1
    } else if c == ')' {
        -1
    } else {
        0
    }
}

/// The parenthesis counter after the first `n` characters of `s`.
pub open spec fn cdepth(s: Seq<char>, n: int) -> int
    decreases n,
{
    if n <= 0 {
        0
    } else {
        cdepth(s, n - 1) + char_delta(s[n - 1])
    }
}

/// Some prefix of `s` closes more parentheses than it opens.
pub open spec fn overclosed(s: Seq<char>) -> bool {
    exists|n: int| 0 <= n <= s.len() && cdepth(s, n) < 0
}

/// Appending a token leaves every earlier prefix's counter unchanged.
proof fn lemma_depth_after_push(ts: Seq<Tok>, t: Tok, n: int)
    requires
        0 <= n <= ts.len(),
    ensures
        depth_after(ts.push(t), n) == depth_after(ts, n),
    decreases n,
{
    if n > 0 {
        lemma_depth_after_push(ts, t, n - 1);
        assert(ts.push(t)[n - 1] == ts[n - 1]);
    }
}

/// The lexer carries the parenthesis structure of the text into the token
/// sequence: a character prefix that overcloses yields a token prefix that
/// overcloses.
proof fn lemma_lex_parens(s: Seq<char>, i: int, toks: Seq<Tok>, buf: Seq<char>)
    requires
        0 <= i <= s.len(),
        depth_after(toks, toks.len() as int) == cdepth(s, i),
        (exists|n: int| 0 <= n <= i && cdepth(s, n) < 0) ==> (exists|m: int|
            0 <= m <= toks.len() && depth_after(toks, m) < 0),
    ensures
        lex_from(s, i, toks, buf) matches Some(res) ==> (overclosed(s) ==> !prefixes_balanced(
            res,
        )),
    decreases s.len() - i,
{
    if i == s.len() {
        if lex_from(s, i, toks, buf) is Some && overclosed(s) {
            let res = lex_from(s, i, toks, buf)->0;
            let n = choose|n: int| 0 <= n <= s.len() && cdepth(s, n) < 0;
            let m = choose|m: int| 0 <= m <= toks.len() && depth_after(toks, m) < 0;
            if buf.len() == 0 {
                assert(res == toks);
            } else {
                assert(res == toks.push(Tok::Num(buf)));
                lemma_depth_after_push(toks, Tok::Num(buf), m);
            }
            assert(depth_after(res, m) < 0);
        }
    } else {
        let c = s[i];
        assert(cdepth(s, i + 1) == cdepth(s, i) + char_delta(c));
        if lex_from(s, i, toks, buf) is Some {
            let stepped = crate::lexer::lex_step(toks, buf, c);
            let toks2 = (stepped->0).0;
            let buf2 = (stepped->0).1;
            assert(lex_from(s, i, toks, buf) == lex_from(s, i + 1, toks2, buf2));
            // One step appends at most a flushed literal and one token,
            // neither disturbing earlier prefixes of the counter.
            assert(depth_after(toks2, toks2.len() as int) == cdepth(s, i + 1) && ((exists|n: int|
                0 <= n <= i + 1 && cdepth(s, n) < 0) ==> (exists|m: int|
                0 <= m <= toks2.len() && depth_after(toks2, m) < 0))) by {
                let flushed = if buf.len() > 0 && !is_digit_char(c) && c != '.' {
                    toks.push(Tok::Num(buf))
                } else {
                    toks
                };
                if flushed != toks {
                    assert(depth_after(flushed, flushed.len() as int) == depth_after(
                        toks,
                        toks.len() as int,
                    )) by {
                        lemma_depth_after_push(toks, Tok::Num(buf), toks.len() as int);
                    }
                }
                assert(depth_after(flushed, flushed.len() as int) == cdepth(s, i));
                if toks2 != flushed {
                    let t = toks2.last();
                    assert(toks2 == flushed.push(t));
                    lemma_depth_after_push(flushed, t, flushed.len() as int);
                    assert(depth_after(toks2, toks2.len() as int) == cdepth(s, i)
                        + tok_delta(t));
                    assert(tok_delta(t) == char_delta(c));
                } else {
                    assert(char_delta(c) == 0);
                }
                if exists|n: int| 0 <= n <= i + 1 && cdepth(s, n) < 0 {
                    let n = choose|n: int| 0 <= n <= i + 1 && cdepth(s, n) < 0;
                    if n <= i {
                        if exists|m: int| 0 <= m <= toks.len() && depth_after(toks, m) < 0 {
                            let m = choose|m: int|
                                0 <= m <= toks.len() && depth_after(toks, m) < 0;
                            if flushed != toks {
                                lemma_depth_after_push(toks, Tok::Num(buf), m);
                            }
                            assert(depth_after(flushed, m) < 0);
                            if toks2 != flushed {
                                lemma_depth_after_push(flushed, toks2.last(), m);
                            }
                            assert(depth_after(toks2, m) < 0);
                        }
                    } else {
                        assert(cdepth(s, i + 1) < 0);
                        assert(depth_after(toks2, toks2.len() as int) < 0);
                    }
                }
            }
            lemma_lex_parens(s, i + 1, toks2, buf2);
        }
    }
}

/// The stated exception to totality: text whose parentheses overclose at
/// some prefix never evaluates — whatever else it contains, the pipeline
/// returns no tree.
pub proof fn lemma_overclosed_fails(s: Seq<char>)
    requires
        overclosed(s),
    ensures
        spec_parse_text(s) is None,
{
    if spec_lex(s) is Some {
        assert(cdepth(s, 0) == 0);
        lemma_lex_parens(s, 0, Seq::empty(), Seq::empty());
        let res = spec_lex(s)->0;
        assert(!prefixes_balanced(res));
        assert(spec_fix(res) is None);
    }
}

} // verus!
