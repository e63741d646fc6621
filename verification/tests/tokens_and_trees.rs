//! The shapes that the lexer, the repair pass and the parser produce.

use calc::{tokenize, Ast, Expr, Op, Token};

fn num(text: &str) -> Vec<char> {
    text.chars().collect()
}

fn is_num(t: &Token, text: &str) -> bool {
    match t {
        Token::Num(v) => *v == num(text),
        _ => false,
    }
}

fn is_op(t: &Token, op: Op) -> bool {
    match t {
        Token::Op(o) => *o == op,
        _ => false,
    }
}

fn lit_is(e: &Expr, text: &str) -> bool {
    match e {
        Expr::Literal(v) => *v == num(text),
        _ => false,
    }
}

#[test]
fn lexes_literals_and_operators() {
    let toks = tokenize("12+3.5").unwrap();
    assert_eq!(toks.len(), 3);
    assert!(is_num(&toks[0], "12"));
    assert!(is_op(&toks[1], Op::Add));
    assert!(is_num(&toks[2], "3.5"));
}

#[test]
fn whitespace_does_not_split_a_literal_flush() {
    // A space flushes nothing by itself; the literal ends only at the next
    // non-numeric character.
    let toks = tokenize("1 +2").unwrap();
    assert_eq!(toks.len(), 3);
    assert!(is_num(&toks[0], "1"));
    assert!(is_op(&toks[1], Op::Add));
    assert!(is_num(&toks[2], "2"));
}

#[test]
fn repair_appends_missing_close_parens() {
    let toks = tokenize("((1").unwrap();
    assert_eq!(toks.len(), 5);
    assert!(matches!(toks[0], Token::LPar));
    assert!(matches!(toks[1], Token::LPar));
    assert!(is_num(&toks[2], "1"));
    assert!(matches!(toks[3], Token::RPar));
    assert!(matches!(toks[4], Token::RPar));
}

#[test]
fn repair_inserts_identity_for_unary_minus() {
    let toks = tokenize("-5").unwrap();
    assert_eq!(toks.len(), 3);
    assert!(is_num(&toks[0], "0"));
    assert!(is_op(&toks[1], Op::Sub));
    assert!(is_num(&toks[2], "5"));
}

#[test]
fn repair_inserts_multiplication_after_close_paren() {
    let toks = tokenize("(1)(2)").unwrap();
    assert_eq!(toks.len(), 7);
    assert!(matches!(toks[2], Token::RPar));
    assert!(is_op(&toks[3], Op::Mul));
    assert!(matches!(toks[4], Token::LPar));
}

#[test]
fn repair_leaves_adjacent_literals_alone() {
    let toks = tokenize("2 3").unwrap();
    assert_eq!(toks.len(), 2);
    assert!(is_num(&toks[0], "2"));
    assert!(is_num(&toks[1], "3"));
}

#[test]
fn repair_leaves_operator_before_open_paren_alone() {
    // An open parenthesis after an operator counts as an operand, so no
    // identity literal is inserted between them.
    let toks = tokenize("2+(3)").unwrap();
    assert_eq!(toks.len(), 5);
    assert!(is_num(&toks[0], "2"));
    assert!(is_op(&toks[1], Op::Add));
    assert!(matches!(toks[2], Token::LPar));
    assert!(is_num(&toks[3], "3"));
    assert!(matches!(toks[4], Token::RPar));
}

#[test]
fn repair_gives_each_operator_its_own_identity() {
    let toks = tokenize("2*").unwrap();
    assert_eq!(toks.len(), 3);
    assert!(is_num(&toks[2], "1"));
    let toks = tokenize("2-").unwrap();
    assert_eq!(toks.len(), 3);
    assert!(is_num(&toks[2], "0"));
}

#[test]
fn tokenize_rejects_unmatched_close() {
    assert!(tokenize(")").is_none());
    assert!(tokenize("1)2(").is_none());
}

#[test]
fn tokenize_rejects_bad_characters_and_double_dots() {
    assert!(tokenize("1+x").is_none());
    assert!(tokenize("3..4").is_none());
    assert!(tokenize(".").is_none());
}

#[test]
fn empty_input_lexes_to_no_tokens() {
    let toks = tokenize("").unwrap();
    assert!(toks.is_empty());
}

#[test]
fn identity_text_of_each_operator() {
    assert_eq!(Op::Add.identity(), num("0"));
    assert_eq!(Op::Sub.identity(), num("0"));
    assert_eq!(Op::Mul.identity(), num("1"));
    assert_eq!(Op::Div.identity(), num("1"));
    assert_eq!(Op::Exp.identity(), num("1"));
}

#[test]
fn build_makes_a_left_associated_power_chain() {
    let toks = tokenize("2^3^2").unwrap();
    let tree = Ast::new(toks).build();
    match *tree {
        Expr::Term(left, Op::Exp, right) => {
            assert!(lit_is(&right, "2"));
            match *left {
                Expr::Term(ll, Op::Exp, lr) => {
                    assert!(lit_is(&ll, "2"));
                    assert!(lit_is(&lr, "3"));
                }
                _ => panic!("left child should be 2^3"),
            }
        }
        _ => panic!("root should be an exponentiation"),
    }
}

#[test]
fn build_respects_precedence() {
    let toks = tokenize("2+3*4").unwrap();
    let tree = Ast::new(toks).build();
    match *tree {
        Expr::Term(left, Op::Add, right) => {
            assert!(lit_is(&left, "2"));
            match *right {
                Expr::Term(rl, Op::Mul, rr) => {
                    assert!(lit_is(&rl, "3"));
                    assert!(lit_is(&rr, "4"));
                }
                _ => panic!("right child should be 3*4"),
            }
        }
        _ => panic!("root should be an addition"),
    }
}

#[test]
fn parse_text_builds_group_tree() {
    let tree = calc::parse_text("2*(3+4)").unwrap();
    match *tree {
        Expr::Term(left, Op::Mul, right) => {
            assert!(lit_is(&left, "2"));
            assert!(matches!(*right, Expr::Term(_, Op::Add, _)));
        }
        _ => panic!("root should be a multiplication"),
    }
}

#[test]
fn parse_text_rejects_empty_group() {
    assert!(calc::parse_text("()").is_none());
    assert!(calc::parse_text("").is_none());
}

#[test]
fn render_shows_the_tree_shape() {
    let tree = calc::parse_text("2+3*4").unwrap();
    let text: String = tree.render().iter().collect();
    assert_eq!(text, "(2 + (3 * 4))");
    let tree = calc::parse_text("2^3^2").unwrap();
    let text: String = tree.render().iter().collect();
    assert_eq!(text, "((2 ^ 3) ^ 2)");
}

#[test]
fn op_symbols() {
    assert_eq!(Op::Add.symbol(), '+');
    assert_eq!(Op::Sub.symbol(), '-');
    assert_eq!(Op::Mul.symbol(), '*');
    assert_eq!(Op::Div.symbol(), '/');
    assert_eq!(Op::Exp.symbol(), '^');
}

#[test]
fn paren_free_text_always_parses() {
    // Instances of the law that parenthesis-free text over the recognized
    // characters, with well-formed literals, always yields a tree.
    for s in ["1", "++", "5*", "-", "1.5 2.5", "9/3-2^2", "  7\n"] {
        assert!(calc::parse_text(s).is_some(), "{s} should parse");
    }
}

#[test]
fn overclosed_text_never_parses() {
    // Instances of the law that a prefix closing more parentheses than it
    // opened always fails, whatever follows.
    for s in [")", "())", ")(", "1+2)*3", "((1))+2)("] {
        assert!(calc::parse_text(s).is_none(), "{s} should fail");
    }
}
