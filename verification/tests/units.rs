//! Unit tests for the lexer, the parser, the lowering, and the renderer.

use stackc::generate::generate;
use stackc::generate::Program;
use stackc::generate::Value;
use stackc::parse::parse;
use stackc::parse::return_statement;
use stackc::parse::Leaf;
use stackc::parse::Operator;
use stackc::parse::AST;
use stackc::strutil::i128_to_string;
use stackc::strutil::i32_to_string;
use stackc::strutil::str_eq;
use stackc::strutil::str_lt;
use stackc::strutil::u64_to_string;
use stackc::tokenize::tokenize;
use stackc::tokenize::Keyword;
use stackc::tokenize::Punctuator;
use stackc::tokenize::TokenType;
use stackc::trans::render;
use stackc::trans::trans;

#[test]
fn lexer_keywords_and_identifiers() {
    let toks = tokenize("fn return val if elsif else foo _bar x1").expect("lex");
    let kinds: Vec<TokenType> = toks.into_iter().map(|t| t.token).collect();
    assert_eq!(
        kinds,
        vec![
            TokenType::Keyword(Keyword::FN),
            TokenType::Keyword(Keyword::RETURN),
            TokenType::Keyword(Keyword::VAL),
            TokenType::Keyword(Keyword::IF),
            TokenType::Keyword(Keyword::ELSIF),
            TokenType::Keyword(Keyword::ELSE),
            TokenType::Identifier("foo".to_string()),
            TokenType::Identifier("_bar".to_string()),
            TokenType::Identifier("x1".to_string()),
        ]
    );
}

#[test]
fn lexer_numbers_and_punctuators() {
    let toks = tokenize("x=1+23*(4);").expect("lex");
    let kinds: Vec<TokenType> = toks.into_iter().map(|t| t.token).collect();
    assert_eq!(
        kinds,
        vec![
            TokenType::Identifier("x".to_string()),
            TokenType::Punctuator(Punctuator::Equal),
            TokenType::Constant(1),
            TokenType::Punctuator(Punctuator::Plus),
            TokenType::Constant(23),
            TokenType::Punctuator(Punctuator::Star),
            TokenType::Punctuator(Punctuator::ParenthesisLeft),
            TokenType::Constant(4),
            TokenType::Punctuator(Punctuator::ParenthesisRight),
            TokenType::Punctuator(Punctuator::SemiColon),
        ]
    );
}

#[test]
fn lexer_double_equal_lookahead() {
    let toks = tokenize("a==b=c").expect("lex");
    let kinds: Vec<TokenType> = toks.into_iter().map(|t| t.token).collect();
    assert_eq!(
        kinds,
        vec![
            TokenType::Identifier("a".to_string()),
            TokenType::Punctuator(Punctuator::DoubleEqual),
            TokenType::Identifier("b".to_string()),
            TokenType::Punctuator(Punctuator::Equal),
            TokenType::Identifier("c".to_string()),
        ]
    );
}

#[test]
fn lexer_char_literals() {
    let toks = tokenize("'a' '\\\\' '\\''").expect("lex");
    let kinds: Vec<TokenType> = toks.into_iter().map(|t| t.token).collect();
    assert_eq!(
        kinds,
        vec![
            TokenType::Constant(97),
            TokenType::Constant(92),
            TokenType::Constant(39),
        ]
    );
}

#[test]
fn lexer_positions() {
    let toks = tokenize("ab cd\nef").expect("lex");
    assert_eq!(toks.len(), 3);
    assert_eq!((toks[0].pos.line, toks[0].pos.block_pos, toks[0].pos.char_pos), (0, 0, 0));
    assert_eq!((toks[1].pos.line, toks[1].pos.block_pos, toks[1].pos.char_pos), (0, 1, 0));
    assert_eq!((toks[2].pos.line, toks[2].pos.block_pos, toks[2].pos.char_pos), (1, 0, 0));
}

#[test]
fn lexer_rejects_unknown_character() {
    assert!(tokenize("a # b").is_none());
    assert!(tokenize("'x").is_none());
}

#[test]
fn lexer_rejects_oversized_literal() {
    assert!(tokenize("2147483647").is_some());
    assert!(tokenize("2147483648").is_none());
}

#[test]
fn parser_precedence_shape() {
    let toks = tokenize("fn[0] main() { x = 1 + 2 * 3; }").expect("lex");
    let ast = parse(&toks).expect("parse");
    // Declare -> FunctionDeclare -> Statement -> Substitute(x, Add(1, Mul(2, 3)))
    let AST::Node(decl) = ast else { panic!() };
    assert_eq!(decl.op, Operator::Declare);
    let AST::Node(f) = &decl.children[0] else { panic!() };
    let Operator::FunctionDeclare { name, args, retnum } = &f.op else { panic!() };
    assert_eq!(name, "main");
    assert_eq!(args.len(), 0);
    assert_eq!(*retnum, 0);
    let AST::Node(body) = &f.children[0] else { panic!() };
    assert_eq!(body.op, Operator::Statement);
    let AST::Node(subst) = &body.children[0] else { panic!() };
    assert_eq!(subst.op, Operator::Substitute);
    assert_eq!(subst.children[0], AST::Leaf(Leaf::Identifier("x".to_string())));
    let AST::Node(add) = &subst.children[1] else { panic!() };
    assert_eq!(add.op, Operator::Add);
    assert_eq!(add.children[0], AST::Leaf(Leaf::Constant(1)));
    let AST::Node(mul) = &add.children[1] else { panic!() };
    assert_eq!(mul.op, Operator::Multiply);
}

#[test]
fn parser_if_else_shape() {
    let toks = tokenize("fn[0] main() { if x { y(); } else { z(); } }").expect("lex");
    let ast = parse(&toks).expect("parse");
    let AST::Node(decl) = ast else { panic!() };
    let AST::Node(f) = &decl.children[0] else { panic!() };
    let AST::Node(body) = &f.children[0] else { panic!() };
    let AST::Node(ifnode) = &body.children[0] else { panic!() };
    assert_eq!(ifnode.op, Operator::If);
    assert_eq!(ifnode.children.len(), 3);
}

#[test]
fn parser_rejects_elsif() {
    let toks = tokenize("fn[0] main() { if x { y(); } elsif { z(); } }").expect("lex");
    assert!(parse(&toks).is_none());
}

#[test]
fn parser_rejects_trailing_tokens() {
    let toks = tokenize("fn[0] main() { } }").expect("lex");
    assert!(parse(&toks).is_none());
}

#[test]
fn parser_rejects_trailing_comma_in_params() {
    let toks = tokenize("fn[1] f(a,) { return a; }").expect("lex");
    assert!(parse(&toks).is_none());
    let toks = tokenize("fn[1] f(a, b) { return a; }").expect("lex");
    assert!(parse(&toks).is_some());
}

#[test]
fn parser_rejects_trailing_comma_in_call_args() {
    let toks = tokenize("fn[0] main() { putnum(1,); }").expect("lex");
    assert!(parse(&toks).is_none());
    let toks = tokenize("fn[0] main() { putnum(1); }").expect("lex");
    assert!(parse(&toks).is_some());
}

#[test]
fn return_statement_requires_keyword() {
    let toks = tokenize("q 1 ;").expect("lex");
    assert!(return_statement(&toks, 0).is_none());
    let toks = tokenize("return 1 ;").expect("lex");
    assert!(return_statement(&toks, 0).is_some());
}

fn lower(src: &str) -> Option<Program> {
    let toks = tokenize(src)?;
    let ast = parse(&toks)?;
    generate(&ast)
}

#[test]
fn builtins_are_registered_in_name_order() {
    let prog = lower("fn[0] main() { halt(); }").expect("lower");
    let names: Vec<&str> = prog.funcs.iter().map(|f| f.name.as_str()).collect();
    assert_eq!(names, vec!["getchar", "getnum", "halt", "main", "putchar", "putnum"]);
}

#[test]
fn lowering_rejects_undefined_variable() {
    assert!(lower("fn[0] main() { putnum(y); halt(); }").is_none());
}

#[test]
fn lowering_rejects_rebinding() {
    assert!(lower("fn[0] main() { x = 1; x = 2; halt(); }").is_none());
}

#[test]
fn lowering_rejects_undefined_function() {
    assert!(lower("fn[0] main() { nope(); halt(); }").is_none());
}

#[test]
fn lowering_rejects_arity_mismatch() {
    assert!(lower("fn[1] f(a) { return a; } fn[0] main() { putnum(f(1, 2)); halt(); }").is_none());
}

#[test]
fn register_definitions_dominate_uses() {
    // every register argument is numbered strictly below its statement's
    // result register
    let prog = lower(
        "fn[1] f(n) { if n == 0 { return 1; } return n * f(n - 1); } \
         fn[0] main() { x = getnum(); if x { putnum(f(x)); } else { putnum(0); } halt(); }",
    )
    .expect("lower");
    for f in &prog.funcs {
        for b in &f.basicblocks {
            for s in &b.statements {
                if let Some(ret) = s.ret {
                    for a in &s.args {
                        if let Value::Register(r) = a {
                            assert!(*r < ret, "register {} used at result {}", r, ret);
                        }
                    }
                }
            }
        }
    }
}

#[test]
fn successors_are_forward_and_reached() {
    let prog = lower(
        "fn[0] main() { x = getnum(); if x { if x == 1 { putnum(1); } putnum(2); } \
         else { putnum(3); } halt(); }",
    )
    .expect("lower");
    for f in &prog.funcs {
        let n = f.basicblocks.len();
        let mut seen = vec![false; n];
        for (i, b) in f.basicblocks.iter().enumerate() {
            for nx in &b.nexts {
                assert!(*nx > i && *nx < n, "edge {} -> {} out of shape", i, nx);
                seen[*nx] = true;
            }
        }
        for k in 1..n {
            assert!(seen[k], "block {} has no predecessor", k);
        }
    }
}

#[test]
fn render_writes_one_instruction_per_line() {
    let prog = lower("fn[0] main() { halt(); }").expect("lower");
    let insns = trans(&prog).expect("trans");
    let text = render(&insns);
    let lines: Vec<&str> = text.lines().collect();
    assert_eq!(lines.len(), insns.len());
    assert_eq!(lines[0], "JMP func_main");
    assert!(lines.contains(&"LABEL func_main"));
    assert!(lines.contains(&"LABEL func_halt"));
    assert!(lines.contains(&"LABEL control_0"));
    assert!(lines.contains(&"LABEL return"));
    assert!(lines.contains(&"PUSH 0"));
    assert!(lines.contains(&"HALT"));
}

#[test]
fn decimal_rendering() {
    assert_eq!(u64_to_string(0).as_str(), "0");
    assert_eq!(u64_to_string(90107).as_str(), "90107");
    assert_eq!(i32_to_string(-45).as_str(), "-45");
    assert_eq!(i32_to_string(2147483647).as_str(), "2147483647");
    assert_eq!(i128_to_string(-1).as_str(), "-1");
    assert_eq!(i128_to_string(12).as_str(), "12");
}

#[test]
fn string_order_helpers() {
    assert!(str_eq("abc", "abc"));
    assert!(!str_eq("abc", "abd"));
    assert!(str_lt("abc", "abd"));
    assert!(str_lt("ab", "abc"));
    assert!(!str_lt("abc", "abc"));
    assert!(!str_lt("b", "abc"));
}
