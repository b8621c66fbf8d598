//! End-to-end checks of the lexer, parser, code generator, and emitter.

use prefixc::codegen::gen_code;
use prefixc::codegen::Instr;
use prefixc::compile;
use prefixc::emit::render_instr;
use prefixc::lexer::Lexer;
use prefixc::lexer::Op;
use prefixc::lexer::Token;
use prefixc::parser::parse;
use prefixc::parser::Expr;
use prefixc::parser::ParseError;

fn bin(op: Op, left: Expr, right: Expr) -> Expr {
    Expr::BinaryOp {
        op,
        left: Box::new(left),
        right: Box::new(right),
    }
}

/// Evaluate an instruction sequence under the two-register convention:
/// `rax` is the accumulator, `rbx` the second register, and an operand
/// stack preserves intermediates.
fn run_instrs(code: &[Instr]) -> i64 {
    let mut rax: i64 = 0;
    let mut rbx: i64 = 0;
    let mut rcx: i64 = 0;
    let mut rdx: i64 = 0;
    let mut stack: Vec<i64> = Vec::new();
    for i in code {
        match i {
            Instr::MovRaxImm(n) => rax = *n,
            Instr::PushRax => stack.push(rax),
            Instr::PopRbx => rbx = stack.pop().unwrap(),
            Instr::AddRaxRbx => rax += rbx,
            Instr::SubRaxRbx => rax -= rbx,
            Instr::ImulRaxRbx => rax *= rbx,
            Instr::MovRdxZero => rdx = 0,
            Instr::MovRcxRax => rcx = rax,
            Instr::MovRaxRbx => rax = rbx,
            Instr::DivRcx => {
                rdx = rax % rcx;
                rax /= rcx;
            }
            Instr::Blank => {}
        }
    }
    let _ = (rcx, rdx);
    rax
}

#[test]
fn lex_digit_run_is_one_number_token() {
    let mut lex = Lexer::new(b"12345");
    assert_eq!(lex.next_token(), Some(Ok(Token::Number(12345))));
    assert_eq!(lex.next_token(), None);
}

#[test]
fn lex_largest_number_fits() {
    let mut lex = Lexer::new(b"9223372036854775807");
    assert_eq!(lex.next_token(), Some(Ok(Token::Number(i64::MAX))));
    assert_eq!(lex.next_token(), None);
}

#[test]
fn lex_number_past_the_token_type_fails() {
    let mut lex = Lexer::new(b"9223372036854775808");
    assert_eq!(lex.next_token(), Some(Err(())));
}

#[test]
fn lex_all_token_kinds() {
    let mut lex = Lexer::new(b"( ) + - * / ab 7");
    assert_eq!(lex.next_token(), Some(Ok(Token::LParen)));
    assert_eq!(lex.next_token(), Some(Ok(Token::RParen)));
    assert_eq!(lex.next_token(), Some(Ok(Token::Operation(Op::Add))));
    assert_eq!(lex.next_token(), Some(Ok(Token::Operation(Op::Sub))));
    assert_eq!(lex.next_token(), Some(Ok(Token::Operation(Op::Mul))));
    assert_eq!(lex.next_token(), Some(Ok(Token::Operation(Op::Div))));
    assert_eq!(lex.next_token(), Some(Ok(Token::Symbol)));
    assert_eq!(lex.next_token(), Some(Ok(Token::Number(7))));
    assert_eq!(lex.next_token(), None);
}

#[test]
fn lex_zero_is_not_a_number() {
    let mut lex = Lexer::new(b"0");
    assert_eq!(lex.next_token(), Some(Err(())));
}

#[test]
fn lex_unsupported_punctuation_fails() {
    let mut lex = Lexer::new(b"%");
    assert_eq!(lex.next_token(), Some(Err(())));
}

#[test]
fn lex_number_stops_at_letters() {
    let mut lex = Lexer::new(b"12ab");
    assert_eq!(lex.next_token(), Some(Ok(Token::Number(12))));
    assert_eq!(lex.next_token(), Some(Ok(Token::Symbol)));
    assert_eq!(lex.next_token(), None);
}

#[test]
fn empty_parens_parse_to_zero() {
    assert_eq!(parse(b"()"), Ok(Expr::Literal(0)));
    assert_eq!(parse(b"( )"), Ok(Expr::Literal(0)));
}

#[test]
fn number_parses_to_literal() {
    assert_eq!(parse(b"5"), Ok(Expr::Literal(5)));
}

#[test]
fn operator_application_parses_to_its_operation() {
    assert_eq!(
        parse(b"(+ 1 2)"),
        Ok(bin(Op::Add, Expr::Literal(1), Expr::Literal(2)))
    );
    assert_eq!(
        parse(b"(- 1 2)"),
        Ok(bin(Op::Sub, Expr::Literal(1), Expr::Literal(2)))
    );
    assert_eq!(
        parse(b"(* 1 2)"),
        Ok(bin(Op::Mul, Expr::Literal(1), Expr::Literal(2)))
    );
    assert_eq!(
        parse(b"(/ 1 2)"),
        Ok(bin(Op::Div, Expr::Literal(1), Expr::Literal(2)))
    );
}

#[test]
fn nested_applications_parse_to_nested_trees() {
    assert_eq!(
        parse(b"(* (* 10 2) (+ 1 1))"),
        Ok(bin(
            Op::Mul,
            bin(Op::Mul, Expr::Literal(10), Expr::Literal(2)),
            bin(Op::Add, Expr::Literal(1), Expr::Literal(1)),
        ))
    );
}

#[test]
fn whitespace_between_tokens_is_skipped() {
    assert_eq!(
        parse(b"  (\t* 3 4\n)"),
        Ok(bin(Op::Mul, Expr::Literal(3), Expr::Literal(4)))
    );
}

#[test]
fn input_after_the_expression_is_left_unread() {
    assert_eq!(parse(b"1 2"), Ok(Expr::Literal(1)));
}

#[test]
fn missing_second_operand_fails() {
    assert_eq!(
        parse(b"(+ 1)"),
        Err(ParseError::UnexpectedToken {
            found: Token::RParen
        })
    );
}

#[test]
fn missing_closing_parenthesis_fails() {
    assert_eq!(parse(b"(+ 1 1"), Err(ParseError::MissingCloseParen));
}

#[test]
fn wrong_token_in_place_of_closing_parenthesis_fails() {
    assert_eq!(parse(b"(+ 1 1 2"), Err(ParseError::MissingCloseParen));
}

#[test]
fn bare_operator_fails() {
    assert_eq!(
        parse(b"+ 1 1"),
        Err(ParseError::UnexpectedToken {
            found: Token::Operation(Op::Add)
        })
    );
}

#[test]
fn bare_symbol_fails() {
    assert_eq!(
        parse(b"abc"),
        Err(ParseError::UnexpectedToken {
            found: Token::Symbol
        })
    );
}

#[test]
fn empty_input_fails() {
    assert_eq!(parse(b""), Err(ParseError::UnexpectedEnd));
    assert_eq!(parse(b"("), Err(ParseError::UnexpectedEnd));
}

#[test]
fn lexical_error_inside_an_operand_fails() {
    assert_eq!(parse(b"(+ 1 $)"), Err(ParseError::Lexical));
}

#[test]
fn addition_program_computes_two() {
    let e = parse(b"(+ 1 1)").unwrap();
    let code = gen_code(&e);
    assert_eq!(run_instrs(&code), 2);
}

#[test]
fn nested_program_computes_forty() {
    let e = parse(b"(* (* 10 2) (+ 1 1))").unwrap();
    let code = gen_code(&e);
    assert_eq!(run_instrs(&code), 40);
}

#[test]
fn division_keeps_the_dividend_on_the_left() {
    let e = parse(b"(/ 6 2)").unwrap();
    let code = gen_code(&e);
    assert_eq!(
        code,
        vec![
            Instr::MovRaxImm(6),
            Instr::PushRax,
            Instr::MovRaxImm(2),
            Instr::PopRbx,
            Instr::MovRdxZero,
            Instr::MovRcxRax,
            Instr::MovRaxRbx,
            Instr::DivRcx,
            Instr::Blank,
        ]
    );
    assert_eq!(run_instrs(&code), 3);
}

#[test]
fn literal_code_is_only_the_immediate_load() {
    let code = gen_code(&Expr::Literal(5));
    assert_eq!(code, vec![Instr::MovRaxImm(5)]);
    assert_eq!(render_instr(&code[0]), "mov rax, 5\n");
}

#[test]
fn negative_immediate_renders_with_a_minus() {
    assert_eq!(render_instr(&Instr::MovRaxImm(-7)), "mov rax, -7\n");
}

#[test]
fn emitted_program_text_is_exact() {
    let text = compile(b"(+ 1 1)", "RESULT: %d").unwrap();
    let expected = "format ELF64\n\
        section \".text\" executable\n\
        public main\n\
        extrn printf\n\
        msg db \"RESULT: %d\",10,0\n\
        main:\n\
        mov rax, 1\n\
        push rax\n\
        mov rax, 1\n\
        pop rbx\n\
        add rax, rbx\n\
        \n\
        mov rdi, msg\n\
        mov rsi, rax\n\
        xor rax, rax\n\
        call printf\n\
        mov rax, 0\n\
        ret\n";
    assert_eq!(text, expected);
}

#[test]
fn compile_reports_parse_errors() {
    assert_eq!(
        compile(b"+ 1 1", "%d"),
        Err(ParseError::UnexpectedToken {
            found: Token::Operation(Op::Add)
        })
    );
    assert_eq!(compile(b"(/ 6 2", "%d"), Err(ParseError::MissingCloseParen));
    assert_eq!(compile(b"0", "%d"), Err(ParseError::Lexical));
}

#[test]
fn format_template_is_embedded_verbatim() {
    let text = compile(b"3", "value = %d!").unwrap();
    assert!(text.contains("msg db \"value = %d!\",10,0\n"));
}
