//! A small compiler front end for fully parenthesized prefix arithmetic.
//!
//! The pipeline turns source text into tokens, tokens into an expression
//! tree, and the tree into stack-machine assembly text wrapped in a minimal
//! program template.  Every stage is specified against a mathematical model
//! and verified: lexing against `spec_lex`, parsing against `spec_parse`,
//! code generation against `spec_code`, and the emitted text against
//! `program_text`.

pub mod codegen;
pub mod emit;
pub mod lexer;
pub mod parser;

use vstd::prelude::*;

use crate::codegen::gen_code;
use crate::codegen::spec_code;
use crate::emit::emit_program;
use crate::emit::program_text;
use crate::lexer::Lexer;
use crate::parser::parse_expr;
use crate::parser::spec_parse;
use crate::parser::ParseError;
use crate::parser::ParseStep;

verus! {

/// Translate one prefix-arithmetic expression into a complete assembly
/// program.  `src` is the expression text as bytes; `fmt` is the caller's
/// format template, embedded verbatim in the program's string constant.
/// On success the result is exactly the program text of the expression's
/// generated code; otherwise the lexical or structural error the grammar
/// assigns to the input is returned.
pub fn compile(src: &[u8], fmt: &str) -> (r: Result<String, ParseError>)
    ensures
        match spec_parse(src@) {
            ParseStep::Parsed { e, rest } => r matches Ok(text) && text@ == program_text(
                spec_code(e),
                fmt@,
            ),
            ParseStep::Failed { err } => r == Result::<String, ParseError>::Err(err),
        },
{
    let mut lex = Lexer::new(src);
    match parse_expr(&mut lex) {
        Ok(e) => {
            let code = gen_code(&e);
            Ok(emit_program(&code, fmt))
        },
        Err(err) => Err(err),
    }
}

} // verus!
