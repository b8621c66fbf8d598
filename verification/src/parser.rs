//! Recursive-descent parsing: tokens to an arithmetic expression tree.
//!
//! The grammar, read one token at a time with no lookahead:
//!
//! ```text
//! expr  := NUMBER | '(' inner ')'
//! inner := ')'                      -- empty parens denote zero
//!        | OPERATION expr expr ')'
//! ```
//!
//! The model is `spec_parse`, a function from a byte suffix to the parsed
//! expression and the remaining suffix, or to the error the grammar
//! assigns; `parse_expr` is verified against it.  Input after the first
//! complete expression is left unread.

use vstd::prelude::*;

use crate::lexer::is_alpha;
use crate::lexer::is_digit;
use crate::lexer::is_op_byte;
use crate::lexer::lemma_lex_extend;
use crate::lexer::lemma_lex_progress;
use crate::lexer::lemma_skip_ws_concat;
use crate::lexer::op_of;
use crate::lexer::skip_ws;
use crate::lexer::spec_lex;
use crate::lexer::LexStep;
use crate::lexer::Lexer;
use crate::lexer::Op;
use crate::lexer::Token;

verus! {

/// An arithmetic expression: a literal leaf, or an operation applied to
/// exactly two sub-expressions.
#[derive(Debug)]
pub enum Expr {
    Literal(i64),
    BinaryOp { op: Op, left: Box<Expr>, right: Box<Expr> },
}

impl PartialEq for Expr {
    /// Structural equality over the whole tree.
    fn eq(&self, other: &Expr) -> (r: bool)
        decreases *self,
    {
        match (self, other) {
            (Expr::Literal(a), Expr::Literal(b)) => *a == *b,
            (
                Expr::BinaryOp { op: o1, left: l1, right: r1 },
                Expr::BinaryOp { op: o2, left: l2, right: r2 },
            ) => *o1 == *o2 && **l1 == **l2 && **r1 == **r2,
            _ => false,
        }
    }
}

impl vstd::std_specs::cmp::PartialEqSpecImpl for Expr {
    open spec fn obeys_eq_spec() -> bool {
        true
    }

    open spec fn eq_spec(&self, other: &Expr) -> bool {
        self == other
    }
}

/// Why a translation was refused.
#[derive(Clone, Copy, Debug, PartialEq, Eq, Structural)]
pub enum ParseError {
    /// A piece of the input matches no token rule.
    Lexical,
    /// A token stands where the grammar does not allow it.
    UnexpectedToken { found: Token },
    /// The input ended while a token was still required.
    UnexpectedEnd,
    /// An operator application was not closed by `)`.
    MissingCloseParen,
}

/// The outcome of parsing one expression from a byte suffix.
pub enum ParseStep {
    /// The expression, and the suffix that remains after it.
    Parsed { e: Expr, rest: Seq<u8> },
    Failed { err: ParseError },
}

/// The suffix a nested parse resumes from.  Parsing always consumes input
/// (`lemma_parse_progress`), so the second branch is never the value used;
/// it only keeps the recursion in `spec_parse` visibly well founded.
pub open spec fn resume(s: Seq<u8>, r: Seq<u8>) -> Seq<u8> {
    if r.len() < s.len() {
        r
    } else {
        Seq::<u8>::empty()
    }
}

/// Parse one expression from the front of `s`.  A number is a literal;
/// `(` opens either the empty parens form, which denotes zero, or an
/// operator application of exactly two sub-expressions closed by `)`.
/// Every other leading token is refused.
pub open spec fn spec_parse(s: Seq<u8>) -> ParseStep
    decreases s.len(),
{
    match spec_lex(s) {
        LexStep::End => ParseStep::Failed { err: ParseError::UnexpectedEnd },
        LexStep::Fail => ParseStep::Failed { err: ParseError::Lexical },
        LexStep::Tok { t, rest } => match t {
            Token::Number(n) => ParseStep::Parsed { e: Expr::Literal(n), rest },
            Token::LParen => {
                proof {
                    lemma_lex_progress(s);
                }
                match spec_lex(rest) {
                    LexStep::End => ParseStep::Failed { err: ParseError::UnexpectedEnd },
                    LexStep::Fail => ParseStep::Failed { err: ParseError::Lexical },
                    LexStep::Tok { t: t2, rest: rest2 } => match t2 {
                        Token::RParen => ParseStep::Parsed { e: Expr::Literal(0), rest: rest2 },
                        Token::Operation(op) => {
                            proof {
                                lemma_lex_progress(rest);
                            }
                            match spec_parse(rest2) {
                                ParseStep::Failed { err } => ParseStep::Failed { err },
                                ParseStep::Parsed { e: a, rest: rest3 } => match spec_parse(
                                    resume(s, rest3),
                                ) {
                                    ParseStep::Failed { err } => ParseStep::Failed { err },
                                    ParseStep::Parsed { e: b, rest: rest4 } => match spec_lex(
                                        rest4,
                                    ) {
                                        LexStep::Tok { t: Token::RParen, rest: rest5 } =>
                                            ParseStep::Parsed {
                                            e: Expr::BinaryOp {
                                                op,
                                                left: Box::new(a),
                                                right: Box::new(b),
                                            },
                                            rest: rest5,
                                        },
                                        LexStep::Tok { t: _, rest: _ } => ParseStep::Failed {
                                            err: ParseError::MissingCloseParen,
                                        },
                                        LexStep::End => ParseStep::Failed {
                                            err: ParseError::MissingCloseParen,
                                        },
                                        LexStep::Fail => ParseStep::Failed {
                                            err: ParseError::Lexical,
                                        },
                                    },
                                },
                            }
                        },
                        _ => ParseStep::Failed { err: ParseError::UnexpectedToken { found: t2 } },
                    },
                }
            },
            _ => ParseStep::Failed { err: ParseError::UnexpectedToken { found: t } },
        },
    }
}

/// Parsing an expression consumes at least one byte of the suffix.
pub proof fn lemma_parse_progress(s: Seq<u8>)
    ensures
        match spec_parse(s) {
            ParseStep::Parsed { e, rest } => rest.len() < s.len(),
            ParseStep::Failed { err } => true,
        },
    decreases s.len(),
{
    lemma_lex_progress(s);
    match spec_lex(s) {
        LexStep::End => {},
        LexStep::Fail => {},
        LexStep::Tok { t, rest } => match t {
            Token::LParen => {
                lemma_lex_progress(rest);
                match spec_lex(rest) {
                    LexStep::Tok { t: Token::Operation(op), rest: rest2 } => {
                        lemma_parse_progress(rest2);
                        match spec_parse(rest2) {
                            ParseStep::Parsed { e: a, rest: rest3 } => {
                                assert(resume(s, rest3) == rest3);
                                lemma_parse_progress(rest3);
                                match spec_parse(rest3) {
                                    ParseStep::Parsed { e: b, rest: rest4 } => {
                                        lemma_lex_progress(rest4);
                                    },
                                    ParseStep::Failed { err } => {},
                                }
                            },
                            ParseStep::Failed { err } => {},
                        }
                    },
                    _ => {},
                }
            },
            _ => {},
        },
    }
}

/// A leading run of whitespace changes no parse.
pub proof fn lemma_parse_ws(w: Seq<u8>, x: Seq<u8>)
    requires
        forall|j: int| 0 <= j < w.len() ==> crate::lexer::is_ws(w[j]),
    ensures
        spec_parse(w + x) == spec_parse(x),
{
    lemma_skip_ws_concat(w, x);
    assert(spec_lex(w + x) == spec_lex(x));
    match spec_lex(x) {
        LexStep::Tok { t: Token::LParen, rest: r1 } => {
            match spec_lex(r1) {
                LexStep::Tok { t: Token::Operation(op), rest: r2 } => {
                    match spec_parse(r2) {
                        ParseStep::Parsed { e: a, rest: r3 } => {
                            lemma_parse_progress(r2);
                            lemma_lex_progress(x);
                            lemma_lex_progress(r1);
                            assert(r3.len() < x.len());
                            assert(resume(w + x, r3) == r3);
                            assert(resume(x, r3) == r3);
                        },
                        ParseStep::Failed { err } => {},
                    }
                },
                _ => {},
            }
        },
        _ => {},
    }
}

/// Input appended after a complete expression changes neither the
/// expression nor the error-freedom of its parse, provided its first byte
/// can extend no digit or letter run; the appended input is left over.
pub proof fn lemma_parse_extend(s: Seq<u8>, ext: Seq<u8>, e: Expr, rest: Seq<u8>)
    requires
        spec_parse(s) == (ParseStep::Parsed { e, rest }),
        ext.len() > 0 ==> !is_digit(ext[0]) && !is_alpha(ext[0]),
    ensures
        spec_parse(s + ext) == (ParseStep::Parsed { e, rest: rest + ext }),
    decreases s.len(),
{
    lemma_lex_progress(s);
    match spec_lex(s) {
        LexStep::Tok { t, rest: r1 } => {
            lemma_lex_extend(s, ext, t, r1);
            match t {
                Token::Number(n) => {},
                Token::LParen => {
                    lemma_lex_progress(r1);
                    match spec_lex(r1) {
                        LexStep::Tok { t: t2, rest: r2 } => {
                            lemma_lex_extend(r1, ext, t2, r2);
                            match t2 {
                                Token::RParen => {},
                                Token::Operation(op) => {
                                    lemma_parse_progress(r2);
                                    match spec_parse(r2) {
                                        ParseStep::Parsed { e: a, rest: r3 } => {
                                            assert(resume(s, r3) == r3);
                                            lemma_parse_extend(r2, ext, a, r3);
                                            lemma_parse_progress(r3);
                                            assert(resume(s + ext, r3 + ext) == r3 + ext);
                                            match spec_parse(r3) {
                                                ParseStep::Parsed { e: b, rest: r4 } => {
                                                    lemma_parse_extend(r3, ext, b, r4);
                                                    lemma_lex_progress(r4);
                                                    match spec_lex(r4) {
                                                        LexStep::Tok { t: t5, rest: r5 } => {
                                                            lemma_lex_extend(r4, ext, t5, r5);
                                                        },
                                                        _ => {},
                                                    }
                                                },
                                                ParseStep::Failed { err } => {},
                                            }
                                        },
                                        ParseStep::Failed { err } => {},
                                    }
                                },
                                _ => {},
                            }
                        },
                        _ => {},
                    }
                },
                _ => {},
            }
        },
        _ => {},
    }
}

/// An operator applied to two complete sub-expressions parses to exactly
/// that operation over exactly those sub-expressions: for an operator
/// character `c`, the input `(c A B)` — one space around each
/// sub-expression — yields the operation's tree node with the two parses
/// as its children, and consumes the whole input.
pub proof fn lemma_parse_binary(c: u8, sa: Seq<u8>, sb: Seq<u8>, a: Expr, b: Expr)
    requires
        is_op_byte(c),
        spec_parse(sa) == (ParseStep::Parsed { e: a, rest: Seq::<u8>::empty() }),
        spec_parse(sb) == (ParseStep::Parsed { e: b, rest: Seq::<u8>::empty() }),
    ensures
        spec_parse(seq![40u8, c, 32u8] + sa + seq![32u8] + sb + seq![41u8]) == (ParseStep::Parsed {
            e: Expr::BinaryOp { op: op_of(c), left: Box::new(a), right: Box::new(b) },
            rest: Seq::<u8>::empty(),
        }),
{
    let s = seq![40u8, c, 32u8] + sa + seq![32u8] + sb + seq![41u8];
    let tail_a = sa + (seq![32u8] + (sb + seq![41u8]));
    let tail_b = sb + seq![41u8];

    lemma_parse_progress(sa);
    lemma_parse_progress(sb);

    // The opening parenthesis.
    assert(s[0] == 40);
    assert(skip_ws(s) == s);
    let r1 = s.skip(1);
    assert(spec_lex(s) == (LexStep::Tok { t: Token::LParen, rest: r1 }));

    // The operator.
    assert(r1[0] == c);
    assert(skip_ws(r1) == r1);
    let r2 = r1.skip(1);
    assert(!(c == 41) && !(c == 40) && !is_alpha(c));
    assert(spec_lex(r1) == (LexStep::Tok { t: Token::Operation(op_of(c)), rest: r2 }));

    // The left sub-expression, behind one space.
    assert(r2 =~= seq![32u8] + tail_a);
    lemma_parse_extend(sa, seq![32u8] + tail_b, a, Seq::<u8>::empty());
    assert(Seq::<u8>::empty() + (seq![32u8] + tail_b) =~= seq![32u8] + tail_b);
    assert(sa + (seq![32u8] + tail_b) =~= tail_a);
    lemma_parse_ws(seq![32u8], tail_a);
    assert(spec_parse(r2) == (ParseStep::Parsed { e: a, rest: seq![32u8] + tail_b }));

    let r3 = seq![32u8] + tail_b;
    assert(r3.len() < s.len());
    assert(resume(s, r3) == r3);

    // The right sub-expression, behind one space.
    lemma_parse_extend(sb, seq![41u8], b, Seq::<u8>::empty());
    assert(Seq::<u8>::empty() + seq![41u8] =~= seq![41u8]);
    lemma_parse_ws(seq![32u8], tail_b);
    assert(spec_parse(r3) == (ParseStep::Parsed { e: b, rest: seq![41u8] }));

    // The closing parenthesis.
    let r4 = seq![41u8];
    assert(skip_ws(r4) == r4);
    assert(r4.skip(1) =~= Seq::<u8>::empty());
    assert(spec_lex(r4) == (LexStep::Tok { t: Token::RParen, rest: Seq::<u8>::empty() }));
}

/// Parse one expression from the lexer's unconsumed suffix, as
/// `spec_parse` reads it, leaving the lexer just past the expression.
pub fn parse_expr(lex: &mut Lexer) -> (r: Result<Expr, ParseError>)
    requires
        old(lex).wf(),
    ensures
        final(lex).wf(),
        final(lex).src_seq() == old(lex).src_seq(),
        old(lex).pos <= final(lex).pos,
        match spec_parse(old(lex).suffix()) {
            ParseStep::Parsed { e, rest } => r == Result::<Expr, ParseError>::Ok(e)
                && final(lex).suffix() == rest,
            ParseStep::Failed { err } => r == Result::<Expr, ParseError>::Err(err),
        },
    decreases old(lex).suffix().len(),
{
    let ghost s = lex.suffix();
    match lex.next_token() {
        None => Err(ParseError::UnexpectedEnd),
        Some(Err(())) => Err(ParseError::Lexical),
        Some(Ok(Token::Number(n))) => Ok(Expr::Literal(n)),
        Some(Ok(Token::LParen)) => {
            let ghost rest = lex.suffix();
            proof {
                lemma_lex_progress(s);
            }
            match lex.next_token() {
                None => Err(ParseError::UnexpectedEnd),
                Some(Err(())) => Err(ParseError::Lexical),
                Some(Ok(Token::RParen)) => Ok(Expr::Literal(0)),
                Some(Ok(Token::Operation(op))) => {
                    let ghost rest2 = lex.suffix();
                    proof {
                        lemma_lex_progress(rest);
                    }
                    match parse_expr(lex) {
                        Err(e) => Err(e),
                        Ok(a) => {
                            let ghost rest3 = lex.suffix();
                            proof {
                                lemma_parse_progress(rest2);
                                assert(resume(s, rest3) == rest3);
                            }
                            match parse_expr(lex) {
                                Err(e) => Err(e),
                                Ok(b) => match lex.next_token() {
                                    Some(Ok(Token::RParen)) => Ok(
                                        Expr::BinaryOp {
                                            op,
                                            left: Box::new(a),
                                            right: Box::new(b),
                                        },
                                    ),
                                    Some(Ok(_)) => Err(ParseError::MissingCloseParen),
                                    None => Err(ParseError::MissingCloseParen),
                                    Some(Err(())) => Err(ParseError::Lexical),
                                },
                            }
                        },
                    }
                },
                Some(Ok(t2)) => Err(ParseError::UnexpectedToken { found: t2 }),
            }
        },
        Some(Ok(t)) => Err(ParseError::UnexpectedToken { found: t }),
    }
}

/// Parse a whole byte source as one expression; input after the first
/// complete expression is ignored, as the grammar reads no further.
pub fn parse(src: &[u8]) -> (r: Result<Expr, ParseError>)
    ensures
        match spec_parse(src@) {
            ParseStep::Parsed { e, rest } => r == Result::<Expr, ParseError>::Ok(e),
            ParseStep::Failed { err } => r == Result::<Expr, ParseError>::Err(err),
        },
{
    let mut lex = Lexer::new(src);
    parse_expr(&mut lex)
}

} // verus!
