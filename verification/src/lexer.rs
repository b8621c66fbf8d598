//! Lexical analysis: byte source text to tokens.
//!
//! The token grammar, on bytes: `(` and `)` are single-character tokens, a
//! run of ASCII letters is a `Symbol`, one of `+ - * /` is an `Operation`
//! (carried as the machine operation it will become), and a digit run with
//! no leading zero is a `Number`.  Runs of whitespace are skipped between
//! tokens.  Any other byte is a lexical error, as is a number too large for
//! the token's value type.
//!
//! The model is `spec_lex`, a function from a byte suffix to the first
//! token and the remaining suffix; the executable `Lexer` produces tokens
//! one at a time and is verified against it.

use vstd::prelude::*;

verus! {

/// An arithmetic operation, as selected by an operator character.
#[derive(Clone, Copy, Debug, PartialEq, Eq, Structural)]
pub enum Op {
    Add,
    Sub,
    Mul,
    Div,
}

/// One lexical token.
#[derive(Clone, Copy, Debug, PartialEq, Eq, Structural)]
pub enum Token {
    LParen,
    RParen,
    /// A run of letters; accepted by the lexer, rejected by the grammar.
    Symbol,
    Operation(Op),
    Number(i64),
}

/// Whitespace skipped between tokens: space, tab, newline, form feed.
pub open spec fn is_ws(b: u8) -> bool {
    b == 32 || b == 9 || b == 10 || b == 12
}

pub open spec fn is_digit(b: u8) -> bool {
    48 <= b <= 57
}

pub open spec fn is_nonzero_digit(b: u8) -> bool {
    49 <= b <= 57
}

/// ASCII letter, either case.
pub open spec fn is_alpha(b: u8) -> bool {
    (65 <= b <= 90) || (97 <= b <= 122)
}

/// One of the operator characters `+ - * /`.
pub open spec fn is_op_byte(b: u8) -> bool {
    b == 43 || b == 45 || b == 42 || b == 47
}

/// The operation selected by an operator character.  Bytes outside the
/// operator set resolve to `Add`; the lexer's character class keeps that
/// branch unreachable, but the mapping stays total rather than failing.
pub open spec fn op_of(b: u8) -> Op {
    if b == 43 {
        Op::Add
    } else if b == 42 {
        Op::Mul
    } else if b == 45 {
        Op::Sub
    } else if b == 47 {
        Op::Div
    } else {
        Op::Add
    }
}

/// The suffix that remains after the leading run of whitespace.
pub open spec fn skip_ws(s: Seq<u8>) -> Seq<u8>
    decreases s.len(),
{
    if s.len() > 0 && is_ws(s[0]) {
        skip_ws(s.skip(1))
    } else {
        s
    }
}

/// Length of the leading run of digits.
pub open spec fn digit_run_len(s: Seq<u8>) -> nat
    decreases s.len(),
{
    if s.len() > 0 && is_digit(s[0]) {
        1 + digit_run_len(s.skip(1))
    } else {
        0
    }
}

/// Length of the leading run of letters.
pub open spec fn alpha_run_len(s: Seq<u8>) -> nat
    decreases s.len(),
{
    if s.len() > 0 && is_alpha(s[0]) {
        1 + alpha_run_len(s.skip(1))
    } else {
        0
    }
}

/// The integer denoted by a digit sequence, most significant digit first.
pub open spec fn dec_value(ds: Seq<u8>) -> int
    decreases ds.len(),
{
    if ds.len() == 0 {
        0
    } else {
        dec_value(ds.drop_last()) * 10 + (ds.last() - 48)
    }
}

/// The outcome of reading one token from a byte suffix.
pub enum LexStep {
    /// A token, and the suffix that remains after it.
    Tok { t: Token, rest: Seq<u8> },
    /// Nothing but whitespace remained.
    End,
    /// The suffix matches no token rule.
    Fail,
}

/// Read one token from the front of `s`: skip whitespace, then take the
/// longest match among the token rules.  A digit run with a leading zero,
/// a byte in no character class, and a number beyond `i64::MAX` are
/// lexical errors.
pub open spec fn spec_lex(s: Seq<u8>) -> LexStep {
    let t = skip_ws(s);
    if t.len() == 0 {
        LexStep::End
    } else if t[0] == 41 {
        LexStep::Tok { t: Token::RParen, rest: t.skip(1) }
    } else if t[0] == 40 {
        LexStep::Tok { t: Token::LParen, rest: t.skip(1) }
    } else if is_alpha(t[0]) {
        LexStep::Tok { t: Token::Symbol, rest: t.skip(alpha_run_len(t) as int) }
    } else if is_op_byte(t[0]) {
        LexStep::Tok { t: Token::Operation(op_of(t[0])), rest: t.skip(1) }
    } else if is_nonzero_digit(t[0]) {
        let k = digit_run_len(t) as int;
        let v = dec_value(t.take(k));
        if v <= i64::MAX {
            LexStep::Tok { t: Token::Number(v as i64), rest: t.skip(k) }
        } else {
            LexStep::Fail
        }
    } else {
        LexStep::Fail
    }
}

/// Skipping whitespace never lengthens a suffix, and lands on a suffix of `s`.
pub proof fn lemma_skip_ws_len(s: Seq<u8>)
    ensures
        skip_ws(s).len() <= s.len(),
        skip_ws(skip_ws(s)) == skip_ws(s),
    decreases s.len(),
{
    if s.len() > 0 && is_ws(s[0]) {
        lemma_skip_ws_len(s.skip(1));
    }
}

/// Leading runs are no longer than the suffix itself.
pub proof fn lemma_run_len_bounds(s: Seq<u8>)
    ensures
        digit_run_len(s) <= s.len(),
        alpha_run_len(s) <= s.len(),
    decreases s.len(),
{
    if s.len() > 0 {
        lemma_run_len_bounds(s.skip(1));
    }
}

/// Reading a token consumes at least one byte of the suffix.
pub proof fn lemma_lex_progress(s: Seq<u8>)
    ensures
        match spec_lex(s) {
            LexStep::Tok { t, rest } => rest.len() < s.len(),
            LexStep::End => true,
            LexStep::Fail => true,
        },
{
    lemma_skip_ws_len(s);
    lemma_run_len_bounds(skip_ws(s));
}

/// A digit-run length is determined by any all-digit prefix and its stopper.
proof fn lemma_digit_run_len_exact(s: Seq<u8>, k: int)
    requires
        0 <= k <= s.len(),
        forall|j: int| 0 <= j < k ==> is_digit(s[j]),
        k == s.len() || !is_digit(s[k]),
    ensures
        digit_run_len(s) == k,
    decreases k,
{
    if k == 0 {
    } else {
        let s1 = s.skip(1);
        assert(forall|j: int| 0 <= j < s1.len() ==> s1[j] == s[j + 1]);
        lemma_digit_run_len_exact(s1, k - 1);
    }
}

/// Every byte inside the digit run is a digit.
proof fn lemma_digit_run_all_digits(s: Seq<u8>)
    ensures
        forall|j: int| 0 <= j < digit_run_len(s) ==> is_digit(s[j]),
    decreases s.len(),
{
    if s.len() > 0 && is_digit(s[0]) {
        let s1 = s.skip(1);
        lemma_digit_run_all_digits(s1);
        lemma_run_len_bounds(s1);
        assert forall|j: int| 0 <= j < digit_run_len(s) implies is_digit(s[j]) by {
            if j > 0 {
                assert(is_digit(s1[j - 1]));
                assert(s1[j - 1] == s[j]);
            }
        }
    }
}

/// An alpha-run length is determined by any all-letter prefix and its stopper.
proof fn lemma_alpha_run_len_exact(s: Seq<u8>, k: int)
    requires
        0 <= k <= s.len(),
        forall|j: int| 0 <= j < k ==> is_alpha(s[j]),
        k == s.len() || !is_alpha(s[k]),
    ensures
        alpha_run_len(s) == k,
    decreases k,
{
    if k == 0 {
    } else {
        let s1 = s.skip(1);
        assert(forall|j: int| 0 <= j < s1.len() ==> s1[j] == s[j + 1]);
        lemma_alpha_run_len_exact(s1, k - 1);
    }
}

/// Extending an all-digit prefix by one digit multiplies its value by ten.
proof fn lemma_dec_value_snoc(s: Seq<u8>, k: int)
    requires
        0 <= k < s.len(),
    ensures
        dec_value(s.take(k + 1)) == dec_value(s.take(k)) * 10 + (s[k] - 48),
{
    assert(s.take(k + 1).drop_last() =~= s.take(k));
    assert(s.take(k + 1).last() == s[k]);
}

/// The value of an all-digit sequence grows with its length.
proof fn lemma_dec_value_grows(s: Seq<u8>, j: int, k: int)
    requires
        0 <= j <= k <= s.len(),
        forall|i: int| 0 <= i < k ==> is_digit(s[i]),
    ensures
        0 <= dec_value(s.take(j)) <= dec_value(s.take(k)),
    decreases k - j,
{
    if j == k {
        lemma_dec_value_nonneg(s.take(j));
    } else {
        lemma_dec_value_grows(s, j, k - 1);
        lemma_dec_value_snoc(s, k - 1);
    }
}

/// A digit sequence denotes a nonnegative value.
proof fn lemma_dec_value_nonneg(ds: Seq<u8>)
    requires
        forall|i: int| 0 <= i < ds.len() ==> is_digit(ds[i]),
    ensures
        dec_value(ds) >= 0,
    decreases ds.len(),
{
    if ds.len() > 0 {
        assert(forall|i: int| 0 <= i < ds.len() - 1 ==> ds.drop_last()[i] == ds[i]);
        lemma_dec_value_nonneg(ds.drop_last());
    }
}

/// Produces the tokens of a byte source one at a time, left to right.
///
/// `next_token` yields `Some(Ok(t))` for each token, `None` at the end of
/// the input, and `Some(Err(()))` on a lexical error, exactly as `spec_lex`
/// reads the unconsumed suffix.
pub struct Lexer<'a> {
    pub src: &'a [u8],
    pub pos: usize,
}

impl<'a> Lexer<'a> {
    /// The position never runs past the end of the source.
    pub open spec fn wf(self) -> bool {
        self.pos <= self.src@.len()
    }

    /// The whole source text.
    pub open spec fn src_seq(self) -> Seq<u8> {
        self.src@
    }

    /// The unconsumed suffix of the source.
    pub open spec fn suffix(self) -> Seq<u8> {
        self.src@.skip(self.pos as int)
    }

    pub fn new(src: &'a [u8]) -> (r: Lexer<'a>)
        ensures
            r.wf(),
            r.src_seq() == src@,
            r.suffix() == src@,
    {
        let r = Lexer { src, pos: 0 };
        proof {
            assert(r.suffix() =~= src@);
        }
        r
    }

    /// Read the next token, advancing past it, as `spec_lex` reads the
    /// unconsumed suffix.
    pub fn next_token(&mut self) -> (r: Option<Result<Token, ()>>)
        requires
            old(self).wf(),
        ensures
            final(self).wf(),
            final(self).src_seq() == old(self).src_seq(),
            old(self).pos <= final(self).pos,
            match spec_lex(old(self).suffix()) {
                LexStep::Tok { t, rest } => r == Some(Result::<Token, ()>::Ok(t))
                    && final(self).suffix() == rest && old(self).pos < final(self).pos,
                LexStep::End => r == None::<Result<Token, ()>> && final(self).pos as int
                    == final(self).src_seq().len(),
                LexStep::Fail => r == Some(Result::<Token, ()>::Err(())),
            },
    {
        let ghost orig = self.suffix();
        let len = self.src.len();
        while self.pos < len && ws_byte(self.src[self.pos])
            invariant
                self.wf(),
                len == self.src@.len(),
                self.src == old(self).src,
                old(self).pos <= self.pos,
                orig == old(self).suffix(),
                skip_ws(orig) == skip_ws(self.suffix()),
            decreases len - self.pos,
        {
            proof {
                assert(self.suffix().skip(1) =~= self.src@.skip(self.pos + 1));
            }
            self.pos = self.pos + 1;
        }
        proof {
            // The loop stopped on a non-whitespace byte or at the end, so
            // the current suffix is exactly skip_ws(orig).
            assert(skip_ws(self.suffix()) == self.suffix());
        }
        let ghost t = skip_ws(orig);
        if self.pos == len {
            return None;
        }
        let b = self.src[self.pos];
        if b == 41 {
            proof {
                assert(t.skip(1) =~= self.src@.skip(self.pos + 1));
            }
            self.pos = self.pos + 1;
            return Some(Ok(Token::RParen));
        }
        if b == 40 {
            proof {
                assert(t.skip(1) =~= self.src@.skip(self.pos + 1));
            }
            self.pos = self.pos + 1;
            return Some(Ok(Token::LParen));
        }
        if alpha_byte(b) {
            let start = self.pos;
            self.pos = self.pos + 1;
            while self.pos < len && alpha_byte(self.src[self.pos])
                invariant
                    old(self).pos <= start,
                    start < self.pos <= len,
                    len == self.src@.len(),
                    self.src == old(self).src,
                    orig == old(self).suffix(),
                    t == skip_ws(orig),
                    t == self.src@.skip(start as int),
                    is_alpha(t[0]),
                    forall|j: int| 0 <= j < self.pos - start ==> is_alpha(t[j]),
                decreases len - self.pos,
            {
                self.pos = self.pos + 1;
            }
            proof {
                lemma_alpha_run_len_exact(t, self.pos - start);
                assert(t.skip(self.pos - start) =~= self.src@.skip(self.pos as int));
            }
            return Some(Ok(Token::Symbol));
        }
        if b == 43 || b == 45 || b == 42 || b == 47 {
            let op = if b == 43 {
                Op::Add
            } else if b == 42 {
                Op::Mul
            } else if b == 45 {
                Op::Sub
            } else {
                Op::Div
            };
            proof {
                assert(t.skip(1) =~= self.src@.skip(self.pos + 1));
            }
            self.pos = self.pos + 1;
            return Some(Ok(Token::Operation(op)));
        }
        if 49 <= b && b <= 57 {
            let start = self.pos;
            let mut val: i64 = 0;
            while self.pos < len && digit_byte(self.src[self.pos])
                invariant
                    old(self).pos <= start,
                    start <= self.pos <= len,
                    len == self.src@.len(),
                    self.src == old(self).src,
                    orig == old(self).suffix(),
                    t == skip_ws(orig),
                    t == self.src@.skip(start as int),
                    is_nonzero_digit(t[0]),
                    forall|j: int| 0 <= j < self.pos - start ==> is_digit(t[j]),
                    0 <= val <= i64::MAX,
                    val == dec_value(t.take(self.pos - start)),
                decreases len - self.pos,
            {
                let d = self.src[self.pos] - 48;
                let ghost pos0 = self.pos as int;
                proof {
                    lemma_dec_value_snoc(t, self.pos - start);
                }
                if val > (i64::MAX - d as i64) / 10 {
                    // The digit run denotes more than the token type holds:
                    // the value only grows with further digits, so this is
                    // already a lexical error.
                    proof {
                        let ghost k = digit_run_len(t) as int;
                        assert(t[0] == self.src@[start as int]);
                        assert(t[self.pos - start] == self.src@[self.pos as int]);
                        lemma_overflow_step(val as int, d as int);
                        lemma_digit_run_covers(t, self.pos - start + 1);
                        lemma_digit_run_all_digits(t);
                        lemma_run_len_bounds(t);
                        lemma_dec_value_grows(t, self.pos - start + 1, k);
                        assert(dec_value(t.take(pos0 - start + 1)) == val * 10 + d);
                        assert(dec_value(t.take(k)) > i64::MAX);
                    }
                    return Some(Err(()));
                }
                proof {
                    lemma_no_overflow_step(val as int, d as int);
                }
                val = val * 10 + d as i64;
                self.pos = self.pos + 1;
            }
            proof {
                lemma_digit_run_len_exact(t, self.pos - start);
                assert(t.skip(self.pos - start) =~= self.src@.skip(self.pos as int));
            }
            return Some(Ok(Token::Number(val)));
        }
        Some(Err(()))
    }
}

/// A strict prefix of digits lies within the digit run.
proof fn lemma_digit_run_covers(s: Seq<u8>, k: int)
    requires
        0 <= k <= s.len(),
        forall|j: int| 0 <= j < k ==> is_digit(s[j]),
    ensures
        k <= digit_run_len(s),
    decreases k,
{
    if k > 0 {
        assert(forall|j: int| 0 <= j < k - 1 ==> s.skip(1)[j] == s[j + 1]);
        lemma_digit_run_covers(s.skip(1), k - 1);
    }
}

/// Failing the division test means the next value exceeds `i64::MAX`.
proof fn lemma_overflow_step(v: int, d: int)
    requires
        0 <= d <= 9,
        v > (i64::MAX - d) / 10,
    ensures
        v * 10 + d > i64::MAX,
{
    let m = i64::MAX - d;
    assert(m == 10 * (m / 10) + m % 10) by (nonlinear_arith);
    assert(v * 10 >= ((m / 10) + 1) * 10) by (nonlinear_arith)
        requires
            v >= m / 10 + 1,
    ;
    assert(((m / 10) + 1) * 10 == 10 * (m / 10) + 10) by (nonlinear_arith);
}

/// Passing the division test means the next value still fits.
proof fn lemma_no_overflow_step(v: int, d: int)
    requires
        0 <= d <= 9,
        0 <= v,
        v <= (i64::MAX - d) / 10,
    ensures
        0 <= v * 10 + d <= i64::MAX,
{
    let m = i64::MAX - d;
    assert(m == 10 * (m / 10) + m % 10) by (nonlinear_arith);
    assert(v * 10 <= (m / 10) * 10) by (nonlinear_arith)
        requires
            v <= m / 10,
    ;
    assert((m / 10) * 10 == 10 * (m / 10)) by (nonlinear_arith);
}

/// A digit sequence with no leading zero lexes to exactly one token: a
/// number holding the value the digits denote, with nothing left over.
pub proof fn lemma_lex_number(s: Seq<u8>)
    requires
        s.len() > 0,
        is_nonzero_digit(s[0]),
        forall|j: int| 0 <= j < s.len() ==> is_digit(s[j]),
        dec_value(s) <= i64::MAX,
    ensures
        spec_lex(s) == (LexStep::Tok {
            t: Token::Number(dec_value(s) as i64),
            rest: Seq::<u8>::empty(),
        }),
        spec_lex(Seq::<u8>::empty()) == LexStep::End,
{
    lemma_digit_run_len_exact(s, s.len() as int);
    assert(s.take(s.len() as int) =~= s);
    assert(s.skip(s.len() as int) =~= Seq::<u8>::empty());
}

/// Whitespace skipping passes over an all-whitespace prefix.
pub proof fn lemma_skip_ws_concat(w: Seq<u8>, x: Seq<u8>)
    requires
        forall|j: int| 0 <= j < w.len() ==> is_ws(w[j]),
    ensures
        skip_ws(w + x) == skip_ws(x),
    decreases w.len(),
{
    if w.len() == 0 {
        assert(w + x =~= x);
    } else {
        assert((w + x)[0] == w[0]);
        assert((w + x).skip(1) =~= w.skip(1) + x);
        assert(forall|j: int| 0 <= j < w.skip(1).len() ==> w.skip(1)[j] == w[j + 1]);
        lemma_skip_ws_concat(w.skip(1), x);
    }
}

/// When the skipped suffix is not empty, appended input sits after it.
proof fn lemma_skip_ws_append(s: Seq<u8>, ext: Seq<u8>)
    requires
        skip_ws(s).len() > 0,
    ensures
        skip_ws(s + ext) == skip_ws(s) + ext,
    decreases s.len(),
{
    if s.len() > 0 && is_ws(s[0]) {
        assert((s + ext)[0] == s[0]);
        assert((s + ext).skip(1) =~= s.skip(1) + ext);
        lemma_skip_ws_append(s.skip(1), ext);
    } else {
        assert((s + ext)[0] == s[0]);
        assert(skip_ws(s + ext) == s + ext);
    }
}

/// The byte just after the digit run, if any, is not a digit.
proof fn lemma_digit_run_stopper(s: Seq<u8>)
    ensures
        digit_run_len(s) == s.len() || !is_digit(s[digit_run_len(s) as int]),
    decreases s.len(),
{
    lemma_run_len_bounds(s);
    if s.len() > 0 && is_digit(s[0]) {
        let s1 = s.skip(1);
        lemma_digit_run_stopper(s1);
        lemma_run_len_bounds(s1);
        if digit_run_len(s1) < s1.len() {
            assert(s1[digit_run_len(s1) as int] == s[digit_run_len(s) as int]);
        }
    }
}

/// The byte just after the letter run, if any, is not a letter.
proof fn lemma_alpha_run_stopper(s: Seq<u8>)
    ensures
        alpha_run_len(s) == s.len() || !is_alpha(s[alpha_run_len(s) as int]),
    decreases s.len(),
{
    lemma_run_len_bounds(s);
    if s.len() > 0 && is_alpha(s[0]) {
        let s1 = s.skip(1);
        lemma_alpha_run_stopper(s1);
        lemma_run_len_bounds(s1);
        if alpha_run_len(s1) < s1.len() {
            assert(s1[alpha_run_len(s1) as int] == s[alpha_run_len(s) as int]);
        }
    }
}

/// A following byte that starts no digit run leaves the run as it was.
proof fn lemma_digit_run_append(s: Seq<u8>, ext: Seq<u8>)
    requires
        ext.len() > 0 ==> !is_digit(ext[0]),
    ensures
        digit_run_len(s + ext) == digit_run_len(s),
{
    let k = digit_run_len(s) as int;
    lemma_run_len_bounds(s);
    lemma_digit_run_all_digits(s);
    assert(forall|j: int| 0 <= j < k ==> (s + ext)[j] == s[j]);
    if k < s.len() {
        lemma_digit_run_stopper(s);
        assert((s + ext)[k] == s[k]);
        lemma_digit_run_len_exact(s + ext, k);
    } else {
        if ext.len() == 0 {
            assert(s + ext =~= s);
        } else {
            assert((s + ext)[k] == ext[0]);
            lemma_digit_run_len_exact(s + ext, k);
        }
    }
}

/// A following byte that starts no letter run leaves the run as it was.
proof fn lemma_alpha_run_append(s: Seq<u8>, ext: Seq<u8>)
    requires
        ext.len() > 0 ==> !is_alpha(ext[0]),
    ensures
        alpha_run_len(s + ext) == alpha_run_len(s),
{
    let k = alpha_run_len(s) as int;
    lemma_run_len_bounds(s);
    lemma_alpha_run_all_alpha(s);
    assert(forall|j: int| 0 <= j < k ==> (s + ext)[j] == s[j]);
    if k < s.len() {
        lemma_alpha_run_stopper(s);
        assert((s + ext)[k] == s[k]);
        lemma_alpha_run_len_exact(s + ext, k);
    } else {
        if ext.len() == 0 {
            assert(s + ext =~= s);
        } else {
            assert((s + ext)[k] == ext[0]);
            lemma_alpha_run_len_exact(s + ext, k);
        }
    }
}

/// Every byte inside the letter run is a letter.
proof fn lemma_alpha_run_all_alpha(s: Seq<u8>)
    ensures
        forall|j: int| 0 <= j < alpha_run_len(s) ==> is_alpha(s[j]),
    decreases s.len(),
{
    if s.len() > 0 && is_alpha(s[0]) {
        let s1 = s.skip(1);
        lemma_alpha_run_all_alpha(s1);
        lemma_run_len_bounds(s1);
        assert forall|j: int| 0 <= j < alpha_run_len(s) implies is_alpha(s[j]) by {
            if j > 0 {
                assert(is_alpha(s1[j - 1]));
                assert(s1[j - 1] == s[j]);
            }
        }
    }
}

/// Input appended after a complete token neither changes the token nor
/// melts into it, provided its first byte can extend no digit or letter
/// run; the appended input is simply left over.
pub proof fn lemma_lex_extend(s: Seq<u8>, ext: Seq<u8>, t: Token, rest: Seq<u8>)
    requires
        spec_lex(s) == (LexStep::Tok { t, rest }),
        ext.len() > 0 ==> !is_digit(ext[0]) && !is_alpha(ext[0]),
    ensures
        spec_lex(s + ext) == (LexStep::Tok { t, rest: rest + ext }),
{
    let t0 = skip_ws(s);
    assert(t0.len() > 0);
    lemma_skip_ws_append(s, ext);
    assert(skip_ws(s + ext) == t0 + ext);
    assert((t0 + ext)[0] == t0[0]);
    lemma_skip_ws_len(s);
    lemma_run_len_bounds(t0);
    if t0[0] == 41 || t0[0] == 40 || is_op_byte(t0[0]) {
        assert((t0 + ext).skip(1) =~= t0.skip(1) + ext);
    } else if is_alpha(t0[0]) {
        let k = alpha_run_len(t0) as int;
        lemma_alpha_run_append(t0, ext);
        assert((t0 + ext).skip(k) =~= t0.skip(k) + ext);
    } else {
        assert(is_nonzero_digit(t0[0]));
        let k = digit_run_len(t0) as int;
        lemma_digit_run_append(t0, ext);
        assert((t0 + ext).take(k) =~= t0.take(k));
        assert((t0 + ext).skip(k) =~= t0.skip(k) + ext);
    }
}

fn ws_byte(b: u8) -> (r: bool)
    ensures
        r == is_ws(b),
{
    b == 32 || b == 9 || b == 10 || b == 12
}

fn alpha_byte(b: u8) -> (r: bool)
    ensures
        r == is_alpha(b),
{
    (65 <= b && b <= 90) || (97 <= b && b <= 122)
}

fn digit_byte(b: u8) -> (r: bool)
    ensures
        r == is_digit(b),
{
    48 <= b && b <= 57
}

} // verus!
