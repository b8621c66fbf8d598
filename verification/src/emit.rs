//! Rendering: instructions and the program template as assembly text.
//!
//! The textual contract is exact: `instr_text` gives each instruction's
//! line, `code_text` the generated stream, and `program_text` the whole
//! artifact — a flat-assembler program header, a string constant holding
//! the caller's format template followed by a newline and terminator, the
//! entry point, the generated code, and a trailer that hands the result
//! and the template to the external formatted-print routine.  The format
//! template is embedded verbatim, without escaping.

use vstd::prelude::*;

use vstd::string::StringExecFns;

use crate::codegen::Instr;

verus! {

/// The character of one decimal digit.
pub open spec fn digit_char(d: int) -> char {
    if d == 0 {
        '0'
    } else if d == 1 {
        '1'
    } else if d == 2 {
        '2'
    } else if d == 3 {
        '3'
    } else if d == 4 {
        '4'
    } else if d == 5 {
        '5'
    } else if d == 6 {
        '6'
    } else if d == 7 {
        '7'
    } else if d == 8 {
        '8'
    } else {
        '9'
    }
}

/// The decimal text of a nonnegative value, no sign, no leading zero
/// except for zero itself.
pub open spec fn dec_digits(n: int) -> Seq<char>
    decreases n,
{
    if n < 10 {
        seq![digit_char(n)]
    } else {
        dec_digits(n / 10).push(digit_char(n % 10))
    }
}

/// The decimal text of a value, with a leading minus when negative.
pub open spec fn dec_text(n: int) -> Seq<char> {
    if n >= 0 {
        dec_digits(n)
    } else {
        seq!['-'] + dec_digits(-n)
    }
}

/// Append one digit character.
fn push_digit(d: u64, out: &mut String)
    requires
        d < 10,
    ensures
        final(out)@ == old(out)@ + seq![digit_char(d as int)],
{
    if d == 0 {
        out.append("0");
        proof {
            reveal_strlit("0");
            assert("0"@ =~= seq![digit_char(0)]);
        }
    } else if d == 1 {
        out.append("1");
        proof {
            reveal_strlit("1");
            assert("1"@ =~= seq![digit_char(1)]);
        }
    } else if d == 2 {
        out.append("2");
        proof {
            reveal_strlit("2");
            assert("2"@ =~= seq![digit_char(2)]);
        }
    } else if d == 3 {
        out.append("3");
        proof {
            reveal_strlit("3");
            assert("3"@ =~= seq![digit_char(3)]);
        }
    } else if d == 4 {
        out.append("4");
        proof {
            reveal_strlit("4");
            assert("4"@ =~= seq![digit_char(4)]);
        }
    } else if d == 5 {
        out.append("5");
        proof {
            reveal_strlit("5");
            assert("5"@ =~= seq![digit_char(5)]);
        }
    } else if d == 6 {
        out.append("6");
        proof {
            reveal_strlit("6");
            assert("6"@ =~= seq![digit_char(6)]);
        }
    } else if d == 7 {
        out.append("7");
        proof {
            reveal_strlit("7");
            assert("7"@ =~= seq![digit_char(7)]);
        }
    } else if d == 8 {
        out.append("8");
        proof {
            reveal_strlit("8");
            assert("8"@ =~= seq![digit_char(8)]);
        }
    } else {
        out.append("9");
        proof {
            reveal_strlit("9");
            assert("9"@ =~= seq![digit_char(9)]);
        }
    }
}

/// Append the decimal text of a nonnegative value.
fn push_dec_digits(n: u64, out: &mut String)
    ensures
        final(out)@ == old(out)@ + dec_digits(n as int),
    decreases n,
{
    if n < 10 {
        push_digit(n, out);
    } else {
        proof {
            assert(n as int / 10 < n as int) by (nonlinear_arith)
                requires
                    n >= 10,
            ;
        }
        push_dec_digits(n / 10, out);
        push_digit(n % 10, out);
        proof {
            assert(old(out)@ + dec_digits(n as int / 10) + seq![digit_char(n as int % 10)] =~= old(
                out,
            )@ + dec_digits(n as int));
        }
    }
}

/// Append the decimal text of a value, minus sign included.
fn push_dec_text(n: i64, out: &mut String)
    ensures
        final(out)@ == old(out)@ + dec_text(n as int),
{
    if n >= 0 {
        push_dec_digits(n as u64, out);
    } else {
        out.append("-");
        proof {
            reveal_strlit("-");
            assert("-"@ =~= seq!['-']);
        }
        let m: u64 = ((-(n + 1)) as u64) + 1;
        proof {
            assert(m as int == -(n as int));
        }
        push_dec_digits(m, out);
        proof {
            assert(old(out)@ + seq!['-'] + dec_digits(m as int) =~= old(out)@ + dec_text(n as int));
        }
    }
}

/// The text of one instruction line, newline included.
pub open spec fn instr_text(i: Instr) -> Seq<char> {
    match i {
        Instr::MovRaxImm(n) => "mov rax, "@ + dec_text(n as int) + "\n"@,
        Instr::PushRax => "push rax\n"@,
        Instr::PopRbx => "pop rbx\n"@,
        Instr::AddRaxRbx => "add rax, rbx\n"@,
        Instr::SubRaxRbx => "sub rax, rbx\n"@,
        Instr::ImulRaxRbx => "imul rax, rbx\n"@,
        Instr::MovRdxZero => "mov rdx, 0\n"@,
        Instr::MovRcxRax => "mov rcx, rax\n"@,
        Instr::MovRaxRbx => "mov rax, rbx\n"@,
        Instr::DivRcx => "div rcx\n"@,
        Instr::Blank => "\n"@,
    }
}

/// The text of an instruction stream, line by line in order.
pub open spec fn code_text(code: Seq<Instr>) -> Seq<char>
    decreases code.len(),
{
    if code.len() == 0 {
        Seq::<char>::empty()
    } else {
        instr_text(code[0]) + code_text(code.skip(1))
    }
}

/// The text of concatenated streams is the concatenated text.
pub proof fn lemma_code_text_append(c1: Seq<Instr>, c2: Seq<Instr>)
    ensures
        code_text(c1 + c2) == code_text(c1) + code_text(c2),
    decreases c1.len(),
{
    if c1.len() == 0 {
        assert(c1 + c2 =~= c2);
        assert(code_text(c1) + code_text(c2) =~= code_text(c2));
    } else {
        assert((c1 + c2)[0] == c1[0]);
        assert((c1 + c2).skip(1) =~= c1.skip(1) + c2);
        lemma_code_text_append(c1.skip(1), c2);
        assert(instr_text(c1[0]) + (code_text(c1.skip(1)) + code_text(c2)) =~= (instr_text(c1[0])
            + code_text(c1.skip(1))) + code_text(c2));
    }
}

/// Append one instruction's line.
fn push_instr(i: &Instr, out: &mut String)
    ensures
        final(out)@ == old(out)@ + instr_text(*i),
{
    match i {
        Instr::MovRaxImm(n) => {
            out.append("mov rax, ");
            push_dec_text(*n, out);
            out.append("\n");
            proof {
                assert(old(out)@ + "mov rax, "@ + dec_text(*n as int) + "\n"@ =~= old(out)@
                    + instr_text(*i));
            }
        },
        Instr::PushRax => out.append("push rax\n"),
        Instr::PopRbx => out.append("pop rbx\n"),
        Instr::AddRaxRbx => out.append("add rax, rbx\n"),
        Instr::SubRaxRbx => out.append("sub rax, rbx\n"),
        Instr::ImulRaxRbx => out.append("imul rax, rbx\n"),
        Instr::MovRdxZero => out.append("mov rdx, 0\n"),
        Instr::MovRcxRax => out.append("mov rcx, rax\n"),
        Instr::MovRaxRbx => out.append("mov rax, rbx\n"),
        Instr::DivRcx => out.append("div rcx\n"),
        Instr::Blank => out.append("\n"),
    }
}

/// One instruction's line as a fresh string.
pub fn render_instr(i: &Instr) -> (r: String)
    ensures
        r@ == instr_text(*i),
{
    let mut out = String::new();
    push_instr(i, &mut out);
    proof {
        assert(Seq::<char>::empty() + instr_text(*i) =~= instr_text(*i));
    }
    out
}

/// The program header: target format, executable text section, public
/// entry point, the external formatted-print symbol, the string constant
/// holding the format template with a newline and terminator, and the
/// entry label.
pub open spec fn header_text(fmt: Seq<char>) -> Seq<char> {
    "format ELF64\n"@ + "section \".text\" executable\n"@ + "public main\n"@ + "extrn printf\n"@
        + "msg db \""@ + fmt + "\",10,0\n"@ + "main:\n"@
}

/// The program trailer: the result and the template address go into the
/// argument registers, the variadic convention zeroes the accumulator,
/// the print routine is called, and the program returns zero.
pub open spec fn trailer_text() -> Seq<char> {
    "mov rdi, msg\n"@ + "mov rsi, rax\n"@ + "xor rax, rax\n"@ + "call printf\n"@ + "mov rax, 0\n"@
        + "ret\n"@
}

/// A whole program around an instruction stream.
pub open spec fn program_text(code: Seq<Instr>, fmt: Seq<char>) -> Seq<char> {
    header_text(fmt) + code_text(code) + trailer_text()
}

/// Wrap an instruction stream in the program template, embedding the
/// format template verbatim.
pub fn emit_program(code: &Vec<Instr>, fmt: &str) -> (r: String)
    ensures
        r@ == program_text(code@, fmt@),
{
    let mut out = String::new();
    out.append("format ELF64\n");
    out.append("section \".text\" executable\n");
    out.append("public main\n");
    out.append("extrn printf\n");
    out.append("msg db \"");
    out.append(fmt);
    out.append("\",10,0\n");
    out.append("main:\n");
    proof {
        assert(out@ =~= header_text(fmt@));
    }
    let mut i: usize = 0;
    while i < code.len()
        invariant
            i <= code@.len(),
            out@ == header_text(fmt@) + code_text(code@.take(i as int)),
        decreases code@.len() - i,
    {
        let ins = code[i];
        push_instr(&ins, &mut out);
        proof {
            assert(code@.take(i as int + 1) =~= code@.take(i as int) + seq![code@[i as int]]);
            lemma_code_text_append(code@.take(i as int), seq![code@[i as int]]);
            assert(seq![code@[i as int]][0] == code@[i as int]);
            assert(seq![code@[i as int]].skip(1) =~= Seq::<Instr>::empty());
            assert(code_text(Seq::<Instr>::empty()) =~= Seq::<char>::empty());
            assert(code_text(seq![code@[i as int]]) =~= instr_text(code@[i as int]));
            assert(out@ =~= header_text(fmt@) + code_text(code@.take(i as int + 1)));
        }
        i = i + 1;
    }
    proof {
        assert(code@.take(code@.len() as int) =~= code@);
    }
    out.append("mov rdi, msg\n");
    out.append("mov rsi, rax\n");
    out.append("xor rax, rax\n");
    out.append("call printf\n");
    out.append("mov rax, 0\n");
    out.append("ret\n");
    proof {
        assert(out@ =~= program_text(code@, fmt@));
    }
    out
}

} // verus!
