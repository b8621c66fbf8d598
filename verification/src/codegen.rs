//! Code generation: an expression tree to stack-machine instructions.
//!
//! The code walks the tree in post-order under a two-register convention:
//! the accumulator `rax` holds the current result, and an operand stack
//! preserves a left-hand intermediate across the evaluation of the right
//! sub-expression, after which `rbx` receives it back.  Every node always
//! emits its full sequence; there is no folding or other optimization.
//!
//! `spec_code` is the model of the generated instructions, `step`/`run`
//! their register semantics, and `lemma_code_correct` the statement that
//! running the code of an expression from any start state computes the
//! expression's value into the accumulator and restores the stack.

use vstd::prelude::*;

use crate::lexer::Op;
use crate::parser::Expr;

verus! {

/// One line of the generated instruction stream.
#[derive(Clone, Copy, Debug, PartialEq, Eq, Structural)]
pub enum Instr {
    /// `mov rax, n`: load an immediate into the accumulator.
    MovRaxImm(i64),
    /// `push rax`: save the accumulator on the operand stack.
    PushRax,
    /// `pop rbx`: restore the saved left value into the second register.
    PopRbx,
    /// `add rax, rbx`
    AddRaxRbx,
    /// `sub rax, rbx`
    SubRaxRbx,
    /// `imul rax, rbx`
    ImulRaxRbx,
    /// `mov rdx, 0`: clear the high-order register before a division.
    MovRdxZero,
    /// `mov rcx, rax`: move the divisor out of the accumulator.
    MovRcxRax,
    /// `mov rax, rbx`: move the dividend into the accumulator.
    MovRaxRbx,
    /// `div rcx`: divide, quotient left in the accumulator.
    DivRcx,
    /// The blank separator line written after every operation.
    Blank,
}

/// The instructions that combine the saved left value in `rbx` with the
/// right value in the accumulator.  Division needs a fixup sequence: the
/// division instruction takes its dividend in the accumulator and leaves
/// the quotient there, so the two values change places first.
pub open spec fn combine_code(op: Op) -> Seq<Instr> {
    match op {
        Op::Add => seq![Instr::AddRaxRbx],
        Op::Sub => seq![Instr::SubRaxRbx],
        Op::Mul => seq![Instr::ImulRaxRbx],
        Op::Div => seq![Instr::MovRdxZero, Instr::MovRcxRax, Instr::MovRaxRbx, Instr::DivRcx],
    }
}

/// The instruction stream of an expression, in tree post-order: a literal
/// is one immediate load; an operation is the left code, a push, the
/// right code, a pop, the combining sequence, and a separator.
pub open spec fn spec_code(e: Expr) -> Seq<Instr>
    decreases e,
{
    match e {
        Expr::Literal(n) => seq![Instr::MovRaxImm(n)],
        Expr::BinaryOp { op, left, right } => spec_code(*left) + seq![Instr::PushRax] + spec_code(
            *right,
        ) + seq![Instr::PopRbx] + combine_code(op) + seq![Instr::Blank],
    }
}

/// Generate the instruction stream of an expression.
pub fn gen_code(e: &Expr) -> (code: Vec<Instr>)
    ensures
        code@ == spec_code(*e),
{
    let mut code = Vec::new();
    gen_into(e, &mut code);
    proof {
        assert(code@ =~= spec_code(*e));
    }
    code
}

/// Append the instruction stream of `e` to `out`, in post-order.
fn gen_into(e: &Expr, out: &mut Vec<Instr>)
    ensures
        final(out)@ == old(out)@ + spec_code(*e),
    decreases *e,
{
    match e {
        Expr::Literal(n) => {
            out.push(Instr::MovRaxImm(*n));
            proof {
                assert(out@ =~= old(out)@ + spec_code(*e));
            }
        },
        Expr::BinaryOp { op, left, right } => {
            gen_into(left, out);
            out.push(Instr::PushRax);
            gen_into(right, out);
            out.push(Instr::PopRbx);
            match op {
                Op::Add => out.push(Instr::AddRaxRbx),
                Op::Sub => out.push(Instr::SubRaxRbx),
                Op::Mul => out.push(Instr::ImulRaxRbx),
                Op::Div => {
                    out.push(Instr::MovRdxZero);
                    out.push(Instr::MovRcxRax);
                    out.push(Instr::MovRaxRbx);
                    out.push(Instr::DivRcx);
                },
            }
            out.push(Instr::Blank);
            proof {
                assert(out@ =~= old(out)@ + spec_code(*e));
            }
        },
    }
}

/// The register file and operand stack the generated code acts on.
pub struct MachState {
    pub rax: int,
    pub rbx: int,
    pub rcx: int,
    pub rdx: int,
    pub stack: Seq<int>,
}

/// The effect of one instruction on the machine state.  Division is the
/// spec-level integer division of the dividend in the accumulator by the
/// divisor in `rcx`; popping an empty stack changes nothing, and the
/// generated code never does so.
pub open spec fn step(st: MachState, i: Instr) -> MachState {
    match i {
        Instr::MovRaxImm(n) => MachState { rax: n as int, ..st },
        Instr::PushRax => MachState { stack: st.stack.push(st.rax), ..st },
        Instr::PopRbx => if st.stack.len() > 0 {
            MachState { rbx: st.stack.last(), stack: st.stack.drop_last(), ..st }
        } else {
            st
        },
        Instr::AddRaxRbx => MachState { rax: st.rax + st.rbx, ..st },
        Instr::SubRaxRbx => MachState { rax: st.rax - st.rbx, ..st },
        Instr::ImulRaxRbx => MachState { rax: st.rax * st.rbx, ..st },
        Instr::MovRdxZero => MachState { rdx: 0, ..st },
        Instr::MovRcxRax => MachState { rcx: st.rax, ..st },
        Instr::MovRaxRbx => MachState { rax: st.rbx, ..st },
        Instr::DivRcx => MachState { rax: st.rax / st.rcx, rdx: st.rax % st.rcx, ..st },
        Instr::Blank => st,
    }
}

/// Run a code sequence from a start state, one instruction at a time.
pub open spec fn run(st: MachState, code: Seq<Instr>) -> MachState
    decreases code.len(),
{
    if code.len() == 0 {
        st
    } else {
        run(step(st, code[0]), code.skip(1))
    }
}

/// Running concatenated code runs the two pieces in order.
pub proof fn lemma_run_append(st: MachState, c1: Seq<Instr>, c2: Seq<Instr>)
    ensures
        run(st, c1 + c2) == run(run(st, c1), c2),
    decreases c1.len(),
{
    if c1.len() == 0 {
        assert(c1 + c2 =~= c2);
    } else {
        assert((c1 + c2)[0] == c1[0]);
        assert((c1 + c2).skip(1) =~= c1.skip(1) + c2);
        lemma_run_append(step(st, c1[0]), c1.skip(1), c2);
    }
}

/// Running a single instruction is one step.
proof fn lemma_run_one(st: MachState, i: Instr)
    ensures
        run(st, seq![i]) == step(st, i),
{
    let c = seq![i];
    assert(c[0] == i);
    assert(c.skip(1) =~= Seq::<Instr>::empty());
    assert(run(step(st, i), Seq::<Instr>::empty()) == step(st, i));
}

/// The value the generated code of an expression computes.  A literal is
/// itself.  For an operation the left value is pushed and popped into the
/// second register while the right value sits in the accumulator, so the
/// instruction `sub rax, rbx` yields right minus left, while the division
/// fixup swaps the two first and divides left by right.  Addition and
/// multiplication are indifferent to the order.
pub open spec fn eval(e: Expr) -> int
    decreases e,
{
    match e {
        Expr::Literal(n) => n as int,
        Expr::BinaryOp { op, left, right } => match op {
            Op::Add => eval(*left) + eval(*right),
            Op::Sub => eval(*right) - eval(*left),
            Op::Mul => eval(*left) * eval(*right),
            Op::Div => eval(*left) / eval(*right),
        },
    }
}

/// From any start state, running the code of an expression leaves the
/// expression's value in the accumulator and the operand stack exactly as
/// it was found.
pub proof fn lemma_code_correct(e: Expr, st: MachState)
    ensures
        run(st, spec_code(e)).rax == eval(e),
        run(st, spec_code(e)).stack == st.stack,
    decreases e,
{
    match e {
        Expr::Literal(n) => {
            lemma_run_one(st, Instr::MovRaxImm(n));
        },
        Expr::BinaryOp { op, left, right } => {
            let c1 = spec_code(*left);
            let c2 = spec_code(*right);
            let cb = combine_code(op);
            let a1 = c1 + seq![Instr::PushRax];
            let a2 = a1 + c2;
            let a3 = a2 + seq![Instr::PopRbx];
            let a4 = a3 + cb;
            assert(spec_code(e) == a4 + seq![Instr::Blank]);

            lemma_code_correct(*left, st);
            let s1 = run(st, c1);
            lemma_run_append(st, c1, seq![Instr::PushRax]);
            lemma_run_one(s1, Instr::PushRax);
            let s2 = step(s1, Instr::PushRax);

            lemma_code_correct(*right, s2);
            lemma_run_append(st, a1, c2);
            let s3 = run(s2, c2);

            lemma_run_append(st, a2, seq![Instr::PopRbx]);
            lemma_run_one(s3, Instr::PopRbx);
            let s4 = step(s3, Instr::PopRbx);
            assert(s3.stack == st.stack.push(eval(*left)));
            assert(s3.stack.drop_last() =~= st.stack);
            assert(s4.rbx == eval(*left));
            assert(s4.rax == eval(*right));

            lemma_run_append(st, a3, cb);
            let s5 = run(s4, cb);
            match op {
                Op::Add => {
                    lemma_run_one(s4, Instr::AddRaxRbx);
                    assert(s5.rax == eval(e));
                },
                Op::Sub => {
                    lemma_run_one(s4, Instr::SubRaxRbx);
                    assert(s5.rax == eval(e));
                },
                Op::Mul => {
                    lemma_run_one(s4, Instr::ImulRaxRbx);
                    assert(s4.rax * s4.rbx == s4.rbx * s4.rax) by (nonlinear_arith);
                    assert(s5.rax == eval(e));
                },
                Op::Div => {
                    let d1 = step(s4, Instr::MovRdxZero);
                    let d2 = step(d1, Instr::MovRcxRax);
                    let d3 = step(d2, Instr::MovRaxRbx);
                    let d4 = step(d3, Instr::DivRcx);
                    let r1 = cb.skip(1);
                    let r2 = r1.skip(1);
                    let r3 = r2.skip(1);
                    let r4 = r3.skip(1);
                    assert(r1 =~= seq![Instr::MovRcxRax, Instr::MovRaxRbx, Instr::DivRcx]);
                    assert(r2 =~= seq![Instr::MovRaxRbx, Instr::DivRcx]);
                    assert(r3 =~= seq![Instr::DivRcx]);
                    assert(r4 =~= Seq::<Instr>::empty());
                    assert(cb[0] == Instr::MovRdxZero);
                    assert(run(s4, cb) == run(d1, r1));
                    assert(r1[0] == Instr::MovRcxRax);
                    assert(run(d1, r1) == run(d2, r2));
                    assert(r2[0] == Instr::MovRaxRbx);
                    assert(run(d2, r2) == run(d3, r3));
                    assert(r3[0] == Instr::DivRcx);
                    assert(run(d3, r3) == run(d4, r4));
                    assert(run(d4, r4) == d4);
                    assert(s5 == d4);
                    assert(s5.rax == eval(e));
                },
            }
            assert(s5.rax == eval(e));
            assert(s5.stack == st.stack);

            lemma_run_append(st, a4, seq![Instr::Blank]);
            lemma_run_one(s5, Instr::Blank);
        },
    }
}

} // verus!
