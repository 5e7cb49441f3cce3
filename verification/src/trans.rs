//! The emitter: translates the lowered program to stack-machine assembly.
//!
//! The target machine has a single integer stack. The emitter keeps a
//! compile-time model of that stack: a vector of the logical registers it
//! holds, bottom to top. On function entry the model holds the parameters;
//! it is restored to that shape at every block boundary. Calls and returns
//! go through a central dispatch trampoline: each call site pushes a unique
//! return token, and the dispatcher decodes the token to resume at the
//! matching label.

use vstd::prelude::*;
use crate::generate::BasicBlockV;
use crate::generate::Function;
use crate::generate::FunctionV;
use crate::generate::Program;
use crate::generate::ProgramV;
use crate::generate::StatementV;
use crate::generate::Value;
use crate::generate::ValueV;
use crate::generate::spec_funcs_lookup;
use crate::parse::OperatorV;

verus! {

/// An assembly label: a function entry, a block within a function, a call
/// site's resume point, or the dispatch trampoline.
#[derive(Debug, Clone, PartialEq)]
pub enum Lbl {
    Func(String),
    Block(String, usize),
    Control(usize),
    Ret,
}

/// One instruction of the stack machine.
#[derive(Debug, Clone, PartialEq)]
pub enum Insn {
    Push(i128),
    Pop,
    Dup,
    Swap,
    Roll,
    Add,
    Sub,
    Mul,
    Div,
    Mod,
    Greater,
    Not,
    Inn,
    Inc,
    Outn,
    Outc,
    Jmp(Lbl),
    Jez(Lbl),
    Label(Lbl),
    Halt,
}

/// The mathematical model of a label.
pub enum LblV {
    Func(Seq<char>),
    Block(Seq<char>, nat),
    Control(nat),
    Ret,
}

/// The mathematical model of an instruction.
pub enum InsnV {
    Push(int),
    Pop,
    Dup,
    Swap,
    Roll,
    Add,
    Sub,
    Mul,
    Div,
    Mod,
    Greater,
    Not,
    Inn,
    Inc,
    Outn,
    Outc,
    Jmp(LblV),
    Jez(LblV),
    Label(LblV),
    Halt,
}

impl DeepView for Lbl {
    type V = LblV;

    open spec fn deep_view(&self) -> LblV {
        match self {
            Lbl::Func(name) => LblV::Func(name@),
            Lbl::Block(name, i) => LblV::Block(name@, *i as nat),
            Lbl::Control(i) => LblV::Control(*i as nat),
            Lbl::Ret => LblV::Ret,
        }
    }
}

impl DeepView for Insn {
    type V = InsnV;

    open spec fn deep_view(&self) -> InsnV {
        match self {
            Insn::Push(n) => InsnV::Push(*n as int),
            Insn::Pop => InsnV::Pop,
            Insn::Dup => InsnV::Dup,
            Insn::Swap => InsnV::Swap,
            Insn::Roll => InsnV::Roll,
            Insn::Add => InsnV::Add,
            Insn::Sub => InsnV::Sub,
            Insn::Mul => InsnV::Mul,
            Insn::Div => InsnV::Div,
            Insn::Mod => InsnV::Mod,
            Insn::Greater => InsnV::Greater,
            Insn::Not => InsnV::Not,
            Insn::Inn => InsnV::Inn,
            Insn::Inc => InsnV::Inc,
            Insn::Outn => InsnV::Outn,
            Insn::Outc => InsnV::Outc,
            Insn::Jmp(l) => InsnV::Jmp(l.deep_view()),
            Insn::Jez(l) => InsnV::Jez(l.deep_view()),
            Insn::Label(l) => InsnV::Label(l.deep_view()),
            Insn::Halt => InsnV::Halt,
        }
    }
}

/// The models of a sequence of instructions.
pub open spec fn insns_dv(s: Seq<Insn>) -> Seq<InsnV> {
    Seq::new(s.len(), |i: int| s[i].deep_view())
}

/// The models of a register stack.
pub open spec fn regs_dv(s: Seq<usize>) -> Seq<nat> {
    Seq::new(s.len(), |i: int| s[i] as nat)
}

/// The position of `reg` in the stack model, from position `i` on; a
/// missing register answers position zero.
pub open spec fn reg_index_from(regs: Seq<nat>, reg: nat, i: int) -> int
    decreases regs.len() - i,
{
    if 0 <= i < regs.len() {
        if regs[i] == reg {
            i
        } else {
            reg_index_from(regs, reg, i + 1)
        }
    } else {
        0
    }
}

/// The instructions that copy register `reg` to the top of the stack
/// without disturbing anything else: roll the slot to the top, duplicate
/// it, and roll the original back into place.
pub open spec fn spec_pullup(regs: Seq<nat>, reg: nat) -> Seq<InsnV> {
    let index = reg_index_from(regs, reg, 0);
    let d = regs.len() - index;
    seq![
        InsnV::Push(d),
        InsnV::Push(-1),
        InsnV::Roll,
        InsnV::Dup,
        InsnV::Push(d + 1),
        InsnV::Push(1),
        InsnV::Roll,
    ]
}

/// The instructions that put one value on top of the stack: a register is
/// pulled up, an immediate is pushed; the model gains `ret` on top.
pub open spec fn spec_substitute_t(val: ValueV, ret: nat, regs: Seq<nat>) -> (Seq<InsnV>, Seq<
    nat,
>) {
    match val {
        ValueV::Register(r) => (spec_pullup(regs, r), regs.push(ret)),
        ValueV::Immediate(imm) => (seq![InsnV::Push(imm)], regs.push(ret)),
        ValueV::Label(_) => (seq![], regs.push(ret)),
    }
}

/// `k` swap-and-pop pairs: each removes the slot below the top.
pub open spec fn swap_pops(k: int) -> Seq<InsnV>
    decreases k,
{
    if k <= 0 {
        seq![]
    } else {
        swap_pops(k - 1) + seq![InsnV::Swap, InsnV::Pop]
    }
}

/// `k` plain pops.
pub open spec fn pops(k: int) -> Seq<InsnV>
    decreases k,
{
    if k <= 0 {
        seq![]
    } else {
        pops(k - 1).push(InsnV::Pop)
    }
}

/// The instructions that place both operands of a binary operation on top
/// of the stack; the model loses the two operand slots and gains `ret`.
pub open spec fn spec_bin_t(args: Seq<ValueV>, ret: nat, regs: Seq<nat>) -> Option<(Seq<InsnV>, Seq<
    nat,
>)> {
    if args.len() < 2 {
        None
    } else {
        let (i0, r0) = spec_substitute_t(args[0], 0, regs);
        let (i1, r1) = spec_substitute_t(args[1], 0, r0);
        Some((i0 + i1, r1.drop_last().drop_last().push(ret)))
    }
}

/// The instructions for one statement, with the stack model and the call
/// counter afterwards.
pub open spec fn spec_stmt_t(
    stmt: StatementV,
    func: FunctionV,
    prog: ProgramV,
    block: BasicBlockV,
    regs: Seq<nat>,
    count: nat,
    start: nat,
) -> Option<(Seq<InsnV>, Seq<nat>, nat)> {
    match stmt.op {
        OperatorV::Call { name } => {
            if start + count + 1 > usize::MAX {
                None
            } else {
                match stmt.ret {
                    None => None,
                    Some(ret) => match spec_funcs_lookup(prog.funcs, name) {
                        None => None,
                        Some(callee) => {
                            let token = start + count;
                            let (ai, ar) = spec_call_args_t(stmt.args, 0, regs.push(0));
                            let insns = seq![InsnV::Push(token as int)] + ai + seq![
                                InsnV::Jmp(LblV::Func(name)),
                                InsnV::Label(LblV::Control(token as nat)),
                                InsnV::Pop,
                            ];
                            let popped = ar.take(ar.len() - (stmt.args.len() + 1));
                            let regs2 = popped + Seq::new(callee.retnum, |q: int| ret);
                            Some((insns, regs2, (count + 1) as nat))
                        },
                    },
                }
            }
        },
        OperatorV::If => {
            if stmt.args.len() < 1 || block.nexts.len() < 2 {
                None
            } else {
                let (ci, cr) = spec_substitute_t(stmt.args[0], 0, regs);
                let k = cr.len() - 1 - func.args.len();
                let insns = ci + swap_pops(k) + seq![
                    InsnV::Jez(LblV::Block(func.name, block.nexts[1])),
                ];
                Some((insns, cr.drop_last(), count))
            }
        },
        OperatorV::Jump => {
            if block.nexts.len() < 1 {
                None
            } else {
                Some((seq![InsnV::Jmp(LblV::Block(func.name, block.nexts[0]))], regs, count))
            }
        },
        OperatorV::Return => {
            if stmt.args.len() >= 1 {
                let (ci, cr) = spec_substitute_t(stmt.args[0], 0, regs);
                let insns = ci + swap_pops(cr.len() - 1) + seq![InsnV::Swap, InsnV::Jmp(LblV::Ret)];
                Some((insns, cr, count))
            } else {
                Some((pops(regs.len() as int) + seq![InsnV::Jmp(LblV::Ret)], regs, count))
            }
        },
        OperatorV::Substitute => {
            if stmt.args.len() < 1 {
                None
            } else {
                match stmt.ret {
                    None => None,
                    Some(ret) => {
                        let (ci, cr) = spec_substitute_t(stmt.args[0], ret, regs);
                        Some((ci, cr, count))
                    },
                }
            }
        },
        OperatorV::LessThan => {
            if stmt.args.len() < 2 {
                None
            } else {
                match stmt.ret {
                    None => None,
                    Some(ret) => {
                        let (i1, r1) = spec_substitute_t(stmt.args[1], 0, regs);
                        let (i0, r0) = spec_substitute_t(stmt.args[0], 0, r1);
                        let regs2 = r0.drop_last().drop_last().push(ret);
                        Some((i1 + i0 + seq![InsnV::Greater], regs2, count))
                    },
                }
            }
        },
        OperatorV::Add => spec_bin_finish(stmt, regs, count, seq![InsnV::Add]),
        OperatorV::Sub => spec_bin_finish(stmt, regs, count, seq![InsnV::Sub]),
        OperatorV::Multiply => spec_bin_finish(stmt, regs, count, seq![InsnV::Mul]),
        OperatorV::Division => spec_bin_finish(stmt, regs, count, seq![InsnV::Div]),
        OperatorV::Modulo => spec_bin_finish(stmt, regs, count, seq![InsnV::Mod]),
        OperatorV::Greater => spec_bin_finish(stmt, regs, count, seq![InsnV::Greater]),
        OperatorV::Equal => spec_bin_finish(stmt, regs, count, seq![InsnV::Sub, InsnV::Not]),
        _ => None,
    }
}

/// Emits both operands of a binary statement, then the given opcode.
pub open spec fn spec_bin_finish(
    stmt: StatementV,
    regs: Seq<nat>,
    count: nat,
    opcode: Seq<InsnV>,
) -> Option<(Seq<InsnV>, Seq<nat>, nat)> {
    match stmt.ret {
        None => None,
        Some(ret) => match spec_bin_t(stmt.args, ret, regs) {
            None => None,
            Some((insns, regs2)) => Some((insns + opcode, regs2, count)),
        },
    }
}

/// The instructions that evaluate call arguments from position `i` on;
/// each argument takes one stack slot.
pub open spec fn spec_call_args_t(args: Seq<ValueV>, i: int, regs: Seq<nat>) -> (Seq<InsnV>, Seq<
    nat,
>)
    decreases args.len() - i,
{
    if !(0 <= i < args.len()) {
        (seq![], regs)
    } else {
        let (ci, cr) = spec_substitute_t(args[i], 0, regs);
        let (ri, rr) = spec_call_args_t(args, i + 1, cr);
        (ci + ri, rr)
    }
}

/// The instructions for the statements of a block from position `k` on.
pub open spec fn spec_stmts_t(
    stmts: Seq<StatementV>,
    k: int,
    func: FunctionV,
    prog: ProgramV,
    block: BasicBlockV,
    regs: Seq<nat>,
    count: nat,
    start: nat,
) -> Option<(Seq<InsnV>, Seq<nat>, nat)>
    decreases stmts.len() - k,
{
    if k < 0 {
        None
    } else if k >= stmts.len() {
        Some((seq![], regs, count))
    } else {
        match spec_stmt_t(stmts[k], func, prog, block, regs, count, start) {
            None => None,
            Some((i1, regs1, count1)) => match spec_stmts_t(
                stmts,
                k + 1,
                func,
                prog,
                block,
                regs1,
                count1,
                start,
            ) {
                None => None,
                Some((i2, regs2, count2)) => Some((i1 + i2, regs2, count2)),
            },
        }
    }
}

/// The instructions for the blocks from index `bi` on: each starts with its
/// label and a stack model holding exactly the parameters.
pub open spec fn spec_blocks_t(
    blocks: Seq<BasicBlockV>,
    bi: int,
    func: FunctionV,
    prog: ProgramV,
    regs0: Seq<nat>,
    count: nat,
    start: nat,
) -> Option<(Seq<InsnV>, nat)>
    decreases blocks.len() - bi,
{
    if bi < 0 {
        None
    } else if bi >= blocks.len() {
        Some((seq![], count))
    } else {
        let lbl = seq![InsnV::Label(LblV::Block(func.name, bi as nat))];
        match spec_stmts_t(blocks[bi].statements, 0, func, prog, blocks[bi], regs0, count, start) {
            None => None,
            Some((i1, _regs1, count1)) => match spec_blocks_t(
                blocks,
                bi + 1,
                func,
                prog,
                regs0,
                count1,
                start,
            ) {
                None => None,
                Some((i2, count2)) => Some((lbl + i1 + i2, count2)),
            },
        }
    }
}

/// The canned body of a builtin, or `None` for a user function.
pub open spec fn spec_builtin_t(name: Seq<char>) -> Option<Seq<InsnV>> {
    if name == "getnum"@ {
        Some(seq![InsnV::Inn, InsnV::Swap, InsnV::Jmp(LblV::Ret)])
    } else if name == "getchar"@ {
        Some(seq![InsnV::Inc, InsnV::Swap, InsnV::Jmp(LblV::Ret)])
    } else if name == "putnum"@ {
        Some(seq![InsnV::Outn, InsnV::Jmp(LblV::Ret)])
    } else if name == "putchar"@ {
        Some(seq![InsnV::Outc, InsnV::Jmp(LblV::Ret)])
    } else if name == "halt"@ {
        Some(seq![InsnV::Halt])
    } else {
        None
    }
}

/// The instructions for one function: its entry label, then a canned
/// builtin body or the blocks; `main` ends in a `HALT`. Returns the number
/// of call sites emitted.
pub open spec fn spec_function_t(func: FunctionV, start: nat, prog: ProgramV) -> Option<(Seq<
    InsnV,
>, nat)> {
    let lbl = seq![InsnV::Label(LblV::Func(func.name))];
    match spec_builtin_t(func.name) {
        Some(body) => Some((lbl + body, 0)),
        None => {
            let regs0 = Seq::new(func.args.len(), |i: int| i as nat);
            match spec_blocks_t(func.basicblocks, 0, func, prog, regs0, 0, start) {
                None => None,
                Some((body, count)) => if func.name == "main"@ {
                    Some((lbl + body + seq![InsnV::Halt], count))
                } else {
                    Some((lbl + body, count))
                },
            }
        },
    }
}

/// The instructions for the functions from index `fi` on, threading the
/// call-site counter.
pub open spec fn spec_funcs_t(funcs: Seq<FunctionV>, fi: int, prog: ProgramV, start: nat) -> Option<
    (Seq<InsnV>, nat),
>
    decreases funcs.len() - fi,
{
    if fi < 0 {
        None
    } else if fi >= funcs.len() {
        Some((seq![], start))
    } else {
        match spec_function_t(funcs[fi], start, prog) {
            None => None,
            Some((i1, count)) => if start + count > usize::MAX {
                None
            } else {
                match spec_funcs_t(funcs, fi + 1, prog, (start + count) as nat) {
                    None => None,
                    Some((i2, total)) => Some((i1 + i2, total)),
                }
            },
        }
    }
}

/// The dispatch trampoline body for tokens below `n`: each step tests the
/// token against zero, resuming at the matching call site, and otherwise
/// decrements it.
pub open spec fn spec_dispatcher(n: int) -> Seq<InsnV>
    decreases n,
{
    if n <= 0 {
        seq![]
    } else {
        spec_dispatcher(n - 1) + seq![
            InsnV::Dup,
            InsnV::Jez(LblV::Control((n - 1) as nat)),
            InsnV::Push(1),
            InsnV::Sub,
        ]
    }
}

/// The whole program's instructions: a jump to `main`, every function in
/// table order, and the dispatch trampoline.
pub open spec fn spec_trans(prog: ProgramV) -> Option<Seq<InsnV>> {
    match spec_funcs_t(prog.funcs, 0, prog, 0) {
        None => None,
        Some((body, total)) => Some(
            seq![InsnV::Jmp(LblV::Func("main"@))] + body + seq![InsnV::Label(LblV::Ret)]
                + spec_dispatcher(total as int),
        ),
    }
}

/// Copies register `reg` to the top of the stack without disturbing the
/// slots below it.
pub fn pullup(regs: &Vec<usize>, reg: usize, out: &mut Vec<Insn>)
    ensures
        insns_dv(final(out)@) == insns_dv(old(out)@) + spec_pullup(regs_dv(regs@), reg as nat),
{
    let ghost rdv = regs_dv(regs@);
    let ghost o0 = insns_dv(out@);
    let n = regs.len();
    let mut i: usize = 0;
    let mut index: usize = 0;
    loop
        invariant_except_break
            index == 0,
        invariant
            i <= n,
            n == regs@.len(),
            rdv == regs_dv(regs@),
            reg_index_from(rdv, reg as nat, 0) == reg_index_from(rdv, reg as nat, i as int),
        ensures
            index == reg_index_from(rdv, reg as nat, 0),
            index <= n,
        decreases n - i,
    {
        if i >= n {
            break ;
        }
        if regs[i] == reg {
            proof {
                assert(reg_index_from(rdv, reg as nat, i as int) == i);
            }
            index = i;
            break ;
        }
        i += 1;
    }
    let d = n - index;
    out.push(Insn::Push(d as i128));
    out.push(Insn::Push(-1));
    out.push(Insn::Roll);
    out.push(Insn::Dup);
    out.push(Insn::Push(d as i128 + 1));
    out.push(Insn::Push(1));
    out.push(Insn::Roll);
    proof {
        assert(insns_dv(out@) =~= o0 + spec_pullup(rdv, reg as nat));
    }
}

/// Puts one value on top of the stack; the model gains `ret` on top.
pub fn substitute(val: &Value, ret: usize, regs: &mut Vec<usize>, out: &mut Vec<Insn>)
    ensures
        ({
            let (si, sr) = spec_substitute_t(val.deep_view(), ret as nat, regs_dv(old(regs)@));
            insns_dv(final(out)@) == insns_dv(old(out)@) + si && regs_dv(final(regs)@) == sr
        }),
{
    let ghost o0 = insns_dv(out@);
    let ghost r0 = regs_dv(regs@);
    match val {
        Value::Register(reg) => {
            pullup(regs, *reg, out);
        },
        Value::Immediate(imm) => {
            out.push(Insn::Push(*imm as i128));
            proof {
                assert(insns_dv(out@) =~= o0 + seq![InsnV::Push(*imm as int)]);
            }
        },
        Value::Label(_) => {
            proof {
                assert(insns_dv(out@) =~= o0 + Seq::<InsnV>::empty());
            }
        },
    }
    regs.push(ret);
    proof {
        assert(regs_dv(regs@) =~= r0.push(ret as nat));
    }
}

/// Pops one register slot off the model.
fn model_pop(regs: &mut Vec<usize>)
    requires
        old(regs)@.len() >= 1,
    ensures
        regs_dv(final(regs)@) == regs_dv(old(regs)@).drop_last(),
{
    let ghost r0 = regs_dv(regs@);
    let popped = regs.pop();
    proof {
        assert(regs_dv(regs@) =~= r0.drop_last());
    }
}

/// Emits `k` swap-and-pop pairs.
fn emit_swap_pops(k: usize, out: &mut Vec<Insn>)
    ensures
        insns_dv(final(out)@) == insns_dv(old(out)@) + swap_pops(k as int),
{
    let ghost o0 = insns_dv(out@);
    let mut j: usize = 0;
    proof {
        assert(o0 + swap_pops(0) =~= o0);
    }
    loop
        invariant
            j <= k,
            insns_dv(out@) == o0 + swap_pops(j as int),
        ensures
            insns_dv(out@) == o0 + swap_pops(k as int),
        decreases k - j,
    {
        if j >= k {
            break ;
        }
        let ghost oc = insns_dv(out@);
        out.push(Insn::Swap);
        out.push(Insn::Pop);
        proof {
            assert(insns_dv(out@) =~= oc + seq![InsnV::Swap, InsnV::Pop]);
            assert((o0 + swap_pops(j as int)) + seq![InsnV::Swap, InsnV::Pop] =~= o0 + (swap_pops(
                j as int,
            ) + seq![InsnV::Swap, InsnV::Pop]));
        }
        j += 1;
    }
}

/// Emits `k` pops.
fn emit_pops(k: usize, out: &mut Vec<Insn>)
    ensures
        insns_dv(final(out)@) == insns_dv(old(out)@) + pops(k as int),
{
    let ghost o0 = insns_dv(out@);
    let mut j: usize = 0;
    proof {
        assert(o0 + pops(0) =~= o0);
    }
    loop
        invariant
            j <= k,
            insns_dv(out@) == o0 + pops(j as int),
        ensures
            insns_dv(out@) == o0 + pops(k as int),
        decreases k - j,
    {
        if j >= k {
            break ;
        }
        let ghost oc = insns_dv(out@);
        out.push(Insn::Pop);
        proof {
            assert(insns_dv(out@) =~= oc.push(InsnV::Pop));
            assert((o0 + pops(j as int)).push(InsnV::Pop) =~= o0 + pops(j as int).push(
                InsnV::Pop,
            ));
        }
        j += 1;
    }
}

/// Puts both operands of a binary statement on top of the stack; the model
/// loses the operand slots and gains `ret`.
pub fn bin_op(args: &Vec<Value>, ret: usize, regs: &mut Vec<usize>, out: &mut Vec<Insn>) -> (r:
    bool)
    ensures
        match spec_bin_t(
            crate::generate::vals_dv(args@),
            ret as nat,
            regs_dv(old(regs)@),
        ) {
            Some((si, sr)) => r && insns_dv(final(out)@) == insns_dv(old(out)@) + si && regs_dv(
                final(regs)@,
            ) == sr,
            None => !r,
        },
{
    let ghost adv = crate::generate::vals_dv(args@);
    let ghost o0 = insns_dv(out@);
    if args.len() < 2 {
        return false;
    }
    substitute(&args[0], 0, regs, out);
    let ghost o1 = insns_dv(out@);
    substitute(&args[1], 0, regs, out);
    model_pop(regs);
    model_pop(regs);
    regs.push(ret);
    proof {
        let (si0, sr0) = spec_substitute_t(adv[0], 0, regs_dv(old(regs)@));
        let (si1, sr1) = spec_substitute_t(adv[1], 0, sr0);
        assert((o0 + si0) + si1 =~= o0 + (si0 + si1));
        assert(regs_dv(regs@) =~= sr1.drop_last().drop_last().push(ret as nat));
    }
    true
}

/// Emits a call statement: the return token, the arguments, the jump to
/// the callee, and the resume label; the model drops the token and argument
/// slots and gains one result slot per declared return value.
#[verifier::rlimit(100)]
fn call_t(
    stmt: &crate::generate::Statement,
    func: &Function,
    program: &Program,
    block: &crate::generate::BasicBlock,
    regs: &mut Vec<usize>,
    count: usize,
    start: usize,
    out: &mut Vec<Insn>,
) -> (r: Option<usize>)
    requires
        stmt.deep_view().op is Call,
    ensures
        match r {
            Some(count2) => ({
                let res = spec_stmt_t(
                    stmt.deep_view(),
                    func.deep_view(),
                    program.deep_view(),
                    block.deep_view(),
                    regs_dv(old(regs)@),
                    count as nat,
                    start as nat,
                );
                res == Some(
                    (
                        insns_dv(final(out)@).skip(insns_dv(old(out)@).len() as int),
                        regs_dv(final(regs)@),
                        count2 as nat,
                    ),
                ) && insns_dv(final(out)@).take(insns_dv(old(out)@).len() as int) == insns_dv(
                    old(out)@,
                ) && insns_dv(final(out)@).len() >= insns_dv(old(out)@).len()
            }),
            None => spec_stmt_t(
                stmt.deep_view(),
                func.deep_view(),
                program.deep_view(),
                block.deep_view(),
                regs_dv(old(regs)@),
                count as nat,
                start as nat,
            ) is None,
        },
{
    let ghost sv = stmt.deep_view();
    let ghost fv = func.deep_view();
    let ghost pv = program.deep_view();
    let ghost bv = block.deep_view();
    let ghost r0 = regs_dv(regs@);
    let ghost o0 = insns_dv(out@);
    match &stmt.op {
        crate::parse::Operator::Call { name } => {
            let token = match start.checked_add(count) {
                Some(x) => match x.checked_add(1) {
                    Some(_) => x,
                    None => return None,
                },
                None => return None,
            };
            let ret = match &stmt.ret {
                Some(rr) => *rr,
                None => return None,
            };
            let callee_retnum = match crate::generate::funcs_lookup(program, name.as_str()) {
                Some(callee) => callee.retnum,
                None => return None,
            };
            out.push(Insn::Push(token as i128));
            let ghost o1 = insns_dv(out@);
            proof {
                assert(o1 =~= o0 + seq![InsnV::Push(token as int)]);
            }
            regs.push(0);
            proof {
                assert(regs_dv(regs@) =~= r0.push(0));
            }
            // evaluate each argument; each takes one slot
            let na = stmt.args.len();
            let mut ai: usize = 0;
            proof {
                assert(crate::generate::vals_dv(stmt.args@) == sv.args);
            }
            loop
                invariant
                    ai <= na,
                    na == stmt.args@.len(),
                    sv == stmt.deep_view(),
                    sv.args == crate::generate::vals_dv(stmt.args@),
                    sv.args.len() == na,
                    o1 == o0 + seq![InsnV::Push(token as int)],
                    insns_dv(out@).len() >= o1.len(),
                    ({
                        let (fi, fr) = spec_call_args_t(sv.args, 0, r0.push(0));
                        let (gi, gr) = spec_call_args_t(sv.args, ai as int, regs_dv(regs@));
                        &&& fi == insns_dv(out@).skip(o1.len() as int) + gi
                        &&& fr == gr
                        &&& insns_dv(out@).take(o1.len() as int) == o1
                    }),
                ensures
                    insns_dv(out@).len() >= o1.len(),
                    ({
                        let (fi, fr) = spec_call_args_t(sv.args, 0, r0.push(0));
                        &&& fi == insns_dv(out@).skip(o1.len() as int)
                        &&& fr == regs_dv(regs@)
                        &&& insns_dv(out@).take(o1.len() as int) == o1
                    }),
                decreases na - ai,
            {
                if ai >= na {
                    proof {
                        let (gi, gr) = spec_call_args_t(sv.args, ai as int, regs_dv(regs@));
                        assert(gi =~= Seq::<InsnV>::empty());
                        assert(insns_dv(out@).skip(o1.len() as int) + Seq::<InsnV>::empty()
                            =~= insns_dv(out@).skip(o1.len() as int));
                    }
                    break ;
                }
                let ghost ocur = insns_dv(out@);
                let ghost rcur = regs_dv(regs@);
                let arg = &stmt.args[ai];
                proof {
                    assert(arg.deep_view() == sv.args[ai as int]);
                }
                substitute(arg, 0, regs, out);
                proof {
                    let (ci, cr) = spec_substitute_t(sv.args[ai as int], 0, rcur);
                    let (ri, rr) = spec_call_args_t(sv.args, ai + 1, cr);
                    assert(insns_dv(out@) == ocur + ci);
                    assert(ocur.len() >= o1.len());
                    assert((ocur + ci).skip(o1.len() as int) =~= (ocur.skip(o1.len() as int))
                        + ci);
                    assert((ocur + ci).take(o1.len() as int) =~= ocur.take(o1.len() as int));
                    let (fi, fr) = spec_call_args_t(sv.args, 0, r0.push(0));
                    assert((ocur.skip(o1.len() as int) + (ci + ri)) =~= ((ocur.skip(
                        o1.len() as int,
                    ) + ci) + ri));
                }
                ai += 1;
            }
            let ghost o2 = insns_dv(out@);
            out.push(Insn::Jmp(Lbl::Func(name.clone())));
            out.push(Insn::Label(Lbl::Control(token)));
            out.push(Insn::Pop);
            proof {
                assert(insns_dv(out@) =~= o2 + seq![
                    InsnV::Jmp(LblV::Func(name@)),
                    InsnV::Label(LblV::Control(token as nat)),
                    InsnV::Pop,
                ]);
            }
            // drop the token and argument slots, then one result slot per
            // declared return value
            proof {
                let (fi, fr) = spec_call_args_t(sv.args, 0, r0.push(0));
                lemma_call_args_regs(sv.args, 0, r0.push(0));
                assert(fr.len() == r0.len() + 1 + na);
            }
            let rl = regs.len();
    // the model holds the token slot and one slot per argument
            proof {
                assert(rl == r0.len() + 1 + na);
            }
            let mut pi: usize = 0;
            let drops = na + 1;
            loop
                invariant
                    pi <= drops,
                    drops == na + 1,
                    na == sv.args.len(),
                    spec_call_args_t(sv.args, 0, r0.push(0)).1.len() == r0.len() + 1 + na,
                    regs_dv(regs@) == spec_call_args_t(sv.args, 0, r0.push(0)).1.take(
                        spec_call_args_t(sv.args, 0, r0.push(0)).1.len() - pi,
                    ),
                    regs@.len() == r0.len() + 1 + na - pi,
                ensures
                    regs_dv(regs@) == spec_call_args_t(sv.args, 0, r0.push(0)).1.take(
                        spec_call_args_t(sv.args, 0, r0.push(0)).1.len() - (na + 1),
                    ),
                decreases drops - pi,
            {
                if pi >= drops {
                    break ;
                }
                let ghost rcur = regs_dv(regs@);
                model_pop(regs);
                proof {
                    let fr = spec_call_args_t(sv.args, 0, r0.push(0)).1;
                    assert(rcur.drop_last() =~= fr.take(fr.len() - (pi + 1)));
                }
                pi += 1;
            }
            let mut qi: usize = 0;
            let ghost popped = spec_call_args_t(sv.args, 0, r0.push(0)).1.take(
                spec_call_args_t(sv.args, 0, r0.push(0)).1.len() - (na + 1),
            );
            proof {
                assert(popped + Seq::new(0, |q: int| ret as nat) =~= popped);
            }
            loop
                invariant
                    qi <= callee_retnum,
                    regs_dv(regs@) == popped + Seq::new(qi as nat, |q: int| ret as nat),
                ensures
                    regs_dv(regs@) == popped + Seq::new(callee_retnum as nat, |q: int| ret as nat),
                decreases callee_retnum - qi,
            {
                if qi >= callee_retnum {
                    break ;
                }
                let ghost rcur = regs_dv(regs@);
                regs.push(ret);
                proof {
                    assert(regs_dv(regs@) =~= rcur.push(ret as nat));
                    assert(rcur.push(ret as nat) =~= popped + Seq::new(
                        (qi + 1) as nat,
                        |q: int| ret as nat,
                    ));
                }
                qi += 1;
            }
            proof {
                let (ai2, ar2) = spec_call_args_t(sv.args, 0, r0.push(0));
                assert(o2 =~= o1 + ai2);
                assert(insns_dv(out@) =~= (o1 + ai2) + seq![
                    InsnV::Jmp(LblV::Func(name@)),
                    InsnV::Label(LblV::Control(token as nat)),
                    InsnV::Pop,
                ]);
                assert(insns_dv(out@).skip(o0.len() as int) =~= seq![
                    InsnV::Push(token as int),
                ] + ai2 + seq![
                    InsnV::Jmp(LblV::Func(name@)),
                    InsnV::Label(LblV::Control(token as nat)),
                    InsnV::Pop,
                ]);
                assert(insns_dv(out@).take(o0.len() as int) =~= o0);
                assert(insns_dv(out@).len() >= o0.len());
            }
            Some(count + 1)
        },
        _ => {
            proof {
                assert(false);
            }
            None
        },
    }
}

/// Emits one statement; returns the updated call-site counter.
#[verifier::rlimit(100)]
fn stmt_t(
    stmt: &crate::generate::Statement,
    func: &Function,
    program: &Program,
    block: &crate::generate::BasicBlock,
    regs: &mut Vec<usize>,
    count: usize,
    start: usize,
    out: &mut Vec<Insn>,
) -> (r: Option<usize>)
    ensures
        match r {
            Some(count2) => ({
                let res = spec_stmt_t(
                    stmt.deep_view(),
                    func.deep_view(),
                    program.deep_view(),
                    block.deep_view(),
                    regs_dv(old(regs)@),
                    count as nat,
                    start as nat,
                );
                res == Some(
                    (
                        insns_dv(final(out)@).skip(insns_dv(old(out)@).len() as int),
                        regs_dv(final(regs)@),
                        count2 as nat,
                    ),
                ) && insns_dv(final(out)@).take(insns_dv(old(out)@).len() as int) == insns_dv(
                    old(out)@,
                ) && insns_dv(final(out)@).len() >= insns_dv(old(out)@).len()
            }),
            None => spec_stmt_t(
                stmt.deep_view(),
                func.deep_view(),
                program.deep_view(),
                block.deep_view(),
                regs_dv(old(regs)@),
                count as nat,
                start as nat,
            ) is None,
        },
{
    let ghost sv = stmt.deep_view();
    let ghost fv = func.deep_view();
    let ghost pv = program.deep_view();
    let ghost bv = block.deep_view();
    let ghost r0 = regs_dv(regs@);
    let ghost o0 = insns_dv(out@);
    match &stmt.op {
        crate::parse::Operator::Call { name } => call_t(
            stmt,
            func,
            program,
            block,
            regs,
            count,
            start,
            out,
        ),
        crate::parse::Operator::If => {
            if stmt.args.len() < 1 || block.nexts.len() < 2 {
                return None;
            }
            proof {
                assert(stmt.args@[0].deep_view() == sv.args[0]);
            }
            substitute(&stmt.args[0], 0, regs, out);
            let nargs = func.args.len();
            let k = if regs.len() >= 1 && regs.len() - 1 > nargs {
                regs.len() - 1 - nargs
            } else {
                0
            };
            proof {
                let (ci, cr) = spec_substitute_t(sv.args[0], 0, r0);
                assert(cr.len() == r0.len() + 1);
                assert(k == if cr.len() - 1 - fv.args.len() > 0 {
                    cr.len() - 1 - fv.args.len()
                } else {
                    0
                });
            }
            let ghost oa = insns_dv(out@);
            emit_swap_pops(k, out);
            let ghost ob = insns_dv(out@);
            out.push(Insn::Jez(Lbl::Block(func.name.clone(), block.nexts[1])));
            model_pop(regs);
            proof {
                let (ci, cr) = spec_substitute_t(sv.args[0], 0, r0);
                let kk = cr.len() - 1 - fv.args.len();
                assert(oa == o0 + ci);
                assert(ob == oa + swap_pops(k as int));
                assert(swap_pops(k as int) == swap_pops(kk)) by {
                    if kk <= 0 {
                        assert(swap_pops(k as int) =~= swap_pops(kk));
                    }
                }
                assert(bv.nexts[1] == block.nexts@[1] as nat);
                assert(insns_dv(out@) =~= ob + seq![InsnV::Jez(LblV::Block(fv.name, bv.nexts[1]))]);
                assert(insns_dv(out@).skip(o0.len() as int) =~= ci + swap_pops(kk) + seq![
                    InsnV::Jez(LblV::Block(fv.name, bv.nexts[1])),
                ]);
                assert(insns_dv(out@).take(o0.len() as int) =~= o0);
                assert(insns_dv(out@).len() >= o0.len());
            }
            Some(count)
        },
        crate::parse::Operator::Jump => {
            if block.nexts.len() < 1 {
                return None;
            }
            out.push(Insn::Jmp(Lbl::Block(func.name.clone(), block.nexts[0])));
            proof {
                assert(insns_dv(out@).skip(o0.len() as int) =~= seq![
                    InsnV::Jmp(LblV::Block(fv.name, bv.nexts[0])),
                ]);
                assert(insns_dv(out@).take(o0.len() as int) =~= o0);
                assert(insns_dv(out@).len() >= o0.len());
            }
            Some(count)
        },
        crate::parse::Operator::Return => {
            if stmt.args.len() >= 1 {
                proof {
                    assert(stmt.args@[0].deep_view() == sv.args[0]);
                }
                substitute(&stmt.args[0], 0, regs, out);
                let ghost oa = insns_dv(out@);
                let k = regs.len() - 1;
                emit_swap_pops(k, out);
                let ghost ob = insns_dv(out@);
                out.push(Insn::Swap);
                out.push(Insn::Jmp(Lbl::Ret));
                proof {
                    let (ci, cr) = spec_substitute_t(sv.args[0], 0, r0);
                    assert(oa == o0 + ci);
                    assert(k == cr.len() - 1);
                    assert(ob == oa + swap_pops(cr.len() - 1));
                    assert(insns_dv(out@) =~= ob + seq![InsnV::Swap, InsnV::Jmp(LblV::Ret)]);
                    assert(insns_dv(out@).skip(o0.len() as int) =~= ci + swap_pops(cr.len() - 1)
                        + seq![InsnV::Swap, InsnV::Jmp(LblV::Ret)]);
                    assert(insns_dv(out@).take(o0.len() as int) =~= o0);
                    assert(insns_dv(out@).len() >= o0.len());
                assert(insns_dv(out@).len() >= o0.len());
                }
                Some(count)
            } else {
                let k = regs.len();
                emit_pops(k, out);
                let ghost ob = insns_dv(out@);
                out.push(Insn::Jmp(Lbl::Ret));
                proof {
                    assert(ob == o0 + pops(r0.len() as int));
                    assert(insns_dv(out@) =~= ob.push(InsnV::Jmp(LblV::Ret)));
                    assert(insns_dv(out@).skip(o0.len() as int) =~= pops(r0.len() as int) + seq![
                        InsnV::Jmp(LblV::Ret),
                    ]);
                    assert(insns_dv(out@).take(o0.len() as int) =~= o0);
                    assert(insns_dv(out@).len() >= o0.len());
                assert(insns_dv(out@).len() >= o0.len());
                }
                Some(count)
            }
        },
        crate::parse::Operator::Substitute => {
            if stmt.args.len() < 1 {
                return None;
            }
            let ret = match &stmt.ret {
                Some(rr) => *rr,
                None => return None,
            };
            proof {
                assert(stmt.args@[0].deep_view() == sv.args[0]);
            }
            substitute(&stmt.args[0], ret, regs, out);
            proof {
                assert(insns_dv(out@).take(o0.len() as int) =~= o0);
                assert(insns_dv(out@).len() >= o0.len());
                assert(insns_dv(out@).skip(o0.len() as int) =~= spec_substitute_t(
                    sv.args[0],
                    ret as nat,
                    r0,
                ).0);
            }
            Some(count)
        },
        crate::parse::Operator::LessThan => {
            if stmt.args.len() < 2 {
                return None;
            }
            let ret = match &stmt.ret {
                Some(rr) => *rr,
                None => return None,
            };
            proof {
                assert(stmt.args@[0].deep_view() == sv.args[0]);
                assert(stmt.args@[1].deep_view() == sv.args[1]);
            }
            substitute(&stmt.args[1], 0, regs, out);
            let ghost oa = insns_dv(out@);
            substitute(&stmt.args[0], 0, regs, out);
            let ghost ob = insns_dv(out@);
            model_pop(regs);
            model_pop(regs);
            regs.push(ret);
            out.push(Insn::Greater);
            proof {
                let (i1, r1) = spec_substitute_t(sv.args[1], 0, r0);
                let (i0, rr2) = spec_substitute_t(sv.args[0], 0, r1);
                assert(oa == o0 + i1);
                assert(ob == oa + i0);
                assert(insns_dv(out@) =~= ob.push(InsnV::Greater));
                assert(insns_dv(out@).skip(o0.len() as int) =~= i1 + i0 + seq![InsnV::Greater]);
                assert(regs_dv(regs@) =~= rr2.drop_last().drop_last().push(ret as nat));
                assert(insns_dv(out@).take(o0.len() as int) =~= o0);
                assert(insns_dv(out@).len() >= o0.len());
            }
            Some(count)
        },
        crate::parse::Operator::Add => bin_stmt(stmt, regs, count, out, Insn::Add, None),
        crate::parse::Operator::Sub => bin_stmt(stmt, regs, count, out, Insn::Sub, None),
        crate::parse::Operator::Multiply => bin_stmt(stmt, regs, count, out, Insn::Mul, None),
        crate::parse::Operator::Division => bin_stmt(stmt, regs, count, out, Insn::Div, None),
        crate::parse::Operator::Modulo => bin_stmt(stmt, regs, count, out, Insn::Mod, None),
        crate::parse::Operator::Greater => bin_stmt(stmt, regs, count, out, Insn::Greater, None),
        crate::parse::Operator::Equal => bin_stmt(
            stmt,
            regs,
            count,
            out,
            Insn::Sub,
            Some(Insn::Not),
        ),
        _ => None,
    }
}

/// Emits a binary statement: both operands, then one or two opcodes.
fn bin_stmt(
    stmt: &crate::generate::Statement,
    regs: &mut Vec<usize>,
    count: usize,
    out: &mut Vec<Insn>,
    op1: Insn,
    op2: Option<Insn>,
) -> (r: Option<usize>)
    ensures
        ({
            let opcode = match op2 {
                Some(o2) => seq![op1.deep_view(), o2.deep_view()],
                None => seq![op1.deep_view()],
            };
            match r {
                Some(count2) => count2 == count && ({
                    let res = spec_bin_finish(
                        stmt.deep_view(),
                        regs_dv(old(regs)@),
                        count as nat,
                        opcode,
                    );
                    res == Some(
                        (
                            insns_dv(final(out)@).skip(insns_dv(old(out)@).len() as int),
                            regs_dv(final(regs)@),
                            count as nat,
                        ),
                    ) && insns_dv(final(out)@).take(insns_dv(old(out)@).len() as int) == insns_dv(
                        old(out)@,
                    ) && insns_dv(final(out)@).len() >= insns_dv(old(out)@).len()
                }),
                None => spec_bin_finish(
                    stmt.deep_view(),
                    regs_dv(old(regs)@),
                    count as nat,
                    opcode,
                ) is None,
            }
        }),
{
    let ghost o0 = insns_dv(out@);
    let ghost r0 = regs_dv(regs@);
    let ghost sv = stmt.deep_view();
    let ret = match &stmt.ret {
        Some(rr) => *rr,
        None => return None,
    };
    proof {
        assert(crate::generate::vals_dv(stmt.args@) == sv.args);
    }
    if !bin_op(&stmt.args, ret, regs, out) {
        return None;
    }
    let ghost o1 = insns_dv(out@);
    match op2 {
        Some(o2) => {
            out.push(op1);
            out.push(o2);
            proof {
                assert(insns_dv(out@) =~= o1 + seq![op1.deep_view(), o2.deep_view()]);
            }
        },
        None => {
            out.push(op1);
            proof {
                assert(insns_dv(out@) =~= o1 + seq![op1.deep_view()]);
            }
        },
    }
    proof {
        let (si, sr) = spec_bin_t(sv.args, ret as nat, r0)->Some_0;
        assert(insns_dv(out@).skip(o0.len() as int) =~= si + (match op2 {
            Some(o2) => seq![op1.deep_view(), o2.deep_view()],
            None => seq![op1.deep_view()],
        }));
        assert(insns_dv(out@).take(o0.len() as int) =~= o0);
    }
    Some(count)
}

/// A sequence splits into the prefix it is known to begin with and the
/// rest.
proof fn lemma_take_skip(a: Seq<InsnV>, b: Seq<InsnV>, k: int)
    requires
        0 <= k <= a.len(),
        a.take(k) == b,
    ensures
        a == b + a.skip(k),
{
    assert forall|j: int| 0 <= j < a.len() implies (b + a.skip(k))[j] == a[j] by {
        if j < k {
            assert(a.take(k)[j] == a[j]);
        } else {
            assert(a.skip(k)[j - k] == a[j]);
        }
    }
    assert(a =~= b + a.skip(k));
}

/// Emits one function: its entry label, then a canned builtin body or the
/// blocks; returns the number of call sites emitted.
#[verifier::rlimit(100)]
pub fn function(func: &Function, start: usize, program: &Program, out: &mut Vec<Insn>) -> (r:
    Option<usize>)
    ensures
        match r {
            Some(count) => spec_function_t(
                func.deep_view(),
                start as nat,
                program.deep_view(),
            ) == Some(
                (insns_dv(final(out)@).skip(insns_dv(old(out)@).len() as int), count as nat),
            ) && insns_dv(final(out)@).take(insns_dv(old(out)@).len() as int) == insns_dv(
                old(out)@,
            ) && insns_dv(final(out)@).len() >= insns_dv(old(out)@).len(),
            None => spec_function_t(func.deep_view(), start as nat, program.deep_view()) is None,
        },
{
    let ghost fv = func.deep_view();
    let ghost pv = program.deep_view();
    let ghost o0 = insns_dv(out@);
    out.push(Insn::Label(Lbl::Func(func.name.clone())));
    let ghost o1 = insns_dv(out@);
    proof {
        assert(o1 =~= o0 + seq![InsnV::Label(LblV::Func(fv.name))]);
    }
    if crate::strutil::str_eq(func.name.as_str(), "getnum") {
        out.push(Insn::Inn);
        out.push(Insn::Swap);
        out.push(Insn::Jmp(Lbl::Ret));
        proof {
            assert(insns_dv(out@).skip(o0.len() as int) =~= seq![
                InsnV::Label(LblV::Func(fv.name)),
                InsnV::Inn,
                InsnV::Swap,
                InsnV::Jmp(LblV::Ret),
            ]);
            assert(insns_dv(out@).take(o0.len() as int) =~= o0);
            assert(insns_dv(out@).len() >= o0.len());
        }
        return Some(0);
    }
    if crate::strutil::str_eq(func.name.as_str(), "getchar") {
        out.push(Insn::Inc);
        out.push(Insn::Swap);
        out.push(Insn::Jmp(Lbl::Ret));
        proof {
            assert(insns_dv(out@).skip(o0.len() as int) =~= seq![
                InsnV::Label(LblV::Func(fv.name)),
                InsnV::Inc,
                InsnV::Swap,
                InsnV::Jmp(LblV::Ret),
            ]);
            assert(insns_dv(out@).take(o0.len() as int) =~= o0);
            assert(insns_dv(out@).len() >= o0.len());
        }
        return Some(0);
    }
    if crate::strutil::str_eq(func.name.as_str(), "putnum") {
        out.push(Insn::Outn);
        out.push(Insn::Jmp(Lbl::Ret));
        proof {
            assert(insns_dv(out@).skip(o0.len() as int) =~= seq![
                InsnV::Label(LblV::Func(fv.name)),
                InsnV::Outn,
                InsnV::Jmp(LblV::Ret),
            ]);
            assert(insns_dv(out@).take(o0.len() as int) =~= o0);
            assert(insns_dv(out@).len() >= o0.len());
        }
        return Some(0);
    }
    if crate::strutil::str_eq(func.name.as_str(), "putchar") {
        out.push(Insn::Outc);
        out.push(Insn::Jmp(Lbl::Ret));
        proof {
            assert(insns_dv(out@).skip(o0.len() as int) =~= seq![
                InsnV::Label(LblV::Func(fv.name)),
                InsnV::Outc,
                InsnV::Jmp(LblV::Ret),
            ]);
            assert(insns_dv(out@).take(o0.len() as int) =~= o0);
            assert(insns_dv(out@).len() >= o0.len());
        }
        return Some(0);
    }
    if crate::strutil::str_eq(func.name.as_str(), "halt") {
        out.push(Insn::Halt);
        proof {
            assert(insns_dv(out@).skip(o0.len() as int) =~= seq![
                InsnV::Label(LblV::Func(fv.name)),
                InsnV::Halt,
            ]);
            assert(insns_dv(out@).take(o0.len() as int) =~= o0);
            assert(insns_dv(out@).len() >= o0.len());
        }
        return Some(0);
    }
    // a user function: each block starts from a stack model holding
    // exactly the parameters
    let ghost regs0 = Seq::new(fv.args.len(), |i: int| i as nat);
    let nb = func.basicblocks.len();
    let mut bi: usize = 0;
    let mut count: usize = 0;
    proof {
        assert(fv.basicblocks.len() == nb);
    }
    loop
        invariant
            bi <= nb,
            nb == func.basicblocks@.len(),
            fv == func.deep_view(),
            pv == program.deep_view(),
            fv.basicblocks.len() == nb,
            regs0 == Seq::new(fv.args.len(), |i: int| i as nat),
            o1 == o0 + seq![InsnV::Label(LblV::Func(fv.name))],
            insns_dv(out@).len() >= o1.len(),
            insns_dv(out@).take(o1.len() as int) == o1,
            spec_builtin_t(fv.name) is None,
            ({
                let full = spec_blocks_t(fv.basicblocks, 0, fv, pv, regs0, 0, start as nat);
                let rest = spec_blocks_t(
                    fv.basicblocks,
                    bi as int,
                    fv,
                    pv,
                    regs0,
                    count as nat,
                    start as nat,
                );
                match rest {
                    None => full is None,
                    Some((ri, rc)) => full == Some(
                        (insns_dv(out@).skip(o1.len() as int) + ri, rc),
                    ),
                }
            }),
        ensures
            bi == nb,
            insns_dv(out@).take(o1.len() as int) == o1,
            spec_blocks_t(fv.basicblocks, 0, fv, pv, regs0, 0, start as nat) == Some(
                (insns_dv(out@).skip(o1.len() as int), count as nat),
            ),
        decreases nb - bi,
    {
        if bi >= nb {
            proof {
                assert(insns_dv(out@).skip(o1.len() as int) + Seq::<InsnV>::empty() =~= insns_dv(
                    out@,
                ).skip(o1.len() as int));
            }
            break ;
        }
        let block = &func.basicblocks[bi];
        proof {
            assert(block.deep_view() == fv.basicblocks[bi as int]);
        }
        let ghost ob = insns_dv(out@);
        out.push(Insn::Label(Lbl::Block(func.name.clone(), bi)));
        proof {
            assert(insns_dv(out@) =~= ob.push(InsnV::Label(LblV::Block(fv.name, bi as nat))));
        }
        // fresh stack model holding the parameters
        let mut regs: Vec<usize> = Vec::new();
        let na = func.args.len();
        let mut pi: usize = 0;
        loop
            invariant
                pi <= na,
                regs@.len() == pi,
                forall|q: int| 0 <= q < pi ==> #[trigger] regs@[q] == q,
            ensures
                pi == na,
                regs@.len() == na,
                forall|q: int| 0 <= q < na ==> #[trigger] regs@[q] == q,
            decreases na - pi,
        {
            if pi >= na {
                break ;
            }
            regs.push(pi);
            pi += 1;
        }
        proof {
            assert(regs_dv(regs@) =~= Seq::new(fv.args.len(), |i: int| i as nat));
        }
        // the statements of this block
        let ns = block.statements.len();
        let mut si: usize = 0;
        let ghost bv = block.deep_view();
        let ghost os = insns_dv(out@);
        let ghost count0g = count as nat;
        loop
            invariant
                si <= ns,
                ns == block.statements@.len(),
                fv == func.deep_view(),
                pv == program.deep_view(),
                bv == block.deep_view(),
                bv.statements.len() == ns,
                bi < nb,
                nb == fv.basicblocks.len(),
                bv == fv.basicblocks[bi as int],
                spec_builtin_t(fv.name) is None,
                regs0 == Seq::new(fv.args.len(), |i: int| i as nat),
                start <= usize::MAX,
                ({
                    match spec_blocks_t(
                        fv.basicblocks,
                        bi as int,
                        fv,
                        pv,
                        regs0,
                        count0g,
                        start as nat,
                    ) {
                        None => spec_blocks_t(
                            fv.basicblocks,
                            0,
                            fv,
                            pv,
                            regs0,
                            0,
                            start as nat,
                        ) is None,
                        Some((bri, brc)) => spec_blocks_t(
                            fv.basicblocks,
                            0,
                            fv,
                            pv,
                            regs0,
                            0,
                            start as nat,
                        ) == Some((ob.skip(o1.len() as int) + bri, brc)),
                    }
                }),
                insns_dv(out@).len() >= os.len(),
                insns_dv(out@).take(os.len() as int) == os,
                ({
                    let full = spec_stmts_t(
                        bv.statements,
                        0,
                        fv,
                        pv,
                        bv,
                        Seq::new(fv.args.len(), |i: int| i as nat),
                        count0g,
                        start as nat,
                    );
                    let rest = spec_stmts_t(
                        bv.statements,
                        si as int,
                        fv,
                        pv,
                        bv,
                        regs_dv(regs@),
                        count as nat,
                        start as nat,
                    );
                    match rest {
                        None => full is None,
                        Some((ri, rr, rc)) => full == Some(
                            (insns_dv(out@).skip(os.len() as int) + ri, rr, rc),
                        ),
                    }
                }),
            ensures
                si == ns,
                insns_dv(out@).take(os.len() as int) == os,
                spec_stmts_t(
                    bv.statements,
                    0,
                    fv,
                    pv,
                    bv,
                    Seq::new(fv.args.len(), |i: int| i as nat),
                    count0g,
                    start as nat,
                ) matches Some((ri, rr, rc)) && ri == insns_dv(out@).skip(os.len() as int) && rc
                    == count as nat,
            decreases ns - si,
        {
            if si >= ns {
                proof {
                    assert(insns_dv(out@).skip(os.len() as int) + Seq::<InsnV>::empty()
                        =~= insns_dv(out@).skip(os.len() as int));
                }
                break ;
            }
            let stmt = &block.statements[si];
            proof {
                assert(stmt.deep_view() == bv.statements[si as int]);
            }
            let ghost oc = insns_dv(out@);
            let ghost rc0 = regs_dv(regs@);
            match stmt_t(stmt, func, program, block, &mut regs, count, start, out) {
                Some(c2) => {
                    proof {
                        lemma_take_skip(insns_dv(out@), oc, oc.len() as int);
                        lemma_take_skip(oc, os, os.len() as int);
                        let step = insns_dv(out@).skip(oc.len() as int);
                        let tail = oc.skip(os.len() as int);
                        assert(insns_dv(out@) == (os + tail) + step);
                        assert((os + tail) + step =~= os + (tail + step));
                        assert(insns_dv(out@).take(os.len() as int) =~= os);
                        assert(insns_dv(out@).skip(os.len() as int) =~= tail + step);
                        let (ri2, rr2, rc2) = spec_stmts_t(
                            bv.statements,
                            si + 1,
                            fv,
                            pv,
                            bv,
                            regs_dv(regs@),
                            c2 as nat,
                            start as nat,
                        )->Some_0;
                        assert((tail + (step + ri2)) =~= ((tail + step) + ri2));
                    }
                    count = c2;
                },
                None => {
                    proof {
                        assert(spec_stmt_t(
                            bv.statements[si as int],
                            fv,
                            pv,
                            bv,
                            rc0,
                            count as nat,
                            start as nat,
                        ) is None);
                        assert(spec_stmts_t(
                            bv.statements,
                            si as int,
                            fv,
                            pv,
                            bv,
                            rc0,
                            count as nat,
                            start as nat,
                        ) is None);
                        assert(spec_blocks_t(
                            fv.basicblocks,
                            bi as int,
                            fv,
                            pv,
                            regs0,
                            count0g,
                            start as nat,
                        ) is None);
                    }
                    return None;
                },
            }
            si += 1;
        }
        proof {
            lemma_take_skip(insns_dv(out@), os, os.len() as int);
            let stis = insns_dv(out@).skip(os.len() as int);
            assert(os == ob.push(InsnV::Label(LblV::Block(fv.name, bi as nat))));
            lemma_take_skip(ob, o1, o1.len() as int);
            let obtail = ob.skip(o1.len() as int);
            let lblseq = seq![InsnV::Label(LblV::Block(fv.name, bi as nat))];
            assert(insns_dv(out@) == (o1 + obtail).push(
                InsnV::Label(LblV::Block(fv.name, bi as nat)),
            ) + stis);
            assert((o1 + obtail).push(InsnV::Label(LblV::Block(fv.name, bi as nat))) + stis =~= o1
                + (obtail + (lblseq + stis)));
            assert(insns_dv(out@).take(o1.len() as int) =~= o1);
            assert(insns_dv(out@).skip(o1.len() as int) =~= obtail + (lblseq + stis));
            let (ri, rc) = spec_blocks_t(
                fv.basicblocks,
                bi + 1,
                fv,
                pv,
                regs0,
                count as nat,
                start as nat,
            )->Some_0;
            assert(((obtail + (lblseq + stis)) + ri) =~= (obtail + ((lblseq + stis) + ri)));
        }
        bi += 1;
    }
    if crate::strutil::str_eq(func.name.as_str(), "main") {
        let ghost om = insns_dv(out@);
        out.push(Insn::Halt);
        proof {
            lemma_take_skip(om, o1, o1.len() as int);
            let body = om.skip(o1.len() as int);
            assert(insns_dv(out@) =~= om.push(InsnV::Halt));
            assert(insns_dv(out@) == (o1 + body).push(InsnV::Halt));
            assert((o1 + body).push(InsnV::Halt) =~= o0 + ((seq![
                InsnV::Label(LblV::Func(fv.name)),
            ] + body) + seq![InsnV::Halt]));
            assert(insns_dv(out@).skip(o0.len() as int) =~= (seq![
                InsnV::Label(LblV::Func(fv.name)),
            ] + body) + seq![InsnV::Halt]);
            assert(insns_dv(out@).take(o0.len() as int) =~= o0);
            assert(insns_dv(out@).len() >= o0.len());
        }
        Some(count)
    } else {
        proof {
            lemma_take_skip(insns_dv(out@), o1, o1.len() as int);
            let body = insns_dv(out@).skip(o1.len() as int);
            assert(insns_dv(out@) == o1 + body);
            assert(o1 + body =~= o0 + (seq![InsnV::Label(LblV::Func(fv.name))] + body));
            assert(insns_dv(out@).skip(o0.len() as int) =~= seq![
                InsnV::Label(LblV::Func(fv.name)),
            ] + body);
            assert(insns_dv(out@).take(o0.len() as int) =~= o0);
            assert(insns_dv(out@).len() >= o0.len());
        }
        Some(count)
    }
}

/// Translates a whole program to stack-machine assembly: a jump to `main`,
/// every function in table order, and the dispatch trampoline.
pub fn trans(program: &Program) -> (r: Option<Vec<Insn>>)
    ensures
        match r {
            Some(insns) => spec_trans(program.deep_view()) == Some(insns_dv(insns@)),
            None => spec_trans(program.deep_view()) is None,
        },
{
    let ghost pv = program.deep_view();
    let ghost fdv = pv.funcs;
    let mut out: Vec<Insn> = Vec::new();
    out.push(Insn::Jmp(Lbl::Func("main".to_owned())));
    let ghost o1 = insns_dv(out@);
    proof {
        assert(o1 =~= seq![InsnV::Jmp(LblV::Func("main"@))]);
    }
    let mut start: usize = 0;
    let nf = program.funcs.len();
    let mut fi: usize = 0;
    loop
        invariant
            fi <= nf,
            nf == program.funcs@.len(),
            pv == program.deep_view(),
            fdv == pv.funcs,
            fdv.len() == nf,
            o1 == seq![InsnV::Jmp(LblV::Func("main"@))],
            insns_dv(out@).len() >= o1.len(),
            insns_dv(out@).take(o1.len() as int) == o1,
            ({
                match spec_funcs_t(fdv, fi as int, pv, start as nat) {
                    None => spec_funcs_t(fdv, 0, pv, 0) is None,
                    Some((ri, total)) => spec_funcs_t(fdv, 0, pv, 0) == Some(
                        (insns_dv(out@).skip(o1.len() as int) + ri, total),
                    ),
                }
            }),
        ensures
            fi == nf,
            insns_dv(out@).take(o1.len() as int) == o1,
            spec_funcs_t(fdv, 0, pv, 0) == Some(
                (insns_dv(out@).skip(o1.len() as int), start as nat),
            ),
        decreases nf - fi,
    {
        if fi >= nf {
            proof {
                assert(insns_dv(out@).skip(o1.len() as int) + Seq::<InsnV>::empty() =~= insns_dv(
                    out@,
                ).skip(o1.len() as int));
            }
            break ;
        }
        let f = &program.funcs[fi];
        proof {
            assert(f.deep_view() == fdv[fi as int]);
        }
        let ghost oc = insns_dv(out@);
        let count = match function(f, start, program, &mut out) {
            Some(c) => c,
            None => {
                return None;
            },
        };
        let start2 = match start.checked_add(count) {
            Some(x) => x,
            None => return None,
        };
        proof {
            lemma_take_skip(insns_dv(out@), oc, oc.len() as int);
            lemma_take_skip(oc, o1, o1.len() as int);
            let step = insns_dv(out@).skip(oc.len() as int);
            let tail = oc.skip(o1.len() as int);
            assert(insns_dv(out@) == (o1 + tail) + step);
            assert((o1 + tail) + step =~= o1 + (tail + step));
            assert(insns_dv(out@).take(o1.len() as int) =~= o1);
            assert(insns_dv(out@).skip(o1.len() as int) =~= tail + step);
            if let Some((ri2, total2)) = spec_funcs_t(fdv, fi + 1, pv, start2 as nat) {
                assert((tail + (step + ri2)) =~= ((tail + step) + ri2));
            }
        }
        start = start2;
        fi += 1;
    }
    let ghost o2 = insns_dv(out@);
    out.push(Insn::Label(Lbl::Ret));
    let ghost o3 = insns_dv(out@);
    proof {
        assert(o3 =~= o2.push(InsnV::Label(LblV::Ret)));
        assert(o3 + spec_dispatcher(0) =~= o3);
    }
    let total = start;
    let mut di: usize = 0;
    loop
        invariant
            di <= total,
            insns_dv(out@) == o3 + spec_dispatcher(di as int),
        ensures
            insns_dv(out@) == o3 + spec_dispatcher(total as int),
        decreases total - di,
    {
        if di >= total {
            break ;
        }
        let ghost oc = insns_dv(out@);
        out.push(Insn::Dup);
        out.push(Insn::Jez(Lbl::Control(di)));
        out.push(Insn::Push(1));
        out.push(Insn::Sub);
        proof {
            assert(insns_dv(out@) =~= oc + seq![
                InsnV::Dup,
                InsnV::Jez(LblV::Control(di as nat)),
                InsnV::Push(1),
                InsnV::Sub,
            ]);
            assert((o3 + spec_dispatcher(di as int)) + seq![
                InsnV::Dup,
                InsnV::Jez(LblV::Control(di as nat)),
                InsnV::Push(1),
                InsnV::Sub,
            ] =~= o3 + spec_dispatcher(di + 1));
        }
        di += 1;
    }
    proof {
        lemma_take_skip(o2, o1, o1.len() as int);
        let body = o2.skip(o1.len() as int);
        assert(insns_dv(out@) == ((o1 + body).push(InsnV::Label(LblV::Ret))) + spec_dispatcher(
            total as int,
        ));
        assert(((o1 + body).push(InsnV::Label(LblV::Ret))) + spec_dispatcher(total as int) =~= o1
            + body + seq![InsnV::Label(LblV::Ret)] + spec_dispatcher(total as int));
        assert(spec_trans(pv) == Some(insns_dv(out@)));
    }
    Some(out)
}

/// The block folds of a function body from block `bi` on hand every block
/// the same entry model.
proof fn lemma_blocks_entry_model(
    blocks: Seq<BasicBlockV>,
    bi: int,
    func: FunctionV,
    prog: ProgramV,
    regs0: Seq<nat>,
    count: nat,
    start: nat,
    k: int,
)
    requires
        0 <= bi <= k < blocks.len(),
        spec_blocks_t(blocks, bi, func, prog, regs0, count, start) is Some,
    ensures
        exists|c: nat|
            #[trigger] spec_stmts_t(
                blocks[k].statements,
                0,
                func,
                prog,
                blocks[k],
                regs0,
                c,
                start,
            ) is Some,
    decreases k - bi,
{
    let (i1, _r1, count1) = spec_stmts_t(
        blocks[bi].statements,
        0,
        func,
        prog,
        blocks[bi],
        regs0,
        count,
        start,
    )->Some_0;
    if k == bi {
    } else {
        lemma_blocks_entry_model(blocks, bi + 1, func, prog, regs0, count1, start, k);
    }
}

/// The simulated stack returns to exactly the parameters at every block
/// entry: in the emitted body of a user function, every block's statements
/// are folded from the model `0, 1, ..., N - 1`, whose depth is the
/// parameter count.
pub proof fn lemma_block_entry_depth(func: FunctionV, start: nat, prog: ProgramV, k: int)
    requires
        spec_builtin_t(func.name) is None,
        spec_function_t(func, start, prog) is Some,
        0 <= k < func.basicblocks.len(),
    ensures
        ({
            let regs0 = Seq::new(func.args.len(), |i: int| i as nat);
            &&& regs0.len() == func.args.len()
            &&& exists|c: nat|
                #[trigger] spec_stmts_t(
                    func.basicblocks[k].statements,
                    0,
                    func,
                    prog,
                    func.basicblocks[k],
                    regs0,
                    c,
                    start,
                ) is Some
        }),
{
    let regs0 = Seq::new(func.args.len(), |i: int| i as nat);
    lemma_blocks_entry_model(func.basicblocks, 0, func, prog, regs0, 0, start, k);
}

/// At a `return` with a value, the emitted collapse removes one slot for
/// every register the simulated stack held, leaving the result alone above
/// the caller's token: the residual simulated depth is one.
pub proof fn lemma_return_residual(
    stmt: StatementV,
    func: FunctionV,
    prog: ProgramV,
    block: BasicBlockV,
    regs: Seq<nat>,
    count: nat,
    start: nat,
)
    requires
        stmt.op is Return,
        stmt.args.len() >= 1,
        spec_stmt_t(stmt, func, prog, block, regs, count, start) is Some,
    ensures
        ({
            let (ci, cr) = spec_substitute_t(stmt.args[0], 0, regs);
            &&& cr.len() == regs.len() + 1
            &&& spec_stmt_t(stmt, func, prog, block, regs, count, start)->Some_0.0 == ci
                + swap_pops(regs.len() as int) + seq![InsnV::Swap, InsnV::Jmp(LblV::Ret)]
        }),
{
}

/// Evaluating call arguments grows the model by one slot per argument.
proof fn lemma_call_args_regs(args: Seq<ValueV>, i: int, regs: Seq<nat>)
    requires
        0 <= i <= args.len(),
    ensures
        spec_call_args_t(args, i, regs).1.len() == regs.len() + args.len() - i,
    decreases args.len() - i,
{
    if i < args.len() {
        let (ci, cr) = spec_substitute_t(args[i], 0, regs);
        lemma_call_args_regs(args, i + 1, cr);
    }
}

/// The text of a label.
pub open spec fn spec_render_label(l: LblV) -> Seq<char> {
    match l {
        LblV::Func(name) => "func_"@ + name,
        LblV::Block(name, i) => "block_"@ + name + "_"@ + crate::strutil::dec_str(i as int),
        LblV::Control(i) => "control_"@ + crate::strutil::dec_str(i as int),
        LblV::Ret => "return"@,
    }
}

/// The text of one instruction, without its line break.
pub open spec fn spec_render_insn(i: InsnV) -> Seq<char> {
    match i {
        InsnV::Push(n) => "PUSH "@ + crate::strutil::dec_str(n),
        InsnV::Pop => "POP"@,
        InsnV::Dup => "DUP"@,
        InsnV::Swap => "SWAP"@,
        InsnV::Roll => "ROLL"@,
        InsnV::Add => "ADD"@,
        InsnV::Sub => "SUB"@,
        InsnV::Mul => "MUL"@,
        InsnV::Div => "DIV"@,
        InsnV::Mod => "MOD"@,
        InsnV::Greater => "GREATER"@,
        InsnV::Not => "NOT"@,
        InsnV::Inn => "INN"@,
        InsnV::Inc => "INC"@,
        InsnV::Outn => "OUTN"@,
        InsnV::Outc => "OUTC"@,
        InsnV::Jmp(l) => "JMP "@ + spec_render_label(l),
        InsnV::Jez(l) => "JEZ "@ + spec_render_label(l),
        InsnV::Label(l) => "LABEL "@ + spec_render_label(l),
        InsnV::Halt => "HALT"@,
    }
}

/// The assembly text: one instruction per line.
pub open spec fn spec_render(insns: Seq<InsnV>) -> Seq<char>
    decreases insns.len(),
{
    if insns.len() == 0 {
        seq![]
    } else {
        spec_render(insns.drop_last()) + spec_render_insn(insns.last()) + "\n"@
    }
}

/// Appends the text of a label.
fn render_label(l: &Lbl, out: &mut String)
    ensures
        final(out)@ == old(out)@ + spec_render_label(l.deep_view()),
{
    match l {
        Lbl::Func(name) => {
            out.append("func_");
            out.append(name.as_str());
        },
        Lbl::Block(name, i) => {
            out.append("block_");
            out.append(name.as_str());
            out.append("_");
            let num = crate::strutil::u64_to_string(*i as u64);
            out.append(num.as_str());
            proof {
                assert(final(out)@ =~= old(out)@ + spec_render_label(l.deep_view()));
            }
        },
        Lbl::Control(i) => {
            out.append("control_");
            let num = crate::strutil::u64_to_string(*i as u64);
            out.append(num.as_str());
            proof {
                assert(final(out)@ =~= old(out)@ + spec_render_label(l.deep_view()));
            }
        },
        Lbl::Ret => {
            out.append("return");
        },
    }
}

/// Appends the text of one instruction, without its line break.
fn render_insn(i: &Insn, out: &mut String)
    ensures
        final(out)@ == old(out)@ + spec_render_insn(i.deep_view()),
{
    match i {
        Insn::Push(n) => {
            out.append("PUSH ");
            let num = crate::strutil::i128_to_string(*n);
            out.append(num.as_str());
            proof {
                assert(final(out)@ =~= old(out)@ + spec_render_insn(i.deep_view()));
            }
        },
        Insn::Pop => out.append("POP"),
        Insn::Dup => out.append("DUP"),
        Insn::Swap => out.append("SWAP"),
        Insn::Roll => out.append("ROLL"),
        Insn::Add => out.append("ADD"),
        Insn::Sub => out.append("SUB"),
        Insn::Mul => out.append("MUL"),
        Insn::Div => out.append("DIV"),
        Insn::Mod => out.append("MOD"),
        Insn::Greater => out.append("GREATER"),
        Insn::Not => out.append("NOT"),
        Insn::Inn => out.append("INN"),
        Insn::Inc => out.append("INC"),
        Insn::Outn => out.append("OUTN"),
        Insn::Outc => out.append("OUTC"),
        Insn::Jmp(l) => {
            out.append("JMP ");
            render_label(l, out);
            proof {
                assert(final(out)@ =~= old(out)@ + spec_render_insn(i.deep_view()));
            }
        },
        Insn::Jez(l) => {
            out.append("JEZ ");
            render_label(l, out);
            proof {
                assert(final(out)@ =~= old(out)@ + spec_render_insn(i.deep_view()));
            }
        },
        Insn::Label(l) => {
            out.append("LABEL ");
            render_label(l, out);
            proof {
                assert(final(out)@ =~= old(out)@ + spec_render_insn(i.deep_view()));
            }
        },
        Insn::Halt => out.append("HALT"),
    }
}

/// Renders the assembly as text, one instruction per line.
pub fn render(insns: &Vec<Insn>) -> (r: String)
    ensures
        r@ == spec_render(insns_dv(insns@)),
{
    let mut out = String::new();
    let n = insns.len();
    let mut i: usize = 0;
    let ghost idv = insns_dv(insns@);
    proof {
        assert(idv.take(0) =~= Seq::<InsnV>::empty());
    }
    loop
        invariant
            i <= n,
            n == insns@.len(),
            idv == insns_dv(insns@),
            out@ == spec_render(idv.take(i as int)),
        ensures
            out@ == spec_render(idv),
        decreases n - i,
    {
        if i >= n {
            proof {
                assert(idv.take(n as int) =~= idv);
            }
            break ;
        }
        render_insn(&insns[i], &mut out);
        out.append("\n");
        proof {
            assert(idv.take(i + 1).drop_last() =~= idv.take(i as int));
            assert(idv.take(i + 1).last() == idv[i as int]);
        }
        i += 1;
    }
    out
}

/// How many instructions of the stream are the resume label of token `t`.
pub open spec fn n_ctrl_label(insns: Seq<InsnV>, t: nat) -> nat
    decreases insns.len(),
{
    if insns.len() == 0 {
        0
    } else {
        n_ctrl_label(insns.drop_last(), t) + (if insns.last() == InsnV::Label(LblV::Control(t)) {
            1nat
        } else {
            0nat
        })
    }
}

/// Whether some instruction of the stream pushes the token `t`.
pub open spec fn has_push(insns: Seq<InsnV>, t: nat) -> bool {
    exists|k: int| 0 <= k < insns.len() && insns[k] == InsnV::Push(t as int)
}

/// No instruction of the stream is a resume label.
pub open spec fn no_ctrl(insns: Seq<InsnV>) -> bool {
    forall|k: int|
        0 <= k < insns.len() ==> !((#[trigger] insns[k]) matches InsnV::Label(LblV::Control(_)))
}

proof fn lemma_no_ctrl_zero(insns: Seq<InsnV>, t: nat)
    requires
        no_ctrl(insns),
    ensures
        n_ctrl_label(insns, t) == 0,
    decreases insns.len(),
{
    if insns.len() > 0 {
        assert(no_ctrl(insns.drop_last())) by {
            assert(forall|k: int|
                0 <= k < insns.drop_last().len() ==> #[trigger] insns.drop_last()[k] == insns[k]);
        }
        lemma_no_ctrl_zero(insns.drop_last(), t);
    }
}

proof fn lemma_ctrl_label_concat(a: Seq<InsnV>, b: Seq<InsnV>, t: nat)
    ensures
        n_ctrl_label(a + b, t) == n_ctrl_label(a, t) + n_ctrl_label(b, t),
    decreases b.len(),
{
    if b.len() == 0 {
        assert(a + b =~= a);
    } else {
        assert((a + b).drop_last() =~= a + b.drop_last());
        assert((a + b).last() == b.last());
        lemma_ctrl_label_concat(a, b.drop_last(), t);
    }
}

/// The stream a register pullup or an immediate push emits holds no resume
/// label.
proof fn lemma_substitute_no_ctrl(val: ValueV, ret: nat, regs: Seq<nat>)
    ensures
        no_ctrl(spec_substitute_t(val, ret, regs).0),
{
}

proof fn lemma_call_args_no_ctrl(args: Seq<ValueV>, i: int, regs: Seq<nat>)
    ensures
        no_ctrl(spec_call_args_t(args, i, regs).0),
    decreases args.len() - i,
{
    if 0 <= i < args.len() {
        let (ci, cr) = spec_substitute_t(args[i], 0, regs);
        lemma_substitute_no_ctrl(args[i], 0, regs);
        lemma_call_args_no_ctrl(args, i + 1, cr);
        let (ri, rr) = spec_call_args_t(args, i + 1, cr);
        assert forall|k: int| 0 <= k < (ci + ri).len() implies !((#[trigger] (ci + ri)[k]) matches
        InsnV::Label(LblV::Control(_))) by {
            if k < ci.len() {
                assert((ci + ri)[k] == ci[k]);
            } else {
                assert((ci + ri)[k] == ri[k - ci.len()]);
            }
        }
    }
}

proof fn lemma_swap_pops_no_ctrl(k: int)
    ensures
        no_ctrl(swap_pops(k)),
        no_ctrl(pops(k)),
    decreases k,
{
    if k > 0 {
        lemma_swap_pops_no_ctrl(k - 1);
        assert(no_ctrl(swap_pops(k))) by {
            let a = swap_pops(k - 1);
            let b = seq![InsnV::Swap, InsnV::Pop];
            assert forall|q: int| 0 <= q < (a + b).len() implies !((#[trigger] (a + b)[q]) matches
            InsnV::Label(LblV::Control(_))) by {
                if q < a.len() {
                    assert((a + b)[q] == a[q]);
                } else {
                    assert((a + b)[q] == b[q - a.len()]);
                }
            }
        }
        assert(no_ctrl(pops(k))) by {
            let a = pops(k - 1);
            assert(forall|q: int|
                0 <= q < a.len() ==> #[trigger] a.push(InsnV::Pop)[q] == a[q]);
        }
    }
}

/// One resume label per call site: the stream emitted for a call statement
/// holds exactly one resume label, bearing the fresh token, and pushes that
/// token; the stream emitted for any other statement holds none.
pub proof fn lemma_stmt_control_tokens(
    stmt: StatementV,
    func: FunctionV,
    prog: ProgramV,
    block: BasicBlockV,
    regs: Seq<nat>,
    count: nat,
    start: nat,
)
    requires
        spec_stmt_t(stmt, func, prog, block, regs, count, start) is Some,
    ensures
        ({
            let (i1, _r1, count1) = spec_stmt_t(stmt, func, prog, block, regs, count, start)
                ->Some_0;
            if stmt.op is Call {
                &&& count1 == count + 1
                &&& n_ctrl_label(i1, (start + count) as nat) == 1
                &&& has_push(i1, (start + count) as nat)
                &&& forall|t: nat| t != start + count ==> #[trigger] n_ctrl_label(i1, t) == 0
            } else {
                &&& count1 == count
                &&& forall|t: nat| #[trigger] n_ctrl_label(i1, t) == 0
            }
        }),
{
    let (i1, _r1, count1) = spec_stmt_t(stmt, func, prog, block, regs, count, start)->Some_0;
    match stmt.op {
        OperatorV::Call { name } => {
            let token = (start + count) as nat;
            let (ai, ar) = spec_call_args_t(stmt.args, 0, regs.push(0));
            let head = seq![InsnV::Push(token as int)];
            let tailseq = seq![
                InsnV::Jmp(LblV::Func(name)),
                InsnV::Label(LblV::Control(token)),
                InsnV::Pop,
            ];
            lemma_call_args_no_ctrl(stmt.args, 0, regs.push(0));
            assert forall|t: nat| #[trigger] n_ctrl_label(i1, t) == (if t == token {
                1nat
            } else {
                0nat
            }) by {
                lemma_ctrl_label_concat(head + ai, tailseq, t);
                lemma_ctrl_label_concat(head, ai, t);
                lemma_no_ctrl_zero(ai, t);
                lemma_no_ctrl_zero(head, t);
                let t2 = seq![InsnV::Jmp(LblV::Func(name)), InsnV::Label(LblV::Control(token))];
                let t1 = seq![InsnV::Jmp(LblV::Func(name))];
                assert(tailseq.drop_last() =~= t2);
                assert(t2.drop_last() =~= t1);
                assert(t1.drop_last() =~= Seq::<InsnV>::empty());
                assert(tailseq.last() == InsnV::Pop);
                assert(t2.last() == InsnV::Label(LblV::Control(token)));
                assert(t1.last() == InsnV::Jmp(LblV::Func(name)));
                assert(n_ctrl_label(Seq::<InsnV>::empty(), t) == 0);
                assert(n_ctrl_label(t1, t) == 0);
                assert(n_ctrl_label(t2, t) == (if t == token {
                    1nat
                } else {
                    0nat
                }));
                assert(n_ctrl_label(tailseq, t) == (if t == token {
                    1nat
                } else {
                    0nat
                }));
            }
            assert(i1[0] == InsnV::Push(token as int));
        },
        OperatorV::If => {
            let (ci, cr) = spec_substitute_t(stmt.args[0], 0, regs);
            let k = cr.len() - 1 - func.args.len();
            lemma_substitute_no_ctrl(stmt.args[0], 0, regs);
            lemma_swap_pops_no_ctrl(k);
            assert forall|t: nat| #[trigger] n_ctrl_label(i1, t) == 0 by {
                lemma_ctrl_label_concat(ci + swap_pops(k), seq![
                    InsnV::Jez(LblV::Block(func.name, block.nexts[1])),
                ], t);
                lemma_ctrl_label_concat(ci, swap_pops(k), t);
                lemma_no_ctrl_zero(ci, t);
                lemma_no_ctrl_zero(swap_pops(k), t);
                lemma_no_ctrl_zero(seq![InsnV::Jez(LblV::Block(func.name, block.nexts[1]))], t);
            }
        },
        OperatorV::Jump => {
            assert forall|t: nat| #[trigger] n_ctrl_label(i1, t) == 0 by {
                lemma_no_ctrl_zero(i1, t);
            }
        },
        OperatorV::Return => {
            if stmt.args.len() >= 1 {
                let (ci, cr) = spec_substitute_t(stmt.args[0], 0, regs);
                lemma_substitute_no_ctrl(stmt.args[0], 0, regs);
                lemma_swap_pops_no_ctrl(cr.len() - 1);
                assert forall|t: nat| #[trigger] n_ctrl_label(i1, t) == 0 by {
                    lemma_ctrl_label_concat(ci + swap_pops(cr.len() - 1), seq![
                        InsnV::Swap,
                        InsnV::Jmp(LblV::Ret),
                    ], t);
                    lemma_ctrl_label_concat(ci, swap_pops(cr.len() - 1), t);
                    lemma_no_ctrl_zero(ci, t);
                    lemma_no_ctrl_zero(swap_pops(cr.len() - 1), t);
                    lemma_no_ctrl_zero(seq![InsnV::Swap, InsnV::Jmp(LblV::Ret)], t);
                }
            } else {
                lemma_swap_pops_no_ctrl(regs.len() as int);
                assert forall|t: nat| #[trigger] n_ctrl_label(i1, t) == 0 by {
                    lemma_ctrl_label_concat(pops(regs.len() as int), seq![
                        InsnV::Jmp(LblV::Ret),
                    ], t);
                    lemma_no_ctrl_zero(pops(regs.len() as int), t);
                    lemma_no_ctrl_zero(seq![InsnV::Jmp(LblV::Ret)], t);
                }
            }
        },
        OperatorV::Substitute => {
            lemma_substitute_no_ctrl(stmt.args[0], stmt.ret->Some_0, regs);
            assert forall|t: nat| #[trigger] n_ctrl_label(i1, t) == 0 by {
                lemma_no_ctrl_zero(i1, t);
            }
        },
        OperatorV::LessThan => {
            let (ia, ra) = spec_substitute_t(stmt.args[1], 0, regs);
            let (ib, rb) = spec_substitute_t(stmt.args[0], 0, ra);
            lemma_substitute_no_ctrl(stmt.args[1], 0, regs);
            lemma_substitute_no_ctrl(stmt.args[0], 0, ra);
            assert forall|t: nat| #[trigger] n_ctrl_label(i1, t) == 0 by {
                lemma_ctrl_label_concat(ia + ib, seq![InsnV::Greater], t);
                lemma_ctrl_label_concat(ia, ib, t);
                lemma_no_ctrl_zero(ia, t);
                lemma_no_ctrl_zero(ib, t);
                lemma_no_ctrl_zero(seq![InsnV::Greater], t);
            }
        },
        _ => {
            lemma_bin_finish_no_ctrl(stmt, regs, count, start, func, prog, block);
        },
    }
}

/// The stream of a binary statement holds no resume label.
proof fn lemma_bin_finish_no_ctrl(
    stmt: StatementV,
    regs: Seq<nat>,
    count: nat,
    start: nat,
    func: FunctionV,
    prog: ProgramV,
    block: BasicBlockV,
)
    requires
        spec_stmt_t(stmt, func, prog, block, regs, count, start) is Some,
        !(stmt.op is Call),
        !(stmt.op is If),
        !(stmt.op is Jump),
        !(stmt.op is Return),
        !(stmt.op is Substitute),
        !(stmt.op is LessThan),
    ensures
        ({
            let (i1, _r1, count1) = spec_stmt_t(stmt, func, prog, block, regs, count, start)
                ->Some_0;
            &&& count1 == count
            &&& forall|t: nat| #[trigger] n_ctrl_label(i1, t) == 0
        }),
{
    let (i1, _r1, count1) = spec_stmt_t(stmt, func, prog, block, regs, count, start)->Some_0;
    let ret = stmt.ret->Some_0;
    let (ia, ra) = spec_substitute_t(stmt.args[0], 0, regs);
    let (ib, rb) = spec_substitute_t(stmt.args[1], 0, ra);
    lemma_substitute_no_ctrl(stmt.args[0], 0, regs);
    lemma_substitute_no_ctrl(stmt.args[1], 0, ra);
    assert forall|t: nat| #[trigger] n_ctrl_label(i1, t) == 0 by {
        let opcode = i1.skip((ia + ib).len() as int);
        assert(i1 =~= (ia + ib) + opcode);
        lemma_ctrl_label_concat(ia + ib, opcode, t);
        lemma_ctrl_label_concat(ia, ib, t);
        lemma_no_ctrl_zero(ia, t);
        lemma_no_ctrl_zero(ib, t);
        assert(no_ctrl(opcode));
        lemma_no_ctrl_zero(opcode, t);
    }
}

/// The stream holds exactly one resume label for each token in
/// `[lo, hi)`, pushes each such token, and holds no other resume label.
pub open spec fn ctrl_window(insns: Seq<InsnV>, lo: int, hi: int) -> bool {
    &&& forall|t: nat|
        lo <= t < hi ==> #[trigger] n_ctrl_label(insns, t) == 1 && has_push(insns, t)
    &&& forall|t: nat| !(lo <= t < hi) ==> #[trigger] n_ctrl_label(insns, t) == 0
}

proof fn lemma_window_concat(a: Seq<InsnV>, b: Seq<InsnV>, lo: int, mid: int, hi: int)
    requires
        lo <= mid <= hi,
        ctrl_window(a, lo, mid),
        ctrl_window(b, mid, hi),
    ensures
        ctrl_window(a + b, lo, hi),
{
    assert forall|t: nat|
        lo <= t < hi implies #[trigger] n_ctrl_label(a + b, t) == 1 && has_push(a + b, t) by {
        lemma_ctrl_label_concat(a, b, t);
        if t < mid {
            let k = choose|k: int| 0 <= k < a.len() && a[k] == InsnV::Push(t as int);
            assert((a + b)[k] == InsnV::Push(t as int));
        } else {
            let k = choose|k: int| 0 <= k < b.len() && b[k] == InsnV::Push(t as int);
            assert((a + b)[k + a.len()] == InsnV::Push(t as int));
        }
    }
    assert forall|t: nat| !(lo <= t < hi) implies #[trigger] n_ctrl_label(a + b, t) == 0 by {
        lemma_ctrl_label_concat(a, b, t);
    }
}

proof fn lemma_no_ctrl_window(insns: Seq<InsnV>, lo: int)
    requires
        no_ctrl(insns),
    ensures
        ctrl_window(insns, lo, lo),
{
    assert forall|t: nat| !(lo <= t < lo) implies #[trigger] n_ctrl_label(insns, t) == 0 by {
        lemma_no_ctrl_zero(insns, t);
    }
}

/// The statements of a block from position `k` on emit one resume label
/// and one token push per call statement, tokens numbered consecutively,
/// and nothing else.
proof fn lemma_stmts_window(
    stmts: Seq<StatementV>,
    k: int,
    func: FunctionV,
    prog: ProgramV,
    block: BasicBlockV,
    regs: Seq<nat>,
    count: nat,
    start: nat,
)
    requires
        spec_stmts_t(stmts, k, func, prog, block, regs, count, start) is Some,
    ensures
        ({
            let (i2, _r2, count2) = spec_stmts_t(stmts, k, func, prog, block, regs, count, start)
                ->Some_0;
            &&& count2 >= count
            &&& ctrl_window(i2, start + count as int, start + count2 as int)
        }),
    decreases stmts.len() - k,
{
    if k < 0 || k >= stmts.len() {
        let (i2, _r2, count2) = spec_stmts_t(stmts, k, func, prog, block, regs, count, start)
            ->Some_0;
        assert(no_ctrl(i2));
        lemma_no_ctrl_window(i2, start + count as int);
    } else {
        let (i1, r1, count1) = spec_stmt_t(stmts[k], func, prog, block, regs, count, start)
            ->Some_0;
        lemma_stmt_control_tokens(stmts[k], func, prog, block, regs, count, start);
        assert(ctrl_window(i1, start + count as int, start + count1 as int)) by {
            if stmts[k].op is Call {
                assert forall|t: nat|
                    !(start + count <= t < start + count1) implies #[trigger] n_ctrl_label(i1, t)
                    == 0 by {}
            } else {
                assert(forall|t: nat| #[trigger] n_ctrl_label(i1, t) == 0);
            }
        }
        lemma_stmts_window(stmts, k + 1, func, prog, block, r1, count1, start);
        let (i2, _r2, count2) = spec_stmts_t(stmts, k + 1, func, prog, block, r1, count1, start)
            ->Some_0;
        lemma_window_concat(i1, i2, start + count as int, start + count1 as int, start
            + count2 as int);
    }
}

/// The blocks of a function body from index `bi` on emit one resume label
/// and one token push per call statement, and nothing else.
proof fn lemma_blocks_window(
    blocks: Seq<BasicBlockV>,
    bi: int,
    func: FunctionV,
    prog: ProgramV,
    regs0: Seq<nat>,
    count: nat,
    start: nat,
)
    requires
        spec_blocks_t(blocks, bi, func, prog, regs0, count, start) is Some,
    ensures
        ({
            let (i2, count2) = spec_blocks_t(blocks, bi, func, prog, regs0, count, start)->Some_0;
            &&& count2 >= count
            &&& ctrl_window(i2, start + count as int, start + count2 as int)
        }),
    decreases blocks.len() - bi,
{
    if bi < 0 || bi >= blocks.len() {
        let (i2, count2) = spec_blocks_t(blocks, bi, func, prog, regs0, count, start)->Some_0;
        assert(no_ctrl(i2));
        lemma_no_ctrl_window(i2, start + count as int);
    } else {
        let lbl = seq![InsnV::Label(LblV::Block(func.name, bi as nat))];
        let (i1, _r1, count1) = spec_stmts_t(
            blocks[bi].statements,
            0,
            func,
            prog,
            blocks[bi],
            regs0,
            count,
            start,
        )->Some_0;
        lemma_stmts_window(blocks[bi].statements, 0, func, prog, blocks[bi], regs0, count, start);
        lemma_blocks_window(blocks, bi + 1, func, prog, regs0, count1, start);
        let (i2, count2) = spec_blocks_t(blocks, bi + 1, func, prog, regs0, count1, start)
            ->Some_0;
        assert(no_ctrl(lbl));
        lemma_no_ctrl_window(lbl, start + count as int);
        lemma_window_concat(lbl, i1, start + count as int, start + count as int, start
            + count1 as int);
        lemma_window_concat(lbl + i1, i2, start + count as int, start + count1 as int, start
            + count2 as int);
    }
}

/// One function's stream emits one resume label and one token push per call
/// site, tokens numbered from `start`, and nothing else.
proof fn lemma_function_window(func: FunctionV, start: nat, prog: ProgramV)
    requires
        spec_function_t(func, start, prog) is Some,
    ensures
        ({
            let (i1, count) = spec_function_t(func, start, prog)->Some_0;
            ctrl_window(i1, start as int, start + count as int)
        }),
{
    let lbl = seq![InsnV::Label(LblV::Func(func.name))];
    let (i1, count) = spec_function_t(func, start, prog)->Some_0;
    match spec_builtin_t(func.name) {
        Some(body) => {
            assert(no_ctrl(lbl + body));
            lemma_no_ctrl_window(lbl + body, start as int);
        },
        None => {
            let regs0 = Seq::new(func.args.len(), |i: int| i as nat);
            let (body, count1) = spec_blocks_t(func.basicblocks, 0, func, prog, regs0, 0, start)
                ->Some_0;
            lemma_blocks_window(func.basicblocks, 0, func, prog, regs0, 0, start);
            assert(no_ctrl(lbl));
            lemma_no_ctrl_window(lbl, start as int);
            lemma_window_concat(lbl, body, start as int, start as int, start + count1 as int);
            if func.name == "main"@ {
                assert(no_ctrl(seq![InsnV::Halt]));
                lemma_no_ctrl_window(seq![InsnV::Halt], start + count1 as int);
                lemma_window_concat(lbl + body, seq![InsnV::Halt], start as int, start
                    + count1 as int, start + count1 as int);
            }
        },
    }
}

/// The streams of the functions from `fi` on emit one resume label and one
/// token push per call site, tokens numbered consecutively from `start`.
proof fn lemma_funcs_window(funcs: Seq<FunctionV>, fi: int, prog: ProgramV, start: nat)
    requires
        spec_funcs_t(funcs, fi, prog, start) is Some,
    ensures
        ({
            let (i2, total) = spec_funcs_t(funcs, fi, prog, start)->Some_0;
            &&& total >= start
            &&& ctrl_window(i2, start as int, total as int)
        }),
    decreases funcs.len() - fi,
{
    if fi < 0 || fi >= funcs.len() {
        let (i2, total) = spec_funcs_t(funcs, fi, prog, start)->Some_0;
        assert(no_ctrl(i2));
        lemma_no_ctrl_window(i2, start as int);
    } else {
        let (i1, count) = spec_function_t(funcs[fi], start, prog)->Some_0;
        lemma_function_window(funcs[fi], start, prog);
        lemma_funcs_window(funcs, fi + 1, prog, (start + count) as nat);
        let (i2, total) = spec_funcs_t(funcs, fi + 1, prog, (start + count) as nat)->Some_0;
        lemma_window_concat(i1, i2, start as int, start + count as int, total as int);
    }
}

/// Every call site gets its own resume label: the emitted program holds
/// exactly one `control` label for each return token below the call-site
/// count, none beyond it, and each such token is pushed at least once.
pub proof fn lemma_control_tokens(prog: ProgramV)
    requires
        spec_trans(prog) is Some,
    ensures
        ({
            let insns = spec_trans(prog)->Some_0;
            let total = spec_funcs_t(prog.funcs, 0, prog, 0)->Some_0.1;
            &&& forall|t: nat|
                t < total ==> #[trigger] n_ctrl_label(insns, t) == 1 && has_push(insns, t)
            &&& forall|t: nat| t >= total ==> #[trigger] n_ctrl_label(insns, t) == 0
        }),
{
    let (body, total) = spec_funcs_t(prog.funcs, 0, prog, 0)->Some_0;
    let pre = seq![InsnV::Jmp(LblV::Func("main"@))];
    let mid = seq![InsnV::Label(LblV::Ret)];
    let disp = spec_dispatcher(total as int);
    lemma_funcs_window(prog.funcs, 0, prog, 0);
    assert(no_ctrl(pre));
    lemma_no_ctrl_window(pre, 0);
    lemma_window_concat(pre, body, 0, 0, total as int);
    assert(no_ctrl(mid));
    lemma_no_ctrl_window(mid, total as int);
    lemma_window_concat(pre + body, mid, 0, total as int, total as int);
    assert(no_ctrl(disp)) by {
        lemma_dispatcher_no_ctrl(total as int);
    }
    lemma_no_ctrl_window(disp, total as int);
    lemma_window_concat(pre + body + mid, disp, 0, total as int, total as int);
    let insns = spec_trans(prog)->Some_0;
    assert(insns == pre + body + mid + disp);
    assert(ctrl_window(insns, 0, total as int)) by {
        assert((pre + body + mid) + disp == pre + body + mid + disp);
    }
}

/// The number of resume labels in the stream, over every token.
pub open spec fn n_ctrl_total(insns: Seq<InsnV>) -> nat
    decreases insns.len(),
{
    if insns.len() == 0 {
        0
    } else {
        n_ctrl_total(insns.drop_last()) + (if insns.last() matches InsnV::Label(
            LblV::Control(_),
        ) {
            1nat
        } else {
            0nat
        })
    }
}

proof fn lemma_ctrl_total_concat(a: Seq<InsnV>, b: Seq<InsnV>)
    ensures
        n_ctrl_total(a + b) == n_ctrl_total(a) + n_ctrl_total(b),
    decreases b.len(),
{
    if b.len() == 0 {
        assert(a + b =~= a);
    } else {
        assert((a + b).drop_last() =~= a + b.drop_last());
        assert((a + b).last() == b.last());
        lemma_ctrl_total_concat(a, b.drop_last());
    }
}

proof fn lemma_no_ctrl_total(insns: Seq<InsnV>)
    requires
        no_ctrl(insns),
    ensures
        n_ctrl_total(insns) == 0,
    decreases insns.len(),
{
    if insns.len() > 0 {
        assert(no_ctrl(insns.drop_last())) by {
            assert(forall|k: int|
                0 <= k < insns.drop_last().len() ==> #[trigger] insns.drop_last()[k] == insns[k]);
        }
        assert(insns[insns.len() - 1] == insns.last());
        lemma_no_ctrl_total(insns.drop_last());
    }
}

/// A stream that holds no resume label of any token holds no resume label
/// at all.
proof fn lemma_zero_tokens_total(insns: Seq<InsnV>)
    requires
        forall|t: nat| #[trigger] n_ctrl_label(insns, t) == 0,
    ensures
        n_ctrl_total(insns) == 0,
    decreases insns.len(),
{
    if insns.len() > 0 {
        let pre = insns.drop_last();
        match insns.last() {
            InsnV::Label(LblV::Control(t0)) => {
                assert(n_ctrl_label(insns, t0) >= 1);
                assert(false);
            },
            _ => {},
        }
        assert forall|t: nat| #[trigger] n_ctrl_label(pre, t) == 0 by {
            assert(n_ctrl_label(insns, t) == 0);
        }
        lemma_zero_tokens_total(pre);
    }
}

/// A stream that holds one resume label of one token and none of any other
/// holds one resume label in all.
proof fn lemma_one_token_total(insns: Seq<InsnV>, t0: nat)
    requires
        n_ctrl_label(insns, t0) == 1,
        forall|t: nat| t != t0 ==> #[trigger] n_ctrl_label(insns, t) == 0,
    ensures
        n_ctrl_total(insns) == 1,
    decreases insns.len(),
{
    assert(insns.len() > 0);
    let pre = insns.drop_last();
    match insns.last() {
        InsnV::Label(LblV::Control(t)) => {
            if t != t0 {
                assert(n_ctrl_label(insns, t) >= 1);
                assert(false);
            }
            assert(n_ctrl_label(pre, t0) == 0);
            assert forall|q: nat| #[trigger] n_ctrl_label(pre, q) == 0 by {
                if q != t0 {
                    assert(n_ctrl_label(insns, q) == 0);
                }
            }
            lemma_zero_tokens_total(pre);
        },
        _ => {
            assert(n_ctrl_label(pre, t0) == 1);
            assert forall|q: nat| q != t0 implies #[trigger] n_ctrl_label(pre, q) == 0 by {
                assert(n_ctrl_label(insns, q) == 0);
            }
            lemma_one_token_total(pre, t0);
        },
    }
}

/// The number of call statements at or after position `k`.
pub open spec fn n_calls_stmts(stmts: Seq<StatementV>, k: int) -> nat
    decreases stmts.len() - k,
{
    if !(0 <= k < stmts.len()) {
        0
    } else {
        (if stmts[k].op is Call {
            1nat
        } else {
            0nat
        }) + n_calls_stmts(stmts, k + 1)
    }
}

/// The number of call statements in the blocks from index `bi` on.
pub open spec fn n_calls_blocks(blocks: Seq<BasicBlockV>, bi: int) -> nat
    decreases blocks.len() - bi,
{
    if !(0 <= bi < blocks.len()) {
        0
    } else {
        n_calls_stmts(blocks[bi].statements, 0) + n_calls_blocks(blocks, bi + 1)
    }
}

/// The number of call sites one function emits: none for a builtin, whose
/// canned body stands in for its blocks, and one per `Call` statement
/// otherwise.
pub open spec fn n_calls_func(func: FunctionV) -> nat {
    if spec_builtin_t(func.name) is Some {
        0
    } else {
        n_calls_blocks(func.basicblocks, 0)
    }
}

/// The number of call sites in the functions from index `fi` on.
pub open spec fn n_calls_funcs(funcs: Seq<FunctionV>, fi: int) -> nat
    decreases funcs.len() - fi,
{
    if !(0 <= fi < funcs.len()) {
        0
    } else {
        n_calls_func(funcs[fi]) + n_calls_funcs(funcs, fi + 1)
    }
}

/// One statement's stream holds one resume label where the statement is a
/// call and none otherwise, and the call-site counter moves by the same
/// amount.
proof fn lemma_stmt_ctrl_total(
    stmt: StatementV,
    func: FunctionV,
    prog: ProgramV,
    block: BasicBlockV,
    regs: Seq<nat>,
    count: nat,
    start: nat,
)
    requires
        spec_stmt_t(stmt, func, prog, block, regs, count, start) is Some,
    ensures
        ({
            let (i1, _r1, count1) = spec_stmt_t(stmt, func, prog, block, regs, count, start)
                ->Some_0;
            &&& n_ctrl_total(i1) == (if stmt.op is Call {
                1nat
            } else {
                0nat
            })
            &&& count1 == count + (if stmt.op is Call {
                1nat
            } else {
                0nat
            })
        }),
{
    let (i1, _r1, _count1) = spec_stmt_t(stmt, func, prog, block, regs, count, start)->Some_0;
    lemma_stmt_control_tokens(stmt, func, prog, block, regs, count, start);
    if stmt.op is Call {
        lemma_one_token_total(i1, (start + count) as nat);
    } else {
        lemma_zero_tokens_total(i1);
    }
}

/// The statements from position `k` on emit as many resume labels as they
/// hold call statements.
proof fn lemma_stmts_ctrl_total(
    stmts: Seq<StatementV>,
    k: int,
    func: FunctionV,
    prog: ProgramV,
    block: BasicBlockV,
    regs: Seq<nat>,
    count: nat,
    start: nat,
)
    requires
        spec_stmts_t(stmts, k, func, prog, block, regs, count, start) is Some,
    ensures
        ({
            let (i2, _r2, count2) = spec_stmts_t(stmts, k, func, prog, block, regs, count, start)
                ->Some_0;
            &&& count2 == count + n_calls_stmts(stmts, k)
            &&& n_ctrl_total(i2) == n_calls_stmts(stmts, k)
        }),
    decreases stmts.len() - k,
{
    if k < 0 || k >= stmts.len() {
    } else {
        let (i1, r1, count1) = spec_stmt_t(stmts[k], func, prog, block, regs, count, start)
            ->Some_0;
        lemma_stmt_ctrl_total(stmts[k], func, prog, block, regs, count, start);
        lemma_stmts_ctrl_total(stmts, k + 1, func, prog, block, r1, count1, start);
        let (i2, _r2, _count2) = spec_stmts_t(stmts, k + 1, func, prog, block, r1, count1, start)
            ->Some_0;
        lemma_ctrl_total_concat(i1, i2);
    }
}

/// The blocks from index `bi` on emit as many resume labels as their
/// statements hold call statements.
proof fn lemma_blocks_ctrl_total(
    blocks: Seq<BasicBlockV>,
    bi: int,
    func: FunctionV,
    prog: ProgramV,
    regs0: Seq<nat>,
    count: nat,
    start: nat,
)
    requires
        spec_blocks_t(blocks, bi, func, prog, regs0, count, start) is Some,
    ensures
        ({
            let (i2, count2) = spec_blocks_t(blocks, bi, func, prog, regs0, count, start)->Some_0;
            &&& count2 == count + n_calls_blocks(blocks, bi)
            &&& n_ctrl_total(i2) == n_calls_blocks(blocks, bi)
        }),
    decreases blocks.len() - bi,
{
    if bi < 0 || bi >= blocks.len() {
    } else {
        let lbl = seq![InsnV::Label(LblV::Block(func.name, bi as nat))];
        let (i1, _r1, count1) = spec_stmts_t(
            blocks[bi].statements,
            0,
            func,
            prog,
            blocks[bi],
            regs0,
            count,
            start,
        )->Some_0;
        lemma_stmts_ctrl_total(blocks[bi].statements, 0, func, prog, blocks[bi], regs0, count, start);
        lemma_blocks_ctrl_total(blocks, bi + 1, func, prog, regs0, count1, start);
        let (i2, _count2) = spec_blocks_t(blocks, bi + 1, func, prog, regs0, count1, start)
            ->Some_0;
        assert(no_ctrl(lbl));
        lemma_no_ctrl_total(lbl);
        lemma_ctrl_total_concat(lbl, i1);
        lemma_ctrl_total_concat(lbl + i1, i2);
    }
}

/// One function's stream emits as many resume labels as the function holds
/// call sites.
proof fn lemma_function_ctrl_total(func: FunctionV, start: nat, prog: ProgramV)
    requires
        spec_function_t(func, start, prog) is Some,
    ensures
        ({
            let (i1, count) = spec_function_t(func, start, prog)->Some_0;
            &&& count == n_calls_func(func)
            &&& n_ctrl_total(i1) == n_calls_func(func)
        }),
{
    let lbl = seq![InsnV::Label(LblV::Func(func.name))];
    match spec_builtin_t(func.name) {
        Some(body) => {
            assert(no_ctrl(lbl + body));
            lemma_no_ctrl_total(lbl + body);
        },
        None => {
            let regs0 = Seq::new(func.args.len(), |i: int| i as nat);
            let (body, count1) = spec_blocks_t(func.basicblocks, 0, func, prog, regs0, 0, start)
                ->Some_0;
            lemma_blocks_ctrl_total(func.basicblocks, 0, func, prog, regs0, 0, start);
            assert(no_ctrl(lbl));
            lemma_no_ctrl_total(lbl);
            lemma_ctrl_total_concat(lbl, body);
            if func.name == "main"@ {
                lemma_ctrl_total_concat(lbl + body, seq![InsnV::Halt]);
                assert(no_ctrl(seq![InsnV::Halt]));
                lemma_no_ctrl_total(seq![InsnV::Halt]);
            }
        },
    }
}

/// The functions from index `fi` on emit as many resume labels as they
/// hold call sites, and the token counter ends that far above `start`.
proof fn lemma_funcs_ctrl_total(funcs: Seq<FunctionV>, fi: int, prog: ProgramV, start: nat)
    requires
        spec_funcs_t(funcs, fi, prog, start) is Some,
    ensures
        ({
            let (i2, total) = spec_funcs_t(funcs, fi, prog, start)->Some_0;
            &&& total == start + n_calls_funcs(funcs, fi)
            &&& n_ctrl_total(i2) == n_calls_funcs(funcs, fi)
        }),
    decreases funcs.len() - fi,
{
    if fi < 0 || fi >= funcs.len() {
    } else {
        let (i1, count) = spec_function_t(funcs[fi], start, prog)->Some_0;
        lemma_function_ctrl_total(funcs[fi], start, prog);
        lemma_funcs_ctrl_total(funcs, fi + 1, prog, (start + count) as nat);
        let (i2, _total) = spec_funcs_t(funcs, fi + 1, prog, (start + count) as nat)->Some_0;
        lemma_ctrl_total_concat(i1, i2);
    }
}

/// Every call site of the program gets its own resume label, counted in
/// all: the number of `control` labels in the emitted stream equals the
/// number of `Call` statements across the whole program.
pub proof fn lemma_control_label_count(prog: ProgramV)
    requires
        spec_trans(prog) is Some,
    ensures
        n_ctrl_total(spec_trans(prog)->Some_0) == n_calls_funcs(prog.funcs, 0),
{
    let (body, total) = spec_funcs_t(prog.funcs, 0, prog, 0)->Some_0;
    let pre = seq![InsnV::Jmp(LblV::Func("main"@))];
    let mid = seq![InsnV::Label(LblV::Ret)];
    let disp = spec_dispatcher(total as int);
    lemma_funcs_ctrl_total(prog.funcs, 0, prog, 0);
    assert(no_ctrl(pre));
    lemma_no_ctrl_total(pre);
    assert(no_ctrl(mid));
    lemma_no_ctrl_total(mid);
    lemma_dispatcher_no_ctrl(total as int);
    lemma_no_ctrl_total(disp);
    lemma_ctrl_total_concat(pre, body);
    lemma_ctrl_total_concat(pre + body, mid);
    lemma_ctrl_total_concat(pre + body + mid, disp);
    assert(spec_trans(prog)->Some_0 == pre + body + mid + disp);
    assert((pre + body) + mid == pre + body + mid);
    assert((pre + body + mid) + disp == pre + body + mid + disp);
}

proof fn lemma_dispatcher_no_ctrl(n: int)
    ensures
        no_ctrl(spec_dispatcher(n)),
    decreases n,
{
    if n > 0 {
        lemma_dispatcher_no_ctrl(n - 1);
        let a = spec_dispatcher(n - 1);
        let b = seq![
            InsnV::Dup,
            InsnV::Jez(LblV::Control((n - 1) as nat)),
            InsnV::Push(1),
            InsnV::Sub,
        ];
        assert forall|q: int| 0 <= q < (a + b).len() implies !((#[trigger] (a + b)[q]) matches
        InsnV::Label(LblV::Control(_))) by {
            if q < a.len() {
                assert((a + b)[q] == a[q]);
            } else {
                assert((a + b)[q] == b[q - a.len()]);
            }
        }
    }
}

} // verus!
