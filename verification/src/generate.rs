//! The intermediate-representation builder: lowers the syntax tree into a
//! register-numbered basic-block form.
//!
//! Registers are virtual and write-once: the first registers of a function
//! are its parameters, and every further statement slot takes the next
//! number in order of emission, so register numbers are unique within a
//! function and grow in the order the statements are created.

use vstd::prelude::*;
use crate::parse::AST;
use crate::parse::AstV;
use crate::parse::LeafV;
use crate::parse::Leaf;
use crate::parse::Node;
use crate::parse::NodeV;
use crate::parse::Operator;
use crate::parse::OperatorV;
use crate::parse::ast_dv;
use crate::parse::asts_dv;
use crate::parse::strs_dv;
use crate::strutil::seq_char_lt;
use crate::strutil::str_eq;
use crate::strutil::str_lt;

verus! {

broadcast use vstd::seq::axiom_seq_index_decreases;

/// An operand of a statement: a register, an integer constant, or a label.
#[derive(Debug, Clone, Copy, PartialEq)]
pub enum Value {
    Register(usize),
    Immediate(i32),
    Label(usize),
}

/// A three-address statement: an operator, an optional result register, and
/// the argument values.
#[derive(Debug, Clone, PartialEq)]
pub struct Statement {
    pub op: Operator,
    pub ret: Option<usize>,
    pub args: Vec<Value>,
}

/// A basic block: a statement sequence with the indices of its successor
/// blocks.
#[derive(Debug, Clone, PartialEq)]
pub struct BasicBlock {
    pub statements: Vec<Statement>,
    pub nexts: Vec<usize>,
}

/// A lowered function: name, parameter names, declared return count, and
/// the basic blocks; block 0 is the entry. Builtins have no blocks.
#[derive(Debug, Clone, PartialEq)]
pub struct Function {
    pub name: String,
    pub args: Vec<String>,
    pub retnum: usize,
    pub basicblocks: Vec<BasicBlock>,
}

/// A whole lowered program: the functions, kept sorted by name so that
/// every later pass visits them in one deterministic order.
#[derive(Debug, Clone, PartialEq)]
pub struct Program {
    pub funcs: Vec<Function>,
}

/// The mathematical model of an operand.
pub enum ValueV {
    Register(nat),
    Immediate(int),
    Label(nat),
}

/// The mathematical model of a statement.
pub struct StatementV {
    pub op: OperatorV,
    pub ret: Option<nat>,
    pub args: Seq<ValueV>,
}

/// The mathematical model of a basic block.
pub struct BasicBlockV {
    pub statements: Seq<StatementV>,
    pub nexts: Seq<nat>,
}

/// The mathematical model of a lowered function.
pub struct FunctionV {
    pub name: Seq<char>,
    pub args: Seq<Seq<char>>,
    pub retnum: nat,
    pub basicblocks: Seq<BasicBlockV>,
}

/// The mathematical model of a program.
pub struct ProgramV {
    pub funcs: Seq<FunctionV>,
}

impl DeepView for Value {
    type V = ValueV;

    open spec fn deep_view(&self) -> ValueV {
        match self {
            Value::Register(r) => ValueV::Register(*r as nat),
            Value::Immediate(n) => ValueV::Immediate(*n as int),
            Value::Label(l) => ValueV::Label(*l as nat),
        }
    }
}

impl DeepView for Statement {
    type V = StatementV;

    open spec fn deep_view(&self) -> StatementV {
        StatementV {
            op: self.op.deep_view(),
            ret: match self.ret {
                Some(r) => Some(r as nat),
                None => None,
            },
            args: Seq::new(self.args@.len(), |i: int| self.args@[i].deep_view()),
        }
    }
}

impl DeepView for BasicBlock {
    type V = BasicBlockV;

    open spec fn deep_view(&self) -> BasicBlockV {
        BasicBlockV {
            statements: Seq::new(self.statements@.len(), |i: int| self.statements@[i].deep_view()),
            nexts: Seq::new(self.nexts@.len(), |i: int| self.nexts@[i] as nat),
        }
    }
}

impl DeepView for Function {
    type V = FunctionV;

    open spec fn deep_view(&self) -> FunctionV {
        FunctionV {
            name: self.name@,
            args: strs_dv(self.args@),
            retnum: self.retnum as nat,
            basicblocks: Seq::new(
                self.basicblocks@.len(),
                |i: int| self.basicblocks@[i].deep_view(),
            ),
        }
    }
}

impl DeepView for Program {
    type V = ProgramV;

    open spec fn deep_view(&self) -> ProgramV {
        ProgramV { funcs: Seq::new(self.funcs@.len(), |i: int| self.funcs@[i].deep_view()) }
    }
}

/// The model of the variable scope: names bound to register numbers, most
/// recent binding last.
pub open spec fn vars_dv(v: Seq<(String, usize)>) -> Seq<(Seq<char>, nat)> {
    Seq::new(v.len(), |i: int| (v[i].0@, v[i].1 as nat))
}

/// The register bound to `name`, by the earliest binding.
pub open spec fn spec_vars_lookup(vars: Seq<(Seq<char>, nat)>, name: Seq<char>) -> Option<nat>
    decreases vars.len(),
{
    if vars.len() == 0 {
        None
    } else if vars[0].0 == name {
        Some(vars[0].1)
    } else {
        spec_vars_lookup(vars.skip(1), name)
    }
}

/// The function named `name`, by the earliest entry.
pub open spec fn spec_funcs_lookup(funcs: Seq<FunctionV>, name: Seq<char>) -> Option<FunctionV>
    decreases funcs.len(),
{
    if funcs.len() == 0 {
        None
    } else if funcs[0].name == name {
        Some(funcs[0])
    } else {
        spec_funcs_lookup(funcs.skip(1), name)
    }
}

/// The first position at or after `i` whose function name is not below
/// `name` in lexicographic order.
pub open spec fn spec_insert_pos(funcs: Seq<FunctionV>, name: Seq<char>, i: int) -> int
    decreases funcs.len() - i,
{
    if 0 <= i < funcs.len() && seq_char_lt(funcs[i].name, name) {
        spec_insert_pos(funcs, name, i + 1)
    } else {
        i
    }
}

/// Inserting a function keeps the name order; a function of the same name
/// is replaced.
pub open spec fn spec_program_insert(funcs: Seq<FunctionV>, f: FunctionV) -> Seq<FunctionV> {
    let p = spec_insert_pos(funcs, f.name, 0);
    if 0 <= p < funcs.len() && funcs[p].name == f.name {
        funcs.update(p, f)
    } else if 0 <= p <= funcs.len() {
        funcs.insert(p, f)
    } else {
        funcs
    }
}

/// Looks up the register bound to `name` in the scope.
fn vars_lookup(vars: &Vec<(String, usize)>, name: &str) -> (r: Option<usize>)
    ensures
        match r {
            Some(id) => spec_vars_lookup(vars_dv(vars@), name@) == Some(id as nat),
            None => spec_vars_lookup(vars_dv(vars@), name@) is None,
        },
{
    let ghost vd = vars_dv(vars@);
    let mut i: usize = 0;
    let n = vars.len();
    proof {
        assert(vd.skip(0) =~= vd);
    }
    loop
        invariant
            i <= n,
            n == vars@.len(),
            vd == vars_dv(vars@),
            spec_vars_lookup(vd, name@) == spec_vars_lookup(vd.skip(i as int), name@),
        decreases n - i,
    {
        if i >= n {
            return None;
        }
        let entry = &vars[i];
        proof {
            assert(vd.skip(i as int)[0] == vd[i as int]);
            assert(vd.skip(i as int).skip(1) =~= vd.skip(i + 1));
        }
        if str_eq(entry.0.as_str(), name) {
            return Some(entry.1);
        }
        i += 1;
    }
}

/// Whether `name` is bound in the scope.
fn vars_contains(vars: &Vec<(String, usize)>, name: &str) -> (r: bool)
    ensures
        r == (spec_vars_lookup(vars_dv(vars@), name@) is Some),
{
    match vars_lookup(vars, name) {
        Some(_) => true,
        None => false,
    }
}

/// Looks up a function by name.
pub(crate) fn funcs_lookup<'a>(program: &'a Program, name: &str) -> (r: Option<&'a Function>)
    ensures
        match r {
            Some(f) => spec_funcs_lookup(program.deep_view().funcs, name@) == Some(f.deep_view()),
            None => spec_funcs_lookup(program.deep_view().funcs, name@) is None,
        },
{
    let ghost fd = program.deep_view().funcs;
    let mut i: usize = 0;
    let n = program.funcs.len();
    proof {
        assert(fd.skip(0) =~= fd);
    }
    loop
        invariant
            i <= n,
            n == program.funcs@.len(),
            fd == program.deep_view().funcs,
            spec_funcs_lookup(fd, name@) == spec_funcs_lookup(fd.skip(i as int), name@),
        decreases n - i,
    {
        if i >= n {
            return None;
        }
        let f = &program.funcs[i];
        proof {
            assert(fd.skip(i as int)[0] == fd[i as int]);
            assert(fd.skip(i as int).skip(1) =~= fd.skip(i + 1));
        }
        if str_eq(f.name.as_str(), name) {
            return Some(f);
        }
        i += 1;
    }
}

/// Inserts a function, keeping the functions sorted by name; replaces a
/// function of the same name.
fn program_insert(program: &mut Program, f: Function)
    ensures
        final(program).deep_view().funcs == spec_program_insert(
            old(program).deep_view().funcs,
            f.deep_view(),
        ),
{
    let ghost fd = program.deep_view().funcs;
    let ghost fv = f.deep_view();
    let mut i: usize = 0;
    let n = program.funcs.len();
    loop
        invariant
            i <= n,
            n == program.funcs@.len(),
            fd == program.deep_view().funcs,
            fv == f.deep_view(),
            spec_insert_pos(fd, fv.name, 0) == spec_insert_pos(fd, fv.name, i as int),
        ensures
            i <= n,
            spec_insert_pos(fd, fv.name, 0) == i,
        decreases n - i,
    {
        if i >= n {
            break ;
        }
        if !str_lt(program.funcs[i].name.as_str(), f.name.as_str()) {
            break ;
        }
        i += 1;
    }
    if i < n && str_eq(program.funcs[i].name.as_str(), f.name.as_str()) {
        let ghost before = program.funcs@;
        program.funcs.remove(i);
        program.funcs.insert(i, f);
        proof {
            assert(program.funcs@ =~= before.update(i as int, f));
            assert(program.deep_view().funcs =~= fd.update(i as int, fv));
        }
    } else {
        let ghost before = program.funcs@;
        program.funcs.insert(i, f);
        proof {
            assert(program.deep_view().funcs =~= fd.insert(i as int, fv));
        }
    }
}

/// Every register operand among `args` is numbered below `n`.
pub open spec fn val_regs_below(args: Seq<ValueV>, n: int) -> bool {
    forall|j: int|
        0 <= j < args.len() ==> match #[trigger] args[j] {
            ValueV::Register(r) => r < n,
            _ => true,
        }
}

/// Register definitions dominate uses: every register argument of a
/// value-producing statement is numbered strictly below its result register.
pub open spec fn stmt_regs_wf(s: StatementV) -> bool {
    match s.ret {
        Some(r) => val_regs_below(s.args, r as int),
        None => true,
    }
}

/// Every statement of the sequence respects register dominance.
pub open spec fn stmts_regs_wf(stmts: Seq<StatementV>) -> bool {
    forall|k: int| 0 <= k < stmts.len() ==> stmt_regs_wf(#[trigger] stmts[k])
}

/// Every statement of every block respects register dominance.
pub open spec fn blocks_regs_wf(blocks: Seq<BasicBlockV>) -> bool {
    forall|i: int|
        0 <= i < blocks.len() ==> stmts_regs_wf(#[trigger] blocks[i].statements)
}

/// Some block before `k` lists `k` among its successors.
pub open spec fn has_pred(blocks: Seq<BasicBlockV>, k: int) -> bool {
    exists|i: int, j: int|
        0 <= i < k < blocks.len() && 0 <= j < blocks[i].nexts.len() && #[trigger] blocks[i].nexts[j]
            == k
}

/// The control-flow graph is well-formed: there is an entry block, every
/// successor index is in range and strictly forward, and every block but
/// the entry has a predecessor before it.
pub open spec fn wf_cfg(blocks: Seq<BasicBlockV>) -> bool {
    &&& blocks.len() >= 1
    &&& forall|i: int, j: int|
        0 <= i < blocks.len() && 0 <= j < blocks[i].nexts.len() ==> i < #[trigger] blocks[i].nexts[j]
            < blocks.len()
    &&& forall|k: int| 1 <= k < blocks.len() ==> #[trigger] has_pred(blocks, k)
}

/// Every binding in the scope names a register below `n`.
pub open spec fn vars_below(vars: Seq<(Seq<char>, nat)>, n: int) -> bool {
    forall|i: int| 0 <= i < vars.len() ==> (#[trigger] vars[i]).1 < n
}

/// The blocks of `vb`, with every successor index moved up by `offset`.
pub open spec fn shift_nexts(vb: Seq<BasicBlockV>, offset: nat) -> Seq<BasicBlockV> {
    Seq::new(
        vb.len(),
        |i: int|
            BasicBlockV {
                statements: vb[i].statements,
                nexts: Seq::new(vb[i].nexts.len(), |j: int| (vb[i].nexts[j] + offset) as nat),
            },
    )
}

/// Lowers an expression: a leaf becomes a value, a node lowers its children
/// and appends one statement whose result is the next register,
/// `regcount + stmts.len()`. A call is checked against the function table.
pub open spec fn spec_expression_g(
    ast: AstV,
    prog: ProgramV,
    vars: Seq<(Seq<char>, nat)>,
    stmts: Seq<StatementV>,
    regcount: nat,
) -> Option<(ValueV, Seq<StatementV>)>
    decreases ast,
{
    match ast {
        AstV::Leaf(LeafV::Identifier(name)) => match spec_vars_lookup(vars, name) {
            Some(id) => Some((ValueV::Register(id), stmts)),
            None => None,
        },
        AstV::Leaf(LeafV::Constant(imm)) => Some((ValueV::Immediate(imm), stmts)),
        AstV::Node(node) => {
            let shape_ok = match node.op {
                OperatorV::Call { name } => match spec_funcs_lookup(prog.funcs, name) {
                    Some(f) => f.args.len() == node.children.len(),
                    None => false,
                },
                OperatorV::Add => node.children.len() == 2,
                OperatorV::Sub => node.children.len() == 2,
                OperatorV::Multiply => node.children.len() == 2,
                OperatorV::Division => node.children.len() == 2,
                OperatorV::Modulo => node.children.len() == 2,
                OperatorV::LessThan => node.children.len() == 2,
                OperatorV::Greater => node.children.len() == 2,
                OperatorV::Equal => node.children.len() == 2,
                _ => false,
            };
            if !shape_ok {
                None
            } else {
                spec_expr_finish(
                    node.op,
                    spec_exprs_g(node.children, 0, prog, vars, seq![], stmts, regcount),
                    regcount,
                )
            }
        },
    }
}

/// Appends the one statement of a lowered node: its result is the next
/// register, `regcount + stmts.len()`, which must fit the machine word.
pub open spec fn spec_expr_finish(
    op: OperatorV,
    lowered: Option<(Seq<ValueV>, Seq<StatementV>)>,
    regcount: nat,
) -> Option<(ValueV, Seq<StatementV>)> {
    match lowered {
        None => None,
        Some((argv, stmts2)) => {
            let id = regcount + stmts2.len();
            if id > usize::MAX {
                None
            } else {
                Some(
                    (
                        ValueV::Register(id as nat),
                        stmts2.push(StatementV { op, ret: Some(id as nat), args: argv }),
                    ),
                )
            }
        },
    }
}

/// Lowers the children from position `i` on, collecting their values.
pub open spec fn spec_exprs_g(
    children: Seq<AstV>,
    i: int,
    prog: ProgramV,
    vars: Seq<(Seq<char>, nat)>,
    acc: Seq<ValueV>,
    stmts: Seq<StatementV>,
    regcount: nat,
) -> Option<(Seq<ValueV>, Seq<StatementV>)>
    decreases children, children.len() - i,
{
    if i < 0 {
        None
    } else if i >= children.len() {
        Some((acc, stmts))
    } else {
        match spec_expression_g(children[i], prog, vars, stmts, regcount) {
            None => None,
            Some((v, stmts1)) => spec_exprs_g(
                children,
                i + 1,
                prog,
                vars,
                acc.push(v),
                stmts1,
                regcount,
            ),
        }
    }
}

/// Lowers an assignment: rejects a rebinding, lowers the right-hand side,
/// appends a `Substitute` statement, and binds the name to its register.
pub open spec fn spec_substitute_g(
    children: Seq<AstV>,
    prog: ProgramV,
    vars: Seq<(Seq<char>, nat)>,
    stmts: Seq<StatementV>,
    regcount: nat,
) -> Option<(Seq<(Seq<char>, nat)>, Seq<StatementV>)>
    decreases children,
{
    if children.len() < 2 {
        None
    } else {
        match children[0] {
            AstV::Leaf(LeafV::Identifier(lhs)) => {
                if spec_vars_lookup(vars, lhs) is Some {
                    None
                } else {
                    match spec_expression_g(children[1], prog, vars, stmts, regcount) {
                        None => None,
                        Some((v, stmts1)) => {
                            let id = regcount + stmts1.len();
                            if id > usize::MAX {
                                None
                            } else {
                                Some(
                                    (
                                        vars.push((lhs, id)),
                                        stmts1.push(
                                            StatementV {
                                                op: OperatorV::Substitute,
                                                ret: Some(id),
                                                args: seq![v],
                                            },
                                        ),
                                    ),
                                )
                            }
                        },
                    }
                }
            },
            _ => None,
        }
    }
}

/// Whether an assignment's left-hand side is a name already bound in the
/// scope: the rebinding rejection, which must leave the scope and the
/// statement list untouched.
pub open spec fn spec_dup_binding(children: Seq<AstV>, vars: Seq<(Seq<char>, nat)>) -> bool {
    children.len() >= 2 && (children[0] matches AstV::Leaf(LeafV::Identifier(lhs))
        && spec_vars_lookup(vars, lhs) is Some)
}

/// Lowers a call statement: checks the callee and its arity, lowers the
/// arguments, and appends a `Call` statement; the result register is still
/// allocated for uniformity.
pub open spec fn spec_call_g(
    name: Seq<char>,
    children: Seq<AstV>,
    prog: ProgramV,
    vars: Seq<(Seq<char>, nat)>,
    stmts: Seq<StatementV>,
    regcount: nat,
) -> Option<Seq<StatementV>>
    decreases children,
{
    match spec_funcs_lookup(prog.funcs, name) {
        None => None,
        Some(f) => if f.args.len() != children.len() {
            None
        } else {
            match spec_exprs_g(children, 0, prog, vars, seq![], stmts, regcount) {
                None => None,
                Some((argv, stmts1)) => {
                    let id = regcount + stmts1.len();
                    if id > usize::MAX {
                        None
                    } else {
                        Some(
                            stmts1.push(
                                StatementV {
                                    op: OperatorV::Call { name },
                                    ret: Some(id),
                                    args: argv,
                                },
                            ),
                        )
                    }
                },
            }
        },
    }
}

/// Lowers a `return`: lowers each result expression and appends a `Return`
/// statement.
pub open spec fn spec_return_g(
    children: Seq<AstV>,
    prog: ProgramV,
    vars: Seq<(Seq<char>, nat)>,
    stmts: Seq<StatementV>,
    regcount: nat,
) -> Option<Seq<StatementV>>
    decreases children,
{
    match spec_exprs_g(children, 0, prog, vars, seq![], stmts, regcount) {
        None => None,
        Some((argv, stmts1)) => Some(
            stmts1.push(StatementV { op: OperatorV::Return, ret: None, args: argv }),
        ),
    }
}

/// Lowers an `if`: the condition and an `If` terminator go to the current
/// block, whose successors become the then-branch entry and then the taken
/// target; the branch bodies are lowered into fresh blocks, rebased onto the
/// enclosing function, and joined in a fresh empty block.
pub open spec fn spec_if_g(
    children: Seq<AstV>,
    prog: ProgramV,
    vars: Seq<(Seq<char>, nat)>,
    blocks: Seq<BasicBlockV>,
    regcount: nat,
) -> Option<(Seq<BasicBlockV>, Seq<(Seq<char>, nat)>, nat)>
    decreases children, 1int,
{
    if blocks.len() == 0 || children.len() < 2 {
        None
    } else {
        let cur = blocks.last();
        match spec_expression_g(children[0], prog, vars, cur.statements, regcount) {
            None => None,
            Some((condv, stmts1)) => {
                let nrc = regcount + stmts1.len() + 1;
                if nrc > usize::MAX {
                    None
                } else {
                    match spec_statement_g(children[1], prog, vars, nrc as nat) {
                        None => None,
                        Some((vb, vars1, end1)) => if blocks.len() + vb.len() > usize::MAX {
                            None
                        } else {
                            let offset = blocks.len();
                            let b0 = BasicBlockV {
                                statements: stmts1.push(
                                    StatementV {
                                        op: OperatorV::If,
                                        ret: None,
                                        args: seq![condv],
                                    },
                                ),
                                nexts: cur.nexts.push(offset as nat),
                            };
                            let blocks1 = blocks.update(offset - 1, b0) + shift_nexts(
                                vb,
                                offset as nat,
                            );
                            if children.len() == 3 {
                                spec_if_else_g(
                                    children[2],
                                    prog,
                                    vars1,
                                    blocks1,
                                    offset as nat,
                                    end1,
                                )
                            } else {
                                let jbase = end1 + vb.last().statements.len();
                                if jbase > usize::MAX {
                                    None
                                } else {
                                    let jidx = blocks1.len();
                                    let blocks2 = blocks1.update(
                                        offset - 1,
                                        BasicBlockV {
                                            statements: blocks1[offset - 1].statements,
                                            nexts: blocks1[offset - 1].nexts.push(jidx as nat),
                                        },
                                    );
                                    let blocks3 = blocks2.update(
                                        jidx - 1,
                                        BasicBlockV {
                                            statements: blocks2[jidx - 1].statements,
                                            nexts: blocks2[jidx - 1].nexts.push(jidx as nat),
                                        },
                                    );
                                    let blocks4 = blocks3.push(
                                        BasicBlockV { statements: seq![], nexts: seq![] },
                                    );
                                    Some((blocks4, vars1, jbase as nat))
                                }
                            }
                        },
                    }
                }
            },
        }
    }
}

/// Lowers the else-branch of an `if` and joins both branches: the then
/// branch ends in a `Jump` to the join block, the `If` block's taken target
/// becomes the else entry, and both branch ends flow to the join block.
pub open spec fn spec_if_else_g(
    els: AstV,
    prog: ProgramV,
    vars: Seq<(Seq<char>, nat)>,
    blocks1: Seq<BasicBlockV>,
    offset: nat,
    end1: nat,
) -> Option<(Seq<BasicBlockV>, Seq<(Seq<char>, nat)>, nat)>
    decreases els,
{
    if blocks1.len() == 0 || offset < 1 {
        None
    } else {
        let lastidx = blocks1.len() - 1;
        let blocks2 = blocks1.update(
            lastidx,
            BasicBlockV {
                statements: blocks1[lastidx].statements.push(
                    StatementV { op: OperatorV::Jump, ret: None, args: seq![] },
                ),
                nexts: blocks1[lastidx].nexts,
            },
        );
        let offset2 = blocks2.len();
        let erc = end1 + blocks1[lastidx].statements.len() + 1;
        if erc > usize::MAX {
            None
        } else {
            match spec_statement_g(els, prog, vars, erc as nat) {
                None => None,
                Some((vb2, vars2, end2)) => if blocks2.len() + vb2.len() > usize::MAX {
                    None
                } else {
                    let blocks3 = blocks2 + shift_nexts(vb2, offset2 as nat);
                    let jidx = blocks3.len();
                    let blocks4 = blocks3.update(
                        offset - 1,
                        BasicBlockV {
                            statements: blocks3[offset - 1].statements,
                            nexts: blocks3[offset - 1].nexts.push(offset2 as nat),
                        },
                    );
                    let blocks5 = blocks4.update(
                        offset2 - 1,
                        BasicBlockV {
                            statements: blocks4[offset2 - 1].statements,
                            nexts: blocks4[offset2 - 1].nexts.push(jidx as nat),
                        },
                    );
                    let blocks6 = blocks5.update(
                        jidx - 1,
                        BasicBlockV {
                            statements: blocks5[jidx - 1].statements,
                            nexts: blocks5[jidx - 1].nexts.push(jidx as nat),
                        },
                    );
                    let jbase = end2 + vb2.last().statements.len();
                    if jbase > usize::MAX {
                        None
                    } else {
                        let blocks7 = blocks6.push(
                            BasicBlockV { statements: seq![], nexts: seq![] },
                        );
                        Some((blocks7, vars2, jbase as nat))
                    }
                },
            }
        }
    }
}

/// Lowers one statement of a body into the current state.
pub open spec fn spec_statement_impl_g(
    ast: AstV,
    prog: ProgramV,
    vars: Seq<(Seq<char>, nat)>,
    blocks: Seq<BasicBlockV>,
    regcount: nat,
) -> Option<(Seq<BasicBlockV>, Seq<(Seq<char>, nat)>, nat)>
    decreases ast, 2int,
{
    if blocks.len() == 0 {
        None
    } else {
        match ast {
            AstV::Node(node) => {
                let cur = blocks.last();
                match node.op {
                    OperatorV::Substitute => match spec_substitute_g(
                        node.children,
                        prog,
                        vars,
                        cur.statements,
                        regcount,
                    ) {
                        None => None,
                        Some((vars1, stmts1)) => Some(
                            (
                                blocks.update(
                                    blocks.len() - 1,
                                    BasicBlockV { statements: stmts1, nexts: cur.nexts },
                                ),
                                vars1,
                                regcount,
                            ),
                        ),
                    },
                    OperatorV::Call { name } => match spec_call_g(
                        name,
                        node.children,
                        prog,
                        vars,
                        cur.statements,
                        regcount,
                    ) {
                        None => None,
                        Some(stmts1) => Some(
                            (
                                blocks.update(
                                    blocks.len() - 1,
                                    BasicBlockV { statements: stmts1, nexts: cur.nexts },
                                ),
                                vars,
                                regcount,
                            ),
                        ),
                    },
                    OperatorV::If => spec_if_g(node.children, prog, vars, blocks, regcount),
                    OperatorV::Return => match spec_return_g(
                        node.children,
                        prog,
                        vars,
                        cur.statements,
                        regcount,
                    ) {
                        None => None,
                        Some(stmts1) => Some(
                            (
                                blocks.update(
                                    blocks.len() - 1,
                                    BasicBlockV { statements: stmts1, nexts: cur.nexts },
                                ),
                                vars,
                                regcount,
                            ),
                        ),
                    },
                    _ => None,
                }
            },
            AstV::Leaf(_) => None,
        }
    }
}

/// Lowers the statements of a body from position `i` on.
pub open spec fn spec_stmts_g(
    children: Seq<AstV>,
    i: int,
    prog: ProgramV,
    vars: Seq<(Seq<char>, nat)>,
    blocks: Seq<BasicBlockV>,
    regcount: nat,
) -> Option<(Seq<BasicBlockV>, Seq<(Seq<char>, nat)>, nat)>
    decreases children, 3int, children.len() - i,
{
    if i < 0 {
        None
    } else if i >= children.len() {
        Some((blocks, vars, regcount))
    } else {
        match spec_statement_impl_g(children[i], prog, vars, blocks, regcount) {
            None => None,
            Some((blocks1, vars1, rc1)) => spec_stmts_g(children, i + 1, prog, vars1, blocks1, rc1),
        }
    }
}

/// Lowers a `Statement` node into a fresh block vector whose registers
/// start at `regcount`; returns the blocks, the scope after the body, and
/// the register number that the next statement slot would take.
pub open spec fn spec_statement_g(
    ast: AstV,
    prog: ProgramV,
    vars: Seq<(Seq<char>, nat)>,
    regcount: nat,
) -> Option<(Seq<BasicBlockV>, Seq<(Seq<char>, nat)>, nat)>
    decreases ast, 4int,
{
    match ast {
        AstV::Node(node) => if node.op == OperatorV::Statement {
            let blocks0 = seq![BasicBlockV { statements: seq![], nexts: seq![] }];
            spec_stmts_g(node.children, 0, prog, vars, blocks0, regcount)
        } else {
            None
        },
        AstV::Leaf(_) => None,
    }
}

/// The models of a sequence of operands.
pub open spec fn vals_dv(s: Seq<Value>) -> Seq<ValueV> {
    Seq::new(s.len(), |i: int| s[i].deep_view())
}

/// The models of a sequence of statements.
pub open spec fn stmts_dv(s: Seq<Statement>) -> Seq<StatementV> {
    Seq::new(s.len(), |i: int| s[i].deep_view())
}

/// The models of a sequence of basic blocks.
pub open spec fn blocks_dv(s: Seq<BasicBlock>) -> Seq<BasicBlockV> {
    Seq::new(s.len(), |i: int| s[i].deep_view())
}

/// Lowers an expression into the current statement list; returns its value.
fn expression(
    ast: &AST,
    program: &Program,
    vars: &Vec<(String, usize)>,
    statements: &mut Vec<Statement>,
    regcount: usize,
) -> (r: Option<Value>)
    ensures
        match r {
            Some(v) => spec_expression_g(
                ast_dv(*ast),
                program.deep_view(),
                vars_dv(vars@),
                stmts_dv(old(statements)@),
                regcount as nat,
            ) == Some((v.deep_view(), stmts_dv(final(statements)@))) && final(statements)@.len()
                >= old(statements)@.len(),
            None => spec_expression_g(
                ast_dv(*ast),
                program.deep_view(),
                vars_dv(vars@),
                stmts_dv(old(statements)@),
                regcount as nat,
            ) is None,
        },
    decreases ast,
{
    broadcast use crate::parse::group_ast_dv;

    let ghost pv = program.deep_view();
    let ghost vv = vars_dv(vars@);
    let ghost t0 = stmts_dv(statements@);
    match ast {
        AST::Leaf(leaf) => match leaf {
            Leaf::Identifier(name) => match vars_lookup(vars, name.as_str()) {
                Some(id) => Some(Value::Register(id)),
                None => None,
            },
            Leaf::Constant(imm) => Some(Value::Immediate(*imm)),
        },
        AST::Node(node) => {
            let ghost cdv = asts_dv(node.children@);
            let shape_ok: bool = match &node.op {
                Operator::Call { name } => match funcs_lookup(program, name.as_str()) {
                    Some(f) => f.args.len() == node.children.len(),
                    None => false,
                },
                Operator::Add => node.children.len() == 2,
                Operator::Sub => node.children.len() == 2,
                Operator::Multiply => node.children.len() == 2,
                Operator::Division => node.children.len() == 2,
                Operator::Modulo => node.children.len() == 2,
                Operator::LessThan => node.children.len() == 2,
                Operator::Greater => node.children.len() == 2,
                Operator::Equal => node.children.len() == 2,
                _ => false,
            };
            if !shape_ok {
                return None;
            }
            let ghost astv = ast_dv(*ast);
            let ghost opv = node.op.deep_view();
            proof {
                assert(spec_expression_g(astv, pv, vv, t0, regcount as nat) == spec_expr_finish(
                    opv,
                    spec_exprs_g(cdv, 0, pv, vv, seq![], t0, regcount as nat),
                    regcount as nat,
                ));
            }
            let mut id_vec: Vec<Value> = Vec::new();
            let mut i: usize = 0;
            let n = node.children.len();
            proof {
                assert(vals_dv(id_vec@) =~= Seq::<ValueV>::empty());
            }
            loop
                invariant
                    i <= n,
                    n == node.children@.len(),
                    *ast == AST::Node(*node),
                    pv == program.deep_view(),
                    vv == vars_dv(vars@),
                    cdv == asts_dv(node.children@),
                    cdv.len() == n,
                    opv == node.op.deep_view(),
                    statements@.len() >= old(statements)@.len(),
                    spec_expression_g(astv, pv, vv, t0, regcount as nat) == spec_expr_finish(
                        opv,
                        spec_exprs_g(
                            cdv,
                            i as int,
                            pv,
                            vv,
                            vals_dv(id_vec@),
                            stmts_dv(statements@),
                            regcount as nat,
                        ),
                        regcount as nat,
                    ),
                    astv == ast_dv(*ast),
                    t0 == stmts_dv(old(statements)@),
                ensures
                    i == n,
                decreases n - i,
            {
                if i >= n {
                    break ;
                }
                let child = &node.children[i];
                let ghost vacc = vals_dv(id_vec@);
                let ghost scur = stmts_dv(statements@);
                proof {
                    crate::parse::lemma_asts_dv_index(node.children@, i as int);
                    assert(cdv[i as int] == ast_dv(*child));
                }
                match expression(child, program, vars, statements, regcount) {
                    Some(v) => {
                        proof {
                            assert(spec_expression_g(cdv[i as int], pv, vv, scur, regcount as nat)
                                == Some((v.deep_view(), stmts_dv(statements@))));
                            assert(spec_exprs_g(cdv, i as int, pv, vv, vacc, scur, regcount as nat)
                                == spec_exprs_g(
                                cdv,
                                i + 1,
                                pv,
                                vv,
                                vacc.push(v.deep_view()),
                                stmts_dv(statements@),
                                regcount as nat,
                            ));
                        }
                        id_vec.push(v);
                        proof {
                            assert(vals_dv(id_vec@) =~= vacc.push(v.deep_view()));
                        }
                    },
                    None => {
                        proof {
                            assert(spec_expression_g(cdv[i as int], pv, vv, scur, regcount as nat)
                                is None);
                            assert(spec_exprs_g(cdv, i as int, pv, vv, vacc, scur, regcount as nat)
                                is None);
                        }
                        return None;
                    },
                }
                i += 1;
            }
            proof {
                assert(spec_exprs_g(
                    cdv,
                    n as int,
                    pv,
                    vv,
                    vals_dv(id_vec@),
                    stmts_dv(statements@),
                    regcount as nat,
                ) == Some((vals_dv(id_vec@), stmts_dv(statements@))));
            }
            let id = match regcount.checked_add(statements.len()) {
                Some(x) => x,
                None => return None,
            };
            let ghost t1 = stmts_dv(statements@);
            let op2: Operator = match &node.op {
                Operator::Call { name } => Operator::Call { name: name.clone() },
                Operator::Add => Operator::Add,
                Operator::Sub => Operator::Sub,
                Operator::Multiply => Operator::Multiply,
                Operator::Division => Operator::Division,
                Operator::Modulo => Operator::Modulo,
                Operator::LessThan => Operator::LessThan,
                Operator::Greater => Operator::Greater,
                _ => Operator::Equal,
            };
            proof {
                assert(op2.deep_view() == node.op.deep_view());
            }
            let ghost argv = vals_dv(id_vec@);
            let st = Statement { op: op2, ret: Some(id), args: id_vec };
            statements.push(st);
            proof {
                assert(stmts_dv(statements@) =~= t1.push(
                    StatementV { op: node.op.deep_view(), ret: Some(id as nat), args: argv },
                ));
            }
            Some(Value::Register(id))
        },
    }
}

/// Lowers a list of argument expressions into the current statement list,
/// collecting their values.
fn lower_args(
    children: &Vec<AST>,
    program: &Program,
    vars: &Vec<(String, usize)>,
    statements: &mut Vec<Statement>,
    regcount: usize,
    id_vec: &mut Vec<Value>,
) -> (r: bool)
    ensures
        match spec_exprs_g(
            asts_dv(children@),
            0,
            program.deep_view(),
            vars_dv(vars@),
            vals_dv(old(id_vec)@),
            stmts_dv(old(statements)@),
            regcount as nat,
        ) {
            Some((vs, s2)) => r && vals_dv(final(id_vec)@) == vs && stmts_dv(final(statements)@)
                == s2,
            None => !r,
        },
    decreases children@,
{
    let ghost pv = program.deep_view();
    let ghost vv = vars_dv(vars@);
    let ghost cdv = asts_dv(children@);
    let ghost t0 = stmts_dv(statements@);
    let ghost v0 = vals_dv(id_vec@);
    let mut i: usize = 0;
    let n = children.len();
    proof {
        crate::parse::lemma_asts_dv_len(children@);
    }
    loop
        invariant
            i <= n,
            n == children@.len(),
            pv == program.deep_view(),
            vv == vars_dv(vars@),
            cdv == asts_dv(children@),
            cdv.len() == n,
            v0 == vals_dv(old(id_vec)@),
            t0 == stmts_dv(old(statements)@),
            spec_exprs_g(cdv, 0, pv, vv, v0, t0, regcount as nat) == spec_exprs_g(
                cdv,
                i as int,
                pv,
                vv,
                vals_dv(id_vec@),
                stmts_dv(statements@),
                regcount as nat,
            ),
        ensures
            i == n,
            spec_exprs_g(cdv, 0, pv, vv, v0, t0, regcount as nat) == Some(
                (vals_dv(id_vec@), stmts_dv(statements@)),
            ),
        decreases n - i,
    {
        if i >= n {
            break ;
        }
        let child = &children[i];
        let ghost vacc = vals_dv(id_vec@);
        let ghost scur = stmts_dv(statements@);
        proof {
            crate::parse::lemma_asts_dv_index(children@, i as int);
            assert(cdv[i as int] == ast_dv(*child));
        }
        match expression(child, program, vars, statements, regcount) {
            Some(v) => {
                proof {
                    assert(spec_exprs_g(cdv, i as int, pv, vv, vacc, scur, regcount as nat)
                        == spec_exprs_g(
                        cdv,
                        i + 1,
                        pv,
                        vv,
                        vacc.push(v.deep_view()),
                        stmts_dv(statements@),
                        regcount as nat,
                    ));
                }
                id_vec.push(v);
                proof {
                    assert(vals_dv(id_vec@) =~= vacc.push(v.deep_view()));
                }
            },
            None => {
                proof {
                    assert(spec_exprs_g(cdv, i as int, pv, vv, vacc, scur, regcount as nat)
                        is None);
                    assert(spec_exprs_g(cdv, 0, pv, vv, v0, t0, regcount as nat) is None);
                }
                return false;
            },
        }
        i += 1;
    }
    true
}

/// Lowers an assignment: rejects a rebinding, appends a `Substitute`
/// statement, and binds the name to the new register.
fn substitute(
    children: &Vec<AST>,
    program: &Program,
    vars: &mut Vec<(String, usize)>,
    statements: &mut Vec<Statement>,
    regcount: usize,
) -> (r: Option<Value>)
    ensures
        match r {
            Some(v) => spec_substitute_g(
                asts_dv(children@),
                program.deep_view(),
                vars_dv(old(vars)@),
                stmts_dv(old(statements)@),
                regcount as nat,
            ) == Some((vars_dv(final(vars)@), stmts_dv(final(statements)@)))
                && final(statements)@.len() >= 1
                && v.deep_view() == ValueV::Register(
                    (regcount as nat + final(statements)@.len() - 1) as nat,
                ),
            None => spec_substitute_g(
                asts_dv(children@),
                program.deep_view(),
                vars_dv(old(vars)@),
                stmts_dv(old(statements)@),
                regcount as nat,
            ) is None && (spec_dup_binding(asts_dv(children@), vars_dv(old(vars)@))
                ==> final(vars)@ == old(vars)@ && final(statements)@ == old(statements)@),
        },
    decreases children@,
{
    let ghost cdv = asts_dv(children@);
    if children.len() < 2 {
        proof {
            crate::parse::lemma_asts_dv_len(children@);
        }
        return None;
    }
    proof {
        crate::parse::lemma_asts_dv_len(children@);
        crate::parse::lemma_asts_dv_index(children@, 0);
        crate::parse::lemma_asts_dv_index(children@, 1);
    }
    match &children[0] {
        AST::Leaf(Leaf::Identifier(lhs)) => {
            if vars_contains(vars, lhs.as_str()) {
                return None;
            }
            match expression(&children[1], program, vars, statements, regcount) {
                None => None,
                Some(exp_id) => {
                    let id = match regcount.checked_add(statements.len()) {
                        Some(x) => x,
                        None => return None,
                    };
                    let ghost t1 = stmts_dv(statements@);
                    let ghost vv1 = vars_dv(vars@);
                    let args = vec![exp_id];
                    proof {
                        assert(Seq::new(args@.len(), |k: int| args@[k].deep_view()) =~= seq![
                            exp_id.deep_view(),
                        ]);
                    }
                    statements.push(Statement { op: Operator::Substitute, ret: Some(id), args });
                    proof {
                        assert(stmts_dv(statements@) =~= t1.push(
                            StatementV {
                                op: OperatorV::Substitute,
                                ret: Some(id as nat),
                                args: seq![exp_id.deep_view()],
                            },
                        ));
                    }
                    vars.push((lhs.clone(), id));
                    proof {
                        assert(vars_dv(vars@) =~= vv1.push((lhs@, id as nat)));
                    }
                    Some(Value::Register(id))
                },
            }
        },
        _ => None,
    }
}

/// Lowers a call statement: checks the callee and its arity, lowers the
/// arguments, and appends a `Call` statement.
fn call(
    name: &str,
    children: &Vec<AST>,
    program: &Program,
    vars: &Vec<(String, usize)>,
    statements: &mut Vec<Statement>,
    regcount: usize,
) -> (r: Option<Value>)
    ensures
        match r {
            Some(v) => spec_call_g(
                name@,
                asts_dv(children@),
                program.deep_view(),
                vars_dv(vars@),
                stmts_dv(old(statements)@),
                regcount as nat,
            ) == Some(stmts_dv(final(statements)@))
                && final(statements)@.len() >= 1
                && v.deep_view() == ValueV::Register(
                    (regcount as nat + final(statements)@.len() - 1) as nat,
                ),
            None => spec_call_g(
                name@,
                asts_dv(children@),
                program.deep_view(),
                vars_dv(vars@),
                stmts_dv(old(statements)@),
                regcount as nat,
            ) is None,
        },
    decreases children@,
{
    let arity_ok = match funcs_lookup(program, name) {
        Some(func) => func.args.len() == children.len(),
        None => return None,
    };
    proof {
        crate::parse::lemma_asts_dv_len(children@);
    }
    if !arity_ok {
        return None;
    }
    let mut id_vec: Vec<Value> = Vec::new();
    proof {
        assert(vals_dv(id_vec@) =~= Seq::<ValueV>::empty());
    }
    if !lower_args(children, program, vars, statements, regcount, &mut id_vec) {
        return None;
    }
    let id = match regcount.checked_add(statements.len()) {
        Some(x) => x,
        None => return None,
    };
    let ghost t1 = stmts_dv(statements@);
    let ghost argv = vals_dv(id_vec@);
    let op = Operator::Call { name: name.to_owned() };
    statements.push(Statement { op, ret: Some(id), args: id_vec });
    proof {
        assert(stmts_dv(statements@) =~= t1.push(
            StatementV { op: OperatorV::Call { name: name@ }, ret: Some(id as nat), args: argv },
        ));
    }
    Some(Value::Register(id))
}

/// Lowers a `return`: lowers each result expression and appends a `Return`
/// statement.
fn return_op(
    children: &Vec<AST>,
    program: &Program,
    vars: &Vec<(String, usize)>,
    statements: &mut Vec<Statement>,
    regcount: usize,
) -> (r: bool)
    ensures
        match spec_return_g(
            asts_dv(children@),
            program.deep_view(),
            vars_dv(vars@),
            stmts_dv(old(statements)@),
            regcount as nat,
        ) {
            Some(s2) => r && stmts_dv(final(statements)@) == s2,
            None => !r,
        },
    decreases children@,
{
    let mut vec_id: Vec<Value> = Vec::new();
    proof {
        assert(vals_dv(vec_id@) =~= Seq::<ValueV>::empty());
    }
    if !lower_args(children, program, vars, statements, regcount, &mut vec_id) {
        return false;
    }
    let ghost t1 = stmts_dv(statements@);
    let ghost argv = vals_dv(vec_id@);
    statements.push(Statement { op: Operator::Return, ret: None, args: vec_id });
    proof {
        assert(stmts_dv(statements@) =~= t1.push(
            StatementV { op: OperatorV::Return, ret: None, args: argv },
        ));
    }
    true
}

/// A graph under construction: the entry block exists, every successor
/// index is strictly forward and at most the block count (an index equal to
/// the count awaits the next block to be appended), and every block but the
/// entry has a predecessor before it.
pub open spec fn wf_cfg_open(blocks: Seq<BasicBlockV>) -> bool {
    &&& blocks.len() >= 1
    &&& forall|i: int, j: int|
        0 <= i < blocks.len() && 0 <= j < blocks[i].nexts.len() ==> i < #[trigger] blocks[i].nexts[j]
            <= blocks.len()
    &&& forall|k: int| 1 <= k < blocks.len() ==> #[trigger] has_pred(blocks, k)
}

proof fn lemma_wf_cfg_to_open(blocks: Seq<BasicBlockV>)
    requires
        wf_cfg(blocks),
    ensures
        wf_cfg_open(blocks),
{
}

/// Replacing a block's statements leaves the graph shape untouched.
proof fn lemma_update_stmts_wf(blocks: Seq<BasicBlockV>, i: int, stmts: Seq<StatementV>)
    requires
        0 <= i < blocks.len(),
    ensures
        wf_cfg(blocks) ==> wf_cfg(
            blocks.update(i, BasicBlockV { statements: stmts, nexts: blocks[i].nexts }),
        ),
        wf_cfg_open(blocks) ==> wf_cfg_open(
            blocks.update(i, BasicBlockV { statements: stmts, nexts: blocks[i].nexts }),
        ),
{
    let upd = blocks.update(i, BasicBlockV { statements: stmts, nexts: blocks[i].nexts });
    assert(forall|a: int| 0 <= a < blocks.len() ==> #[trigger] upd[a].nexts == blocks[a].nexts);
    assert forall|k: int| 1 <= k < blocks.len() && has_pred(blocks, k) implies #[trigger] has_pred(
        upd,
        k,
    ) by {
        let (a, b) = choose|a: int, b: int|
            0 <= a < k < blocks.len() && 0 <= b < blocks[a].nexts.len()
                && #[trigger] blocks[a].nexts[b] == k;
        assert(upd[a].nexts[b] == k);
    }
    assert forall|k: int| 1 <= k < upd.len() && has_pred(upd, k) implies #[trigger] has_pred(
        blocks,
        k,
    ) by {
        let (a, b) = choose|a: int, b: int|
            0 <= a < k < upd.len() && 0 <= b < upd[a].nexts.len() && #[trigger] upd[a].nexts[b]
                == k;
        assert(blocks[a].nexts[b] == k);
    }
}

/// Adding one forward edge, pointing no further than the next block to be
/// appended, keeps the open graph well-formed.
proof fn lemma_push_edge_open(blocks: Seq<BasicBlockV>, i: int, t: int)
    requires
        wf_cfg_open(blocks),
        0 <= i < blocks.len(),
        i < t <= blocks.len(),
    ensures
        wf_cfg_open(
            blocks.update(
                i,
                BasicBlockV {
                    statements: blocks[i].statements,
                    nexts: blocks[i].nexts.push(t as nat),
                },
            ),
        ),
{
    let upd = blocks.update(
        i,
        BasicBlockV { statements: blocks[i].statements, nexts: blocks[i].nexts.push(t as nat) },
    );
    assert forall|a: int, b: int|
        0 <= a < upd.len() && 0 <= b < upd[a].nexts.len() implies a < #[trigger] upd[a].nexts[b]
        <= upd.len() by {
        if a != i {
            assert(upd[a] == blocks[a]);
        } else if b < blocks[i].nexts.len() {
            assert(upd[a].nexts[b] == blocks[i].nexts[b]);
        } else {
            assert(upd[a].nexts[b] == t);
        }
    }
    assert forall|k: int| 1 <= k < upd.len() implies #[trigger] has_pred(upd, k) by {
        assert(has_pred(blocks, k));
        let (a, b) = choose|a: int, b: int|
            0 <= a < k < blocks.len() && 0 <= b < blocks[a].nexts.len()
                && #[trigger] blocks[a].nexts[b] == k;
        if a != i {
            assert(upd[a].nexts[b] == k);
        } else {
            assert(upd[a].nexts[b] == k);
        }
    }
}

/// Appending a well-formed body, shifted past the existing blocks, keeps
/// the open graph well-formed, provided some existing edge points at the
/// body's entry.
proof fn lemma_merge_open(blocks: Seq<BasicBlockV>, vb: Seq<BasicBlockV>, pi: int, pj: int)
    requires
        wf_cfg_open(blocks),
        wf_cfg(vb),
        0 <= pi < blocks.len(),
        0 <= pj < blocks[pi].nexts.len(),
        blocks[pi].nexts[pj] == blocks.len(),
    ensures
        wf_cfg_open(blocks + shift_nexts(vb, blocks.len() as nat)),
{
    let off = blocks.len();
    let sh = shift_nexts(vb, off as nat);
    let res = blocks + sh;
    assert forall|a: int, b: int|
        0 <= a < res.len() && 0 <= b < res[a].nexts.len() implies a < #[trigger] res[a].nexts[b]
        <= res.len() by {
        if a < off {
            assert(res[a] == blocks[a]);
        } else {
            assert(res[a] == sh[a - off]);
            assert(sh[a - off].nexts[b] == vb[a - off].nexts[b] + off);
            assert((a - off) < vb[a - off].nexts[b] < vb.len());
        }
    }
    assert forall|k: int| 1 <= k < res.len() implies #[trigger] has_pred(res, k) by {
        if k < off {
            assert(has_pred(blocks, k));
            let (a, b) = choose|a: int, b: int|
                0 <= a < k < blocks.len() && 0 <= b < blocks[a].nexts.len()
                    && #[trigger] blocks[a].nexts[b] == k;
            assert(res[a].nexts[b] == k);
        } else if k == off {
            assert(res[pi] == blocks[pi]);
            assert(res[pi].nexts[pj] == k);
        } else {
            assert(has_pred(vb, k - off));
            let (a, b) = choose|a: int, b: int|
                0 <= a < k - off < vb.len() && 0 <= b < vb[a].nexts.len()
                    && #[trigger] vb[a].nexts[b] == k - off;
            assert(res[a + off] == sh[a]);
            assert(res[a + off].nexts[b] == vb[a].nexts[b] + off);
            assert(res[a + off].nexts[b] == k);
        }
    }
}

/// Appending the empty join block closes the graph: every dangling edge now
/// lands on it, so the closed graph is fully well-formed.
proof fn lemma_close_wf(blocks: Seq<BasicBlockV>, pi: int, pj: int)
    requires
        wf_cfg_open(blocks),
        0 <= pi < blocks.len(),
        0 <= pj < blocks[pi].nexts.len(),
        blocks[pi].nexts[pj] == blocks.len(),
    ensures
        wf_cfg(blocks.push(BasicBlockV { statements: seq![], nexts: seq![] })),
{
    let res = blocks.push(BasicBlockV { statements: seq![], nexts: seq![] });
    assert forall|a: int, b: int|
        0 <= a < res.len() && 0 <= b < res[a].nexts.len() implies a < #[trigger] res[a].nexts[b]
        < res.len() by {
        if a < blocks.len() {
            assert(res[a] == blocks[a]);
        }
    }
    assert forall|k: int| 1 <= k < res.len() implies #[trigger] has_pred(res, k) by {
        if k < blocks.len() {
            assert(has_pred(blocks, k));
            let (a, b) = choose|a: int, b: int|
                0 <= a < k < blocks.len() && 0 <= b < blocks[a].nexts.len()
                    && #[trigger] blocks[a].nexts[b] == k;
            assert(res[a].nexts[b] == k);
        } else {
            assert(res[pi] == blocks[pi]);
            assert(res[pi].nexts[pj] == k);
        }
    }
}

/// The graph built for an `if` is well-formed where the input graph is.
proof fn lemma_if_g_wf(
    children: Seq<AstV>,
    prog: ProgramV,
    vars: Seq<(Seq<char>, nat)>,
    blocks: Seq<BasicBlockV>,
    regcount: nat,
)
    requires
        wf_cfg(blocks),
        spec_if_g(children, prog, vars, blocks, regcount) is Some,
    ensures
        wf_cfg(spec_if_g(children, prog, vars, blocks, regcount)->Some_0.0),
    decreases children, 1int,
{
    let cur = blocks.last();
    let (condv, stmts1) = spec_expression_g(
        children[0],
        prog,
        vars,
        cur.statements,
        regcount,
    )->Some_0;
    let nrc = regcount + stmts1.len() + 1;
    let (vb, vars1, end1) = spec_statement_g(children[1], prog, vars, nrc as nat)->Some_0;
    lemma_statement_g_wf(children[1], prog, vars, nrc as nat);
    let offset = blocks.len();
    let b0 = BasicBlockV {
        statements: stmts1.push(StatementV { op: OperatorV::If, ret: None, args: seq![condv] }),
        nexts: cur.nexts.push(offset as nat),
    };
    lemma_wf_cfg_to_open(blocks);
    lemma_update_stmts_wf(blocks, offset - 1, b0.statements);
    let blocksa = blocks.update(
        offset - 1,
        BasicBlockV { statements: b0.statements, nexts: blocks[offset - 1].nexts },
    );
    lemma_push_edge_open(blocksa, offset - 1, offset as int);
    let blocksu = blocks.update(offset - 1, b0);
    assert(blocksu =~= blocksa.update(
        offset - 1,
        BasicBlockV {
            statements: blocksa[offset - 1].statements,
            nexts: blocksa[offset - 1].nexts.push(offset as nat),
        },
    ));
    assert(wf_cfg_open(blocksu));
    assert(blocksu[offset - 1].nexts.last() == offset);
    lemma_merge_open(blocksu, vb, offset - 1, blocksu[offset - 1].nexts.len() - 1);
    let blocks1 = blocksu + shift_nexts(vb, offset as nat);
    if children.len() == 3 {
        lemma_if_else_g_wf(children[2], prog, vars1, blocks1, offset as nat, end1);
    } else {
        let jidx = blocks1.len();
        lemma_push_edge_open(blocks1, offset as int - 1, jidx as int);
        let blocks2 = blocks1.update(
            offset - 1,
            BasicBlockV {
                statements: blocks1[offset - 1].statements,
                nexts: blocks1[offset - 1].nexts.push(jidx as nat),
            },
        );
        lemma_push_edge_open(blocks2, jidx as int - 1, jidx as int);
        let blocks3 = blocks2.update(
            jidx - 1,
            BasicBlockV {
                statements: blocks2[jidx - 1].statements,
                nexts: blocks2[jidx - 1].nexts.push(jidx as nat),
            },
        );
        assert(blocks3[jidx - 1].nexts.last() == jidx);
        lemma_close_wf(blocks3, jidx as int - 1, blocks3[jidx as int - 1].nexts.len() - 1);
    }
}

/// The graph after joining an else-branch is well-formed where the graph
/// with the then-branch was.
proof fn lemma_if_else_g_wf(
    els: AstV,
    prog: ProgramV,
    vars: Seq<(Seq<char>, nat)>,
    blocks1: Seq<BasicBlockV>,
    offset: nat,
    end1: nat,
)
    requires
        wf_cfg_open(blocks1),
        1 <= offset <= blocks1.len(),
        spec_if_else_g(els, prog, vars, blocks1, offset, end1) is Some,
    ensures
        wf_cfg(spec_if_else_g(els, prog, vars, blocks1, offset, end1)->Some_0.0),
    decreases els, 5int,
{
    let lastidx = blocks1.len() - 1;
    lemma_update_stmts_wf_open(blocks1, lastidx as int);
    let blocks2 = blocks1.update(
        lastidx,
        BasicBlockV {
            statements: blocks1[lastidx].statements.push(
                StatementV { op: OperatorV::Jump, ret: None, args: seq![] },
            ),
            nexts: blocks1[lastidx].nexts,
        },
    );
    let offset2 = blocks2.len();
    let erc = end1 + blocks1[lastidx].statements.len() + 1;
    let (vb2, vars2, end2) = spec_statement_g(els, prog, vars, erc as nat)->Some_0;
    lemma_statement_g_wf(els, prog, vars, erc as nat);
    lemma_push_edge_open(blocks2, offset as int - 1, offset2 as int);
    let blocks2b = blocks2.update(
        offset - 1,
        BasicBlockV {
            statements: blocks2[offset - 1].statements,
            nexts: blocks2[offset - 1].nexts.push(offset2 as nat),
        },
    );
    lemma_merge_open(blocks2b, vb2, offset - 1, blocks2b[offset - 1].nexts.len() - 1);
    let blocks3b = blocks2b + shift_nexts(vb2, offset2 as nat);
    // the spec pushes the else edge only after merging; both orders give
    // the same sequence
    let blocks3 = blocks2 + shift_nexts(vb2, offset2 as nat);
    let jidx = blocks3.len();
    let blocks4 = blocks3.update(
        offset - 1,
        BasicBlockV {
            statements: blocks3[offset - 1].statements,
            nexts: blocks3[offset - 1].nexts.push(offset2 as nat),
        },
    );
    assert(blocks4 =~= blocks3b);
    lemma_push_edge_open(blocks3b, offset2 as int - 1, jidx as int);
    let blocks5 = blocks4.update(
        offset2 - 1,
        BasicBlockV {
            statements: blocks4[offset2 - 1].statements,
            nexts: blocks4[offset2 - 1].nexts.push(jidx as nat),
        },
    );
    assert(blocks5 =~= blocks3b.update(
        offset2 - 1,
        BasicBlockV {
            statements: blocks3b[offset2 - 1].statements,
            nexts: blocks3b[offset2 - 1].nexts.push(jidx as nat),
        },
    ));
    lemma_push_edge_open(blocks5, jidx as int - 1, jidx as int);
    let blocks6 = blocks5.update(
        jidx - 1,
        BasicBlockV {
            statements: blocks5[jidx - 1].statements,
            nexts: blocks5[jidx - 1].nexts.push(jidx as nat),
        },
    );
    assert(blocks6[jidx - 1].nexts.last() == jidx);
    lemma_close_wf(blocks6, jidx as int - 1, blocks6[jidx as int - 1].nexts.len() - 1);
}

/// Replacing a block's statements leaves an open graph open.
proof fn lemma_update_stmts_wf_open(blocks: Seq<BasicBlockV>, i: int)
    requires
        0 <= i < blocks.len(),
        wf_cfg_open(blocks),
    ensures
        forall|stmts: Seq<StatementV>|
            wf_cfg_open(
                #[trigger] blocks.update(
                    i,
                    BasicBlockV { statements: stmts, nexts: blocks[i].nexts },
                ),
            ),
{
    assert forall|stmts: Seq<StatementV>|
        wf_cfg_open(
            #[trigger] blocks.update(i, BasicBlockV { statements: stmts, nexts: blocks[i].nexts }),
        ) by {
        let upd = blocks.update(i, BasicBlockV { statements: stmts, nexts: blocks[i].nexts });
        assert(forall|a: int| 0 <= a < blocks.len() ==> #[trigger] upd[a].nexts == blocks[a].nexts);
        assert forall|k: int| 1 <= k < upd.len() implies #[trigger] has_pred(upd, k) by {
            assert(has_pred(blocks, k));
            let (a, b) = choose|a: int, b: int|
                0 <= a < k < blocks.len() && 0 <= b < blocks[a].nexts.len()
                    && #[trigger] blocks[a].nexts[b] == k;
            assert(upd[a].nexts[b] == k);
        }
    }
}

/// Lowering one statement keeps the graph well-formed.
proof fn lemma_statement_impl_g_wf(
    ast: AstV,
    prog: ProgramV,
    vars: Seq<(Seq<char>, nat)>,
    blocks: Seq<BasicBlockV>,
    regcount: nat,
)
    requires
        wf_cfg(blocks),
        spec_statement_impl_g(ast, prog, vars, blocks, regcount) is Some,
    ensures
        wf_cfg(spec_statement_impl_g(ast, prog, vars, blocks, regcount)->Some_0.0),
    decreases ast, 2int,
{
    let node = ast->Node_0;
    match node.op {
        OperatorV::If => {
            lemma_if_g_wf(node.children, prog, vars, blocks, regcount);
        },
        _ => {
            lemma_update_stmts_wf(
                blocks,
                blocks.len() - 1,
                spec_statement_impl_g(ast, prog, vars, blocks, regcount)->Some_0.0.last().statements,
            );
        },
    }
}

/// Lowering a run of statements keeps the graph well-formed.
proof fn lemma_stmts_g_wf(
    children: Seq<AstV>,
    i: int,
    prog: ProgramV,
    vars: Seq<(Seq<char>, nat)>,
    blocks: Seq<BasicBlockV>,
    regcount: nat,
)
    requires
        wf_cfg(blocks),
        spec_stmts_g(children, i, prog, vars, blocks, regcount) is Some,
    ensures
        wf_cfg(spec_stmts_g(children, i, prog, vars, blocks, regcount)->Some_0.0),
    decreases children, 3int, children.len() - i,
{
    if i < 0 || i >= children.len() {
    } else {
        let (blocks1, vars1, rc1) = spec_statement_impl_g(
            children[i],
            prog,
            vars,
            blocks,
            regcount,
        )->Some_0;
        lemma_statement_impl_g_wf(children[i], prog, vars, blocks, regcount);
        lemma_stmts_g_wf(children, i + 1, prog, vars1, blocks1, rc1);
    }
}

/// The blocks built for a statement body form a well-formed graph.
proof fn lemma_statement_g_wf(
    ast: AstV,
    prog: ProgramV,
    vars: Seq<(Seq<char>, nat)>,
    regcount: nat,
)
    requires
        spec_statement_g(ast, prog, vars, regcount) is Some,
    ensures
        wf_cfg(spec_statement_g(ast, prog, vars, regcount)->Some_0.0),
    decreases ast, 4int,
{
    let node = ast->Node_0;
    let blocks0 = seq![BasicBlockV { statements: seq![], nexts: seq![] }];
    assert(wf_cfg(blocks0));
    lemma_stmts_g_wf(node.children, 0, prog, vars, blocks0, regcount);
}

/// Adds one successor edge to the block at `i`.
fn patch_edge(basicblocks: &mut Vec<BasicBlock>, i: usize, t: usize)
    requires
        i < old(basicblocks)@.len(),
    ensures
        blocks_dv(final(basicblocks)@) == blocks_dv(old(basicblocks)@).update(
            i as int,
            BasicBlockV {
                statements: blocks_dv(old(basicblocks)@)[i as int].statements,
                nexts: blocks_dv(old(basicblocks)@)[i as int].nexts.push(t as nat),
            },
        ),
        final(basicblocks)@.len() == old(basicblocks)@.len(),
{
    let ghost b0 = blocks_dv(basicblocks@);
    let b = basicblocks.remove(i);
    let BasicBlock { statements, nexts: mut nx } = b;
    let ghost nx0 = nx@;
    nx.push(t);
    basicblocks.insert(i, BasicBlock { statements, nexts: nx });
    proof {
        assert(basicblocks@.len() == old(basicblocks)@.len());
        assert(forall|a: int|
            0 <= a < basicblocks@.len() && a != i ==> basicblocks@[a] == old(basicblocks)@[a]);
        let upd = BasicBlockV {
            statements: b0[i as int].statements,
            nexts: b0[i as int].nexts.push(t as nat),
        };
        assert(blocks_dv(basicblocks@)[i as int].statements =~= upd.statements);
        assert(blocks_dv(basicblocks@)[i as int].nexts =~= upd.nexts);
        assert(blocks_dv(basicblocks@) =~= b0.update(i as int, upd));
    }
}

/// Moves the blocks of a lowered body onto the end of the function,
/// rebasing every successor index by `offset`.
fn merge_blocks(basicblocks: &mut Vec<BasicBlock>, vb: Vec<BasicBlock>, offset: usize)
    requires
        offset == old(basicblocks)@.len(),
        offset + vb@.len() <= usize::MAX,
        wf_cfg(blocks_dv(vb@)),
    ensures
        blocks_dv(final(basicblocks)@) == blocks_dv(old(basicblocks)@) + shift_nexts(
            blocks_dv(vb@),
            offset as nat,
        ),
        final(basicblocks)@.len() == offset + vb@.len(),
{
    let ghost vb0 = vb@;
    let ghost base = blocks_dv(basicblocks@);
    let ghost sh = shift_nexts(blocks_dv(vb0), offset as nat);
    let mut rest = vb;
    loop
        invariant
            rest@.len() <= vb0.len(),
            rest@ =~= vb0.skip(vb0.len() - rest@.len()),
            basicblocks@.len() == offset + vb0.len() - rest@.len(),
            offset + vb0.len() <= usize::MAX,
            base == blocks_dv(old(basicblocks)@),
            sh == shift_nexts(blocks_dv(vb0), offset as nat),
            wf_cfg(blocks_dv(vb0)),
            blocks_dv(basicblocks@) =~= base + sh.take(vb0.len() - rest@.len()),
        ensures
            rest@.len() == 0,
            blocks_dv(basicblocks@) =~= base + sh.take(vb0.len() as int),
        decreases rest@.len(),
    {
        if rest.len() == 0 {
            break ;
        }
        let ghost k = vb0.len() - rest@.len();
        let b = rest.remove(0);
        proof {
            assert(b == vb0[k as int]);
            assert(rest@ =~= vb0.skip(k + 1));
        }
        let BasicBlock { statements, nexts } = b;
        let mut nexts2: Vec<usize> = Vec::new();
        let m = nexts.len();
        let mut j: usize = 0;
        proof {
            assert(blocks_dv(vb0)[k as int].nexts.len() == nexts@.len());
        }
        loop
            invariant
                j <= m,
                m == nexts@.len(),
                nexts2@.len() == j,
                offset + vb0.len() <= usize::MAX,
                wf_cfg(blocks_dv(vb0)),
                0 <= k < vb0.len(),
                blocks_dv(vb0)[k as int].nexts.len() == m,
                forall|q: int|
                    0 <= q < m ==> #[trigger] blocks_dv(vb0)[k as int].nexts[q] == nexts@[q],
                forall|q: int| 0 <= q < j ==> #[trigger] nexts2@[q] == nexts@[q] + offset,
            ensures
                j == m,
                forall|q: int| 0 <= q < m ==> #[trigger] nexts2@[q] == nexts@[q] + offset,
                nexts2@.len() == m,
            decreases m - j,
        {
            if j >= m {
                break ;
            }
            proof {
                assert(blocks_dv(vb0)[k as int].nexts[j as int] < blocks_dv(vb0).len());
            }
            let x = nexts[j] + offset;
            nexts2.push(x);
            j += 1;
        }
        let ghost cur = blocks_dv(basicblocks@);
        basicblocks.push(BasicBlock { statements, nexts: nexts2 });
        proof {
            let newb = blocks_dv(basicblocks@)[(offset + k) as int];
            assert(newb.statements =~= sh[k as int].statements);
            assert(newb.nexts =~= sh[k as int].nexts);
            assert(blocks_dv(basicblocks@) =~= cur.push(sh[k as int]));
            assert(cur.push(sh[k as int]) =~= base + sh.take(k + 1));
        }
    }
    proof {
        assert(sh.take(vb0.len() as int) =~= sh);
    }
}

/// Lowers an `if` statement: the condition and terminator stay in the
/// current block, the branch bodies become fresh blocks, and lowering
/// continues in a new empty join block; returns the join block's first
/// register number.
#[verifier::rlimit(100)]
fn if_op(
    children: &Vec<AST>,
    program: &Program,
    vars: &mut Vec<(String, usize)>,
    basicblocks: &mut Vec<BasicBlock>,
    regcount: usize,
) -> (r: Option<usize>)
    requires
        old(basicblocks)@.len() >= 1,
    ensures
        match r {
            Some(rc2) => spec_if_g(
                asts_dv(children@),
                program.deep_view(),
                vars_dv(old(vars)@),
                blocks_dv(old(basicblocks)@),
                regcount as nat,
            ) == Some(
                (
                    blocks_dv(final(basicblocks)@),
                    vars_dv(final(vars)@),
                    rc2 as nat,
                ),
            ) && final(basicblocks)@.len() >= 1,
            None => spec_if_g(
                asts_dv(children@),
                program.deep_view(),
                vars_dv(old(vars)@),
                blocks_dv(old(basicblocks)@),
                regcount as nat,
            ) is None,
        },
    decreases children@, 1int,
{
    let ghost pv = program.deep_view();
    let ghost vv0 = vars_dv(vars@);
    let ghost b0dv = blocks_dv(basicblocks@);
    let ghost cdv = asts_dv(children@);
    proof {
        crate::parse::lemma_asts_dv_len(children@);
    }
    if children.len() < 2 {
        return None;
    }
    proof {
        crate::parse::lemma_asts_dv_index(children@, 0);
        crate::parse::lemma_asts_dv_index(children@, 1);
        if children@.len() >= 3 {
            crate::parse::lemma_asts_dv_index(children@, 2);
        }
    }
    let orig_len = basicblocks.len();
    let bb = match basicblocks.pop() {
        Some(b) => b,
        None => {
            proof {
                assert(false);
            }
            return None;
        },
    };
    let BasicBlock { statements: mut stmts, nexts: mut nexts } = bb;
    proof {
        assert(b0dv.last().statements =~= stmts_dv(stmts@));
        assert(b0dv.last().nexts =~= Seq::new(nexts@.len(), |q: int| nexts@[q] as nat));
    }
    let condv = match expression(&children[0], program, vars, &mut stmts, regcount) {
        Some(v) => v,
        None => {
            return None;
        },
    };
    let nrc = match regcount.checked_add(stmts.len()) {
        Some(x) => match x.checked_add(1) {
            Some(y) => y,
            None => return None,
        },
        None => return None,
    };
    let (vb, end1) = match statement(&children[1], program, vars, nrc) {
        Some(x) => x,
        None => return None,
    };
    proof {
        lemma_statement_g_wf(cdv[1], pv, vv0, nrc as nat);
    }
    let lastlen = vb[vb.len() - 1].statements.len();
    let ghost vbdv = blocks_dv(vb@);
    let ghost vars1 = vars_dv(vars@);
    let offset = orig_len;
    let total = match offset.checked_add(vb.len()) {
        Some(t) => t,
        None => return None,
    };
    let ghost stmts1 = stmts_dv(stmts@);
    let args = vec![condv];
    proof {
        assert(Seq::new(args@.len(), |q: int| args@[q].deep_view()) =~= seq![condv.deep_view()]);
    }
    let ghost b0new = BasicBlockV {
        statements: stmts1.push(
            StatementV { op: OperatorV::If, ret: None, args: seq![condv.deep_view()] },
        ),
        nexts: b0dv.last().nexts.push(offset as nat),
    };
    let ghost blocks1g = b0dv.update(offset - 1, b0new) + shift_nexts(vbdv, offset as nat);
    stmts.push(Statement { op: Operator::If, ret: None, args });
    nexts.push(offset);
    basicblocks.push(BasicBlock { statements: stmts, nexts });
    proof {
        assert(blocks_dv(basicblocks@)[offset - 1].statements =~= b0new.statements);
        assert(blocks_dv(basicblocks@)[offset - 1].nexts =~= b0new.nexts);
        assert(blocks_dv(basicblocks@) =~= b0dv.update(offset - 1, b0new));
    }
    merge_blocks(basicblocks, vb, offset);
    proof {
        assert(blocks_dv(basicblocks@) == blocks1g);
        assert(vbdv.last().statements.len() == lastlen);
    }
    if children.len() == 3 {
        // else branch: terminate the then branch with a jump, lower the
        // else body, and join
        let bb2 = match basicblocks.pop() {
            Some(b) => b,
            None => {
                proof {
                    assert(false);
                }
                return None;
            },
        };
        let BasicBlock { statements: mut st2, nexts: nx2 } = bb2;
        let st2len = st2.len();
        let erc = match end1.checked_add(st2len) {
            Some(x) => match x.checked_add(1) {
                Some(y) => y,
                None => return None,
            },
            None => return None,
        };
        let ghost st2dv = stmts_dv(st2@);
        let jargs: Vec<Value> = Vec::new();
        proof {
            assert(Seq::new(jargs@.len(), |q: int| jargs@[q].deep_view()) =~= Seq::<
                ValueV,
            >::empty());
        }
        st2.push(Statement { op: Operator::Jump, ret: None, args: jargs });
        basicblocks.push(BasicBlock { statements: st2, nexts: nx2 });
        let offset2 = basicblocks.len();
        let ghost vv1 = vars_dv(vars@);
        let (vb2, end2) = match statement(&children[2], program, vars, erc) {
            Some(x) => x,
            None => return None,
        };
        proof {
            lemma_statement_g_wf(cdv[2], pv, vv1, erc as nat);
        }
        let lastlen2 = vb2[vb2.len() - 1].statements.len();
        let ghost vb2dv = blocks_dv(vb2@);
        let ghost vars2 = vars_dv(vars@);
        let total2 = match offset2.checked_add(vb2.len()) {
            Some(t) => t,
            None => return None,
        };
        let ghost blocks2g = blocks1g.update(
            blocks1g.len() - 1,
            BasicBlockV {
                statements: blocks1g[blocks1g.len() - 1].statements.push(
                    StatementV { op: OperatorV::Jump, ret: None, args: seq![] },
                ),
                nexts: blocks1g[blocks1g.len() - 1].nexts,
            },
        );
        proof {
            assert(blocks_dv(basicblocks@)[blocks1g.len() - 1].statements
                =~= blocks2g[blocks1g.len() - 1].statements);
            assert(blocks_dv(basicblocks@)[blocks1g.len() - 1].nexts
                =~= blocks2g[blocks1g.len() - 1].nexts);
            assert(blocks_dv(basicblocks@) =~= blocks2g);
        }
        merge_blocks(basicblocks, vb2, offset2);
        let ghost blocks3g = blocks2g + shift_nexts(vb2dv, offset2 as nat);
        proof {
            assert(blocks_dv(basicblocks@) == blocks3g);
            assert(vb2dv.last().statements.len() == lastlen2);
        }
        let jb = match end2.checked_add(lastlen2) {
            Some(x) => x,
            None => return None,
        };
        let jidx = basicblocks.len();
        patch_edge(basicblocks, offset - 1, offset2);
        let ghost blocks4g = blocks3g.update(
            offset - 1,
            BasicBlockV {
                statements: blocks3g[offset - 1].statements,
                nexts: blocks3g[offset - 1].nexts.push(offset2 as nat),
            },
        );
        proof {
            assert(blocks_dv(basicblocks@) == blocks4g);
        }
        patch_edge(basicblocks, offset2 - 1, jidx);
        let ghost blocks5g = blocks4g.update(
            offset2 - 1,
            BasicBlockV {
                statements: blocks4g[offset2 - 1].statements,
                nexts: blocks4g[offset2 - 1].nexts.push(jidx as nat),
            },
        );
        proof {
            assert(blocks_dv(basicblocks@) == blocks5g);
        }
        patch_edge(basicblocks, jidx - 1, jidx);
        let ghost blocks6g = blocks5g.update(
            jidx - 1,
            BasicBlockV {
                statements: blocks5g[jidx - 1].statements,
                nexts: blocks5g[jidx - 1].nexts.push(jidx as nat),
            },
        );
        proof {
            assert(blocks_dv(basicblocks@) == blocks6g);
        }
        basicblocks.push(BasicBlock { statements: Vec::new(), nexts: Vec::new() });
        proof {
            assert(blocks_dv(basicblocks@).last().statements =~= Seq::<StatementV>::empty());
            assert(blocks_dv(basicblocks@).last().nexts =~= Seq::<nat>::empty());
            assert(blocks_dv(basicblocks@) =~= blocks6g.push(
                BasicBlockV { statements: seq![], nexts: seq![] },
            ));
            assert(spec_if_else_g(cdv[2], pv, vars1, blocks1g, offset as nat, end1 as nat) == Some(
                (blocks_dv(basicblocks@), vars_dv(vars@), jb as nat),
            ));
            assert(spec_if_g(cdv, pv, vv0, b0dv, regcount as nat) == Some(
                (blocks_dv(basicblocks@), vars_dv(vars@), jb as nat),
            ));
        }
        Some(jb)
    } else {
        let jb = match end1.checked_add(lastlen) {
            Some(x) => x,
            None => return None,
        };
        let jidx = basicblocks.len();
        patch_edge(basicblocks, offset - 1, jidx);
        let ghost blocks2g = blocks1g.update(
            offset - 1,
            BasicBlockV {
                statements: blocks1g[offset - 1].statements,
                nexts: blocks1g[offset - 1].nexts.push(jidx as nat),
            },
        );
        proof {
            assert(blocks_dv(basicblocks@) == blocks2g);
        }
        patch_edge(basicblocks, jidx - 1, jidx);
        let ghost blocks3g = blocks2g.update(
            jidx - 1,
            BasicBlockV {
                statements: blocks2g[jidx - 1].statements,
                nexts: blocks2g[jidx - 1].nexts.push(jidx as nat),
            },
        );
        proof {
            assert(blocks_dv(basicblocks@) == blocks3g);
        }
        basicblocks.push(BasicBlock { statements: Vec::new(), nexts: Vec::new() });
        proof {
            assert(blocks_dv(basicblocks@).last().statements =~= Seq::<StatementV>::empty());
            assert(blocks_dv(basicblocks@).last().nexts =~= Seq::<nat>::empty());
            assert(blocks_dv(basicblocks@) =~= blocks3g.push(
                BasicBlockV { statements: seq![], nexts: seq![] },
            ));
            assert(spec_if_g(cdv, pv, vv0, b0dv, regcount as nat) == Some(
                (blocks_dv(basicblocks@), vars_dv(vars@), jb as nat),
            ));
        }
        Some(jb)
    }
}

/// Lowers one statement of a body into the current state; returns the
/// current block's first register number afterwards.
fn statement_impl(
    ast: &AST,
    program: &Program,
    vars: &mut Vec<(String, usize)>,
    basicblocks: &mut Vec<BasicBlock>,
    regcount: usize,
) -> (r: Option<usize>)
    requires
        old(basicblocks)@.len() >= 1,
    ensures
        match r {
            Some(rc2) => spec_statement_impl_g(
                ast_dv(*ast),
                program.deep_view(),
                vars_dv(old(vars)@),
                blocks_dv(old(basicblocks)@),
                regcount as nat,
            ) == Some(
                (
                    blocks_dv(final(basicblocks)@),
                    vars_dv(final(vars)@),
                    rc2 as nat,
                ),
            ) && final(basicblocks)@.len() >= 1,
            None => spec_statement_impl_g(
                ast_dv(*ast),
                program.deep_view(),
                vars_dv(old(vars)@),
                blocks_dv(old(basicblocks)@),
                regcount as nat,
            ) is None,
        },
    decreases ast, 2int,
{
    let ghost pv = program.deep_view();
    let ghost b0dv = blocks_dv(basicblocks@);
    match ast {
        AST::Node(node) => {
            match &node.op {
                Operator::Substitute => {
                    let bb = match basicblocks.pop() {
                        Some(b) => b,
                        None => {
                            proof {
                                assert(false);
                            }
                            return None;
                        },
                    };
                    let BasicBlock { statements: mut stmts, nexts } = bb;
                    proof {
                        assert(b0dv.last().statements =~= stmts_dv(stmts@));
                    }
                    let ok = substitute(&node.children, program, vars, &mut stmts, regcount);
                    basicblocks.push(BasicBlock { statements: stmts, nexts });
                    match ok {
                        Some(_) => {
                            proof {
                                let upd = BasicBlockV {
                                    statements: stmts_dv(stmts@),
                                    nexts: b0dv.last().nexts,
                                };
                                assert(blocks_dv(basicblocks@)[b0dv.len() - 1].statements
                                    =~= stmts_dv(stmts@));
                                assert(blocks_dv(basicblocks@)[b0dv.len() - 1].nexts
                                    =~= b0dv.last().nexts);
                                assert(blocks_dv(basicblocks@) =~= b0dv.update(
                                    b0dv.len() - 1,
                                    upd,
                                ));
                            }
                            Some(regcount)
                        },
                        None => None,
                    }
                },
                Operator::Call { name } => {
                    let bb = match basicblocks.pop() {
                        Some(b) => b,
                        None => {
                            proof {
                                assert(false);
                            }
                            return None;
                        },
                    };
                    let BasicBlock { statements: mut stmts, nexts } = bb;
                    proof {
                        assert(b0dv.last().statements =~= stmts_dv(stmts@));
                    }
                    let ok = call(name.as_str(), &node.children, program, vars, &mut stmts, regcount);
                    basicblocks.push(BasicBlock { statements: stmts, nexts });
                    match ok {
                        Some(_) => {
                            proof {
                                let upd = BasicBlockV {
                                    statements: stmts_dv(stmts@),
                                    nexts: b0dv.last().nexts,
                                };
                                assert(blocks_dv(basicblocks@)[b0dv.len() - 1].statements
                                    =~= stmts_dv(stmts@));
                                assert(blocks_dv(basicblocks@)[b0dv.len() - 1].nexts
                                    =~= b0dv.last().nexts);
                                assert(blocks_dv(basicblocks@) =~= b0dv.update(
                                    b0dv.len() - 1,
                                    upd,
                                ));
                            }
                            Some(regcount)
                        },
                        None => None,
                    }
                },
                Operator::If => if_op(&node.children, program, vars, basicblocks, regcount),
                Operator::Return => {
                    let bb = match basicblocks.pop() {
                        Some(b) => b,
                        None => {
                            proof {
                                assert(false);
                            }
                            return None;
                        },
                    };
                    let BasicBlock { statements: mut stmts, nexts } = bb;
                    proof {
                        assert(b0dv.last().statements =~= stmts_dv(stmts@));
                    }
                    let ok = return_op(&node.children, program, vars, &mut stmts, regcount);
                    basicblocks.push(BasicBlock { statements: stmts, nexts });
                    if ok {
                        proof {
                            let upd = BasicBlockV {
                                statements: stmts_dv(stmts@),
                                nexts: b0dv.last().nexts,
                            };
                            assert(blocks_dv(basicblocks@)[b0dv.len() - 1].statements
                                =~= stmts_dv(stmts@));
                            assert(blocks_dv(basicblocks@)[b0dv.len() - 1].nexts
                                =~= b0dv.last().nexts);
                            assert(blocks_dv(basicblocks@) =~= b0dv.update(b0dv.len() - 1, upd));
                        }
                        Some(regcount)
                    } else {
                        None
                    }
                },
                _ => None,
            }
        },
        AST::Leaf(_) => None,
    }
}

/// Lowers a statement body into a fresh block vector; returns the blocks
/// and the register number that the next statement slot would take.
#[verifier::rlimit(100)]
fn statement(
    ast: &AST,
    program: &Program,
    vars: &mut Vec<(String, usize)>,
    regcount: usize,
) -> (r: Option<(Vec<BasicBlock>, usize)>)
    ensures
        match r {
            Some((blocks, end)) => spec_statement_g(
                ast_dv(*ast),
                program.deep_view(),
                vars_dv(old(vars)@),
                regcount as nat,
            ) == Some(
                (blocks_dv(blocks@), vars_dv(final(vars)@), end as nat),
            ) && blocks@.len() >= 1,
            None => spec_statement_g(
                ast_dv(*ast),
                program.deep_view(),
                vars_dv(old(vars)@),
                regcount as nat,
            ) is None,
        },
    decreases ast, 4int,
{
    let ghost pv = program.deep_view();
    let ghost vv0 = vars_dv(vars@);
    match ast {
        AST::Node(node) => {
            if !(matches!(node.op, Operator::Statement)) {
                return None;
            }
            let mut basicblocks: Vec<BasicBlock> = Vec::new();
            basicblocks.push(BasicBlock { statements: Vec::new(), nexts: Vec::new() });
            let ghost blocks0 = seq![BasicBlockV { statements: seq![], nexts: seq![] }];
            proof {
                assert(blocks_dv(basicblocks@)[0].statements =~= Seq::<StatementV>::empty());
                assert(blocks_dv(basicblocks@)[0].nexts =~= Seq::<nat>::empty());
                assert(blocks_dv(basicblocks@) =~= blocks0);
                crate::parse::lemma_asts_dv_len(node.children@);
            }
            let ghost cdv = asts_dv(node.children@);
            let ghost astv = ast_dv(*ast);
            proof {
                assert(spec_statement_g(astv, pv, vv0, regcount as nat) == spec_stmts_g(
                    cdv,
                    0,
                    pv,
                    vv0,
                    blocks0,
                    regcount as nat,
                ));
            }
            let mut rc: usize = regcount;
            let mut i: usize = 0;
            let n = node.children.len();
            loop
                invariant
                    i <= n,
                    n == node.children@.len(),
                    *ast == AST::Node(*node),
                    pv == program.deep_view(),
                    vv0 == vars_dv(old(vars)@),
                    astv == ast_dv(*ast),
                    cdv == asts_dv(node.children@),
                    cdv.len() == n,
                    basicblocks@.len() >= 1,
                    spec_statement_g(astv, pv, vv0, regcount as nat) == spec_stmts_g(
                        cdv,
                        i as int,
                        pv,
                        vars_dv(vars@),
                        blocks_dv(basicblocks@),
                        rc as nat,
                    ),
                ensures
                    i == n,
                    basicblocks@.len() >= 1,
                    spec_statement_g(astv, pv, vv0, regcount as nat) == Some(
                        (blocks_dv(basicblocks@), vars_dv(vars@), rc as nat),
                    ),
                decreases n - i,
            {
                if i >= n {
                    break ;
                }
                let child = &node.children[i];
                let ghost vcur = vars_dv(vars@);
                let ghost bcur = blocks_dv(basicblocks@);
                proof {
                    crate::parse::lemma_asts_dv_index(node.children@, i as int);
                    assert(cdv[i as int] == ast_dv(*child));
                }
                match statement_impl(child, program, vars, &mut basicblocks, rc) {
                    Some(rc2) => {
                        proof {
                            assert(spec_statement_impl_g(cdv[i as int], pv, vcur, bcur, rc as nat)
                                == Some(
                                (blocks_dv(basicblocks@), vars_dv(vars@), rc2 as nat),
                            ));
                        }
                        rc = rc2;
                    },
                    None => {
                        proof {
                            assert(spec_statement_impl_g(cdv[i as int], pv, vcur, bcur, rc as nat)
                                is None);
                            assert(spec_stmts_g(cdv, i as int, pv, vcur, bcur, rc as nat)
                                is None);
                        }
                        return None;
                    },
                }
                i += 1;
            }
            Some((basicblocks, rc))
        },
        AST::Leaf(_) => None,
    }
}

/// The pre-registered builtin functions, in name order: `getchar` and
/// `getnum` read one value, `putchar` and `putnum` write their argument,
/// and `halt` stops execution. Builtins have no blocks.
pub open spec fn spec_program_new() -> ProgramV {
    ProgramV {
        funcs: seq![
            FunctionV { name: "getchar"@, args: seq![], retnum: 1, basicblocks: seq![] },
            FunctionV { name: "getnum"@, args: seq![], retnum: 1, basicblocks: seq![] },
            FunctionV { name: "halt"@, args: seq![], retnum: 0, basicblocks: seq![] },
            FunctionV { name: "putchar"@, args: seq!["x"@], retnum: 0, basicblocks: seq![] },
            FunctionV { name: "putnum"@, args: seq!["x"@], retnum: 0, basicblocks: seq![] },
        ],
    }
}

/// A function's table entry before its body is lowered: name, parameters
/// and return count, with an empty body, so that forward references and
/// mutual recursion resolve.
pub open spec fn spec_pre_declare_function(node: NodeV) -> Option<FunctionV> {
    match node.op {
        OperatorV::FunctionDeclare { name, args, retnum } => Some(
            FunctionV { name, args, retnum, basicblocks: seq![] },
        ),
        _ => None,
    }
}

/// Lowers a function declaration: the parameters take registers `0` to
/// `N - 1`, the body is lowered from register `N` on, and a function with
/// return count zero, other than `main`, ends in a synthesized `Return`.
pub open spec fn spec_function_g(node: NodeV, prog: ProgramV) -> Option<FunctionV> {
    match node.op {
        OperatorV::FunctionDeclare { name, args, retnum } => if node.children.len() < 1 || args.len()
            > usize::MAX {
            None
        } else {
            let vars0 = Seq::new(args.len(), |i: int| (args[i], i as nat));
            match spec_statement_g(node.children[0], prog, vars0, args.len() as nat) {
                None => None,
                Some((blocks, vars1, end)) => {
                    let blocks2 = if retnum == 0 && name != "main"@ {
                        blocks.update(
                            blocks.len() - 1,
                            BasicBlockV {
                                statements: blocks.last().statements.push(
                                    StatementV { op: OperatorV::Return, ret: None, args: seq![] },
                                ),
                                nexts: blocks.last().nexts,
                            },
                        )
                    } else {
                        blocks
                    };
                    Some(FunctionV { name, args, retnum, basicblocks: blocks2 })
                },
            }
        },
        _ => None,
    }
}

/// Registers a function's header in the program table.
pub open spec fn spec_pre_declare(ast: AstV, prog: ProgramV) -> Option<ProgramV> {
    match ast {
        AstV::Node(node) => match spec_pre_declare_function(node) {
            Some(f) => Some(ProgramV { funcs: spec_program_insert(prog.funcs, f) }),
            None => None,
        },
        _ => None,
    }
}

/// Lowers a function declaration and enters it in the program table.
pub open spec fn spec_declare(ast: AstV, prog: ProgramV) -> Option<ProgramV> {
    match ast {
        AstV::Node(node) => match spec_function_g(node, prog) {
            Some(f) => Some(ProgramV { funcs: spec_program_insert(prog.funcs, f) }),
            None => None,
        },
        _ => None,
    }
}

/// Registers the headers of the declarations from position `i` on.
pub open spec fn spec_predecl_loop(children: Seq<AstV>, i: int, prog: ProgramV) -> Option<ProgramV>
    decreases children.len() - i,
{
    if i < 0 {
        None
    } else if i >= children.len() {
        Some(prog)
    } else {
        match spec_pre_declare(children[i], prog) {
            Some(p1) => spec_predecl_loop(children, i + 1, p1),
            None => None,
        }
    }
}

/// Lowers the declarations from position `i` on.
pub open spec fn spec_decl_loop(children: Seq<AstV>, i: int, prog: ProgramV) -> Option<ProgramV>
    decreases children.len() - i,
{
    if i < 0 {
        None
    } else if i >= children.len() {
        Some(prog)
    } else {
        match spec_declare(children[i], prog) {
            Some(p1) => spec_decl_loop(children, i + 1, p1),
            None => None,
        }
    }
}

/// Lowers a whole program: the builtins are pre-registered, a first pass
/// registers every user function's header, and a second pass lowers each
/// body, so forward references and mutual recursion resolve.
pub open spec fn spec_generate(ast: AstV) -> Option<ProgramV> {
    match ast {
        AstV::Node(node) => if node.op == OperatorV::Declare {
            match spec_predecl_loop(node.children, 0, spec_program_new()) {
                None => None,
                Some(p1) => spec_decl_loop(node.children, 0, p1),
            }
        } else {
            None
        },
        _ => None,
    }
}

/// Copies a vector of names.
fn clone_strings(v: &Vec<String>) -> (r: Vec<String>)
    ensures
        strs_dv(r@) == strs_dv(v@),
{
    let mut r: Vec<String> = Vec::new();
    let n = v.len();
    let mut i: usize = 0;
    loop
        invariant
            i <= n,
            n == v@.len(),
            r@.len() == i,
            forall|k: int| 0 <= k < i ==> #[trigger] r@[k]@ == v@[k]@,
        ensures
            i == n,
            strs_dv(r@) =~= strs_dv(v@),
        decreases n - i,
    {
        if i >= n {
            proof {
                assert(strs_dv(r@) =~= strs_dv(v@));
            }
            break ;
        }
        r.push(v[i].clone());
        i += 1;
    }
    r
}

/// Builds a function's table entry before its body is lowered.
fn pre_declare_function(node: &Node, program: &Program) -> (r: Option<Function>)
    ensures
        match r {
            Some(f) => spec_pre_declare_function(crate::parse::node_dv(*node)) == Some(
                f.deep_view(),
            ),
            None => spec_pre_declare_function(crate::parse::node_dv(*node)) is None,
        },
{
    match &node.op {
        Operator::FunctionDeclare { name, args, retnum } => {
            let f = Function {
                name: name.clone(),
                args: clone_strings(args),
                retnum: *retnum,
                basicblocks: Vec::new(),
            };
            proof {
                assert(f.deep_view().basicblocks =~= Seq::<BasicBlockV>::empty());
            }
            Some(f)
        },
        _ => None,
    }
}

/// Lowers one function declaration into a table entry.
fn function(node: &Node, program: &Program) -> (r: Option<Function>)
    ensures
        match r {
            Some(f) => spec_function_g(crate::parse::node_dv(*node), program.deep_view()) == Some(
                f.deep_view(),
            ),
            None => spec_function_g(crate::parse::node_dv(*node), program.deep_view()) is None,
        },
{
    let ghost pv = program.deep_view();
    match &node.op {
        Operator::FunctionDeclare { name, args, retnum } => {
            proof {
                crate::parse::lemma_asts_dv_len(node.children@);
            }
            if node.children.len() < 1 {
                return None;
            }
            proof {
                crate::parse::lemma_asts_dv_index(node.children@, 0);
            }
            let ghost argsv = strs_dv(args@);
            let ghost vars0 = Seq::new(argsv.len(), |i: int| (argsv[i], i as nat));
            let mut vars: Vec<(String, usize)> = Vec::new();
            let nargs = args.len();
            let mut i: usize = 0;
            loop
                invariant
                    i <= nargs,
                    nargs == args@.len(),
                    argsv == strs_dv(args@),
                    vars0 == Seq::new(argsv.len(), |k: int| (argsv[k], k as nat)),
                    vars@.len() == i,
                    forall|k: int|
                        0 <= k < i ==> #[trigger] vars@[k].0@ == argsv[k] && vars@[k].1 == k,
                ensures
                    i == nargs,
                    vars_dv(vars@) =~= vars0,
                decreases nargs - i,
            {
                if i >= nargs {
                    proof {
                        assert(vars_dv(vars@) =~= vars0);
                    }
                    break ;
                }
                vars.push((args[i].clone(), i));
                i += 1;
            }
            match statement(&node.children[0], program, &mut vars, nargs) {
                Some((blocks, _end)) => {
                    let mut basicblocks = blocks;
                    let ghost bdv = blocks_dv(basicblocks@);
                    if *retnum == 0 && !str_eq(name.as_str(), "main") {
                        let bb = match basicblocks.pop() {
                            Some(b) => b,
                            None => {
                                proof {
                                    assert(false);
                                }
                                return None;
                            },
                        };
                        let BasicBlock { statements: mut stmts, nexts } = bb;
                        let ghost st0 = stmts_dv(stmts@);
                        let rargs: Vec<Value> = Vec::new();
                        proof {
                            assert(Seq::new(rargs@.len(), |q: int| rargs@[q].deep_view()) =~= Seq::<
                                ValueV,
                            >::empty());
                            assert(bdv.last().statements =~= st0);
                        }
                        stmts.push(Statement { op: Operator::Return, ret: None, args: rargs });
                        basicblocks.push(BasicBlock { statements: stmts, nexts });
                        proof {
                            let upd = BasicBlockV {
                                statements: bdv.last().statements.push(
                                    StatementV { op: OperatorV::Return, ret: None, args: seq![] },
                                ),
                                nexts: bdv.last().nexts,
                            };
                            assert(blocks_dv(basicblocks@)[bdv.len() - 1].statements
                                =~= upd.statements);
                            assert(blocks_dv(basicblocks@)[bdv.len() - 1].nexts =~= upd.nexts);
                            assert(blocks_dv(basicblocks@) =~= bdv.update(bdv.len() - 1, upd));
                        }
                    }
                    let f = Function {
                        name: name.clone(),
                        args: clone_strings(args),
                        retnum: *retnum,
                        basicblocks,
                    };
                    proof {
                        assert(f.deep_view().basicblocks =~= blocks_dv(f.basicblocks@));
                    }
                    Some(f)
                },
                None => None,
            }
        },
        _ => None,
    }
}

/// Registers a declaration's header in the program table.
fn pre_declare(ast: &AST, program: &mut Program) -> (r: bool)
    ensures
        match spec_pre_declare(ast_dv(*ast), old(program).deep_view()) {
            Some(p1) => r && final(program).deep_view() == p1,
            None => !r,
        },
{
    match ast {
        AST::Node(node) => {
            match pre_declare_function(node, program) {
                Some(func) => {
                    program_insert(program, func);
                    true
                },
                None => false,
            }
        },
        AST::Leaf(_) => false,
    }
}

/// Lowers a declaration and enters it in the program table.
fn declare(ast: &AST, program: &mut Program) -> (r: bool)
    ensures
        match spec_declare(ast_dv(*ast), old(program).deep_view()) {
            Some(p1) => r && final(program).deep_view() == p1,
            None => !r,
        },
{
    match ast {
        AST::Node(node) => {
            match function(node, program) {
                Some(func) => {
                    program_insert(program, func);
                    true
                },
                None => false,
            }
        },
        AST::Leaf(_) => false,
    }
}

impl Program {
    /// The program table with the five builtins pre-registered.
    pub fn new() -> (r: Program)
        ensures
            r.deep_view() == spec_program_new(),
    {
        let getchar = Function {
            name: "getchar".to_owned(),
            args: Vec::new(),
            retnum: 1,
            basicblocks: Vec::new(),
        };
        let getnum = Function {
            name: "getnum".to_owned(),
            args: Vec::new(),
            retnum: 1,
            basicblocks: Vec::new(),
        };
        let halt = Function {
            name: "halt".to_owned(),
            args: Vec::new(),
            retnum: 0,
            basicblocks: Vec::new(),
        };
        let putchar = Function {
            name: "putchar".to_owned(),
            args: vec!["x".to_owned()],
            retnum: 0,
            basicblocks: Vec::new(),
        };
        let putnum = Function {
            name: "putnum".to_owned(),
            args: vec!["x".to_owned()],
            retnum: 0,
            basicblocks: Vec::new(),
        };
        let ghost gcv = getchar.deep_view();
        let ghost gnv = getnum.deep_view();
        let ghost hv = halt.deep_view();
        let ghost pcv = putchar.deep_view();
        let ghost pnv = putnum.deep_view();
        proof {
            assert(gcv.args =~= Seq::<Seq<char>>::empty());
            assert(gcv.basicblocks =~= Seq::<BasicBlockV>::empty());
            assert(gnv.args =~= Seq::<Seq<char>>::empty());
            assert(gnv.basicblocks =~= Seq::<BasicBlockV>::empty());
            assert(hv.args =~= Seq::<Seq<char>>::empty());
            assert(hv.basicblocks =~= Seq::<BasicBlockV>::empty());
            assert(pcv.args =~= seq!["x"@]);
            assert(pcv.basicblocks =~= Seq::<BasicBlockV>::empty());
            assert(pnv.args =~= seq!["x"@]);
            assert(pnv.basicblocks =~= Seq::<BasicBlockV>::empty());
        }
        let funcs = vec![getchar, getnum, halt, putchar, putnum];
        let program = Program { funcs };
        proof {
            assert(program.deep_view().funcs =~= seq![gcv, gnv, hv, pcv, pnv]);
            assert(program.deep_view() == spec_program_new());
        }
        program
    }
}

/// Lowers a whole syntax tree to a program: builtins first, then every
/// user function's header, then each body. A produced program is
/// well-formed: register definitions dominate uses, and every lowered
/// function's block graph has in-range, strictly forward successor edges
/// under which every block is reachable from the entry block.
pub fn generate(ast: &AST) -> (r: Option<Program>)
    ensures
        match r {
            Some(p) => spec_generate(ast_dv(*ast)) == Some(p.deep_view()) && prog_wf(
                p.deep_view(),
            ),
            None => spec_generate(ast_dv(*ast)) is None,
        },
{
    let ghost astv = ast_dv(*ast);
    match ast {
        AST::Node(node) => {
            if !(matches!(node.op, Operator::Declare)) {
                return None;
            }
            let mut program = Program::new();
            let ghost cdv = asts_dv(node.children@);
            let ghost p0 = spec_program_new();
            proof {
                crate::parse::lemma_asts_dv_len(node.children@);
            }
            let n = node.children.len();
            let mut i: usize = 0;
            loop
                invariant
                    i <= n,
                    n == node.children@.len(),
                    *ast == AST::Node(*node),
                    astv == ast_dv(*ast),
                    cdv == asts_dv(node.children@),
                    cdv.len() == n,
                    p0 == spec_program_new(),
                    spec_predecl_loop(cdv, 0, p0) == spec_predecl_loop(
                        cdv,
                        i as int,
                        program.deep_view(),
                    ),
                ensures
                    i == n,
                    spec_predecl_loop(cdv, 0, p0) == Some(program.deep_view()),
                decreases n - i,
            {
                if i >= n {
                    break ;
                }
                let child = &node.children[i];
                proof {
                    crate::parse::lemma_asts_dv_index(node.children@, i as int);
                }
                if !pre_declare(child, &mut program) {
                    return None;
                }
                i += 1;
            }
            let ghost p1 = program.deep_view();
            let mut j: usize = 0;
            loop
                invariant
                    j <= n,
                    n == node.children@.len(),
                    *ast == AST::Node(*node),
                    astv == ast_dv(*ast),
                    cdv == asts_dv(node.children@),
                    cdv.len() == n,
                    p0 == spec_program_new(),
                    spec_predecl_loop(cdv, 0, p0) == Some(p1),
                    spec_decl_loop(cdv, 0, p1) == spec_decl_loop(
                        cdv,
                        j as int,
                        program.deep_view(),
                    ),
                ensures
                    j == n,
                    spec_decl_loop(cdv, 0, p1) == Some(program.deep_view()),
                    spec_predecl_loop(cdv, 0, p0) == Some(p1),
                decreases n - j,
            {
                if j >= n {
                    break ;
                }
                let child = &node.children[j];
                proof {
                    crate::parse::lemma_asts_dv_index(node.children@, j as int);
                }
                if !declare(child, &mut program) {
                    return None;
                }
                j += 1;
            }
            proof {
                lemma_generate_wf(astv);
            }
            Some(program)
        },
        AST::Leaf(_) => None,
    }
}

/// A register found in the scope is below the scope's bound.
proof fn lemma_vars_lookup_below(vars: Seq<(Seq<char>, nat)>, name: Seq<char>, n: int)
    requires
        vars_below(vars, n),
        spec_vars_lookup(vars, name) is Some,
    ensures
        spec_vars_lookup(vars, name)->Some_0 < n,
    decreases vars.len(),
{
    if vars.len() > 0 && vars[0].0 != name {
        assert(vars_below(vars.skip(1), n)) by {
            assert(forall|i: int|
                0 <= i < vars.skip(1).len() ==> #[trigger] vars.skip(1)[i] == vars[i + 1]);
        }
        lemma_vars_lookup_below(vars.skip(1), name, n);
    }
}

/// Lowering an expression emits statements whose register arguments are
/// below their results, and yields a value below the next register.
proof fn lemma_expr_g_regs(
    ast: AstV,
    prog: ProgramV,
    vars: Seq<(Seq<char>, nat)>,
    stmts: Seq<StatementV>,
    regcount: nat,
)
    requires
        vars_below(vars, regcount + stmts.len() as int),
        stmts_regs_wf(stmts),
        spec_expression_g(ast, prog, vars, stmts, regcount) is Some,
    ensures
        ({
            let (v, s2) = spec_expression_g(ast, prog, vars, stmts, regcount)->Some_0;
            &&& stmts_regs_wf(s2)
            &&& s2.len() >= stmts.len()
            &&& (v matches ValueV::Register(g) ==> g < regcount + s2.len() as int)
        }),
    decreases ast,
{
    match ast {
        AstV::Leaf(LeafV::Identifier(name)) => {
            lemma_vars_lookup_below(vars, name, regcount + stmts.len() as int);
        },
        AstV::Leaf(LeafV::Constant(_)) => {},
        AstV::Node(node) => {
            lemma_exprs_g_regs(node.children, 0, prog, vars, seq![], stmts, regcount);
            let (argv, s2) = spec_exprs_g(
                node.children,
                0,
                prog,
                vars,
                seq![],
                stmts,
                regcount,
            )->Some_0;
            let id = regcount + s2.len();
            let st = StatementV { op: node.op, ret: Some(id as nat), args: argv };
            assert(stmt_regs_wf(st));
            assert forall|k: int| 0 <= k < s2.push(st).len() implies stmt_regs_wf(
                #[trigger] s2.push(st)[k],
            ) by {
                if k < s2.len() {
                    assert(s2.push(st)[k] == s2[k]);
                }
            }
        },
    }
}

/// Lowering an argument list keeps the statement and value bounds.
proof fn lemma_exprs_g_regs(
    children: Seq<AstV>,
    i: int,
    prog: ProgramV,
    vars: Seq<(Seq<char>, nat)>,
    acc: Seq<ValueV>,
    stmts: Seq<StatementV>,
    regcount: nat,
)
    requires
        vars_below(vars, regcount + stmts.len() as int),
        stmts_regs_wf(stmts),
        val_regs_below(acc, regcount + stmts.len() as int),
        spec_exprs_g(children, i, prog, vars, acc, stmts, regcount) is Some,
    ensures
        ({
            let (vs, s2) = spec_exprs_g(children, i, prog, vars, acc, stmts, regcount)->Some_0;
            &&& stmts_regs_wf(s2)
            &&& s2.len() >= stmts.len()
            &&& val_regs_below(vs, regcount + s2.len() as int)
        }),
    decreases children, children.len() - i,
{
    if 0 <= i < children.len() {
        lemma_expr_g_regs(children[i], prog, vars, stmts, regcount);
        let (v, s1) = spec_expression_g(children[i], prog, vars, stmts, regcount)->Some_0;
        assert forall|j: int| 0 <= j < acc.push(v).len() implies match #[trigger] acc.push(
            v,
        )[j] {
            ValueV::Register(r) => r < regcount + s1.len() as int,
            _ => true,
        } by {
            if j < acc.len() {
                assert(acc.push(v)[j] == acc[j]);
            }
        }
        lemma_exprs_g_regs(children, i + 1, prog, vars, acc.push(v), s1, regcount);
    }
}

/// Lowering an assignment keeps the bounds and binds a register below the
/// next one.
proof fn lemma_substitute_g_regs(
    children: Seq<AstV>,
    prog: ProgramV,
    vars: Seq<(Seq<char>, nat)>,
    stmts: Seq<StatementV>,
    regcount: nat,
)
    requires
        vars_below(vars, regcount + stmts.len() as int),
        stmts_regs_wf(stmts),
        spec_substitute_g(children, prog, vars, stmts, regcount) is Some,
    ensures
        ({
            let (vars2, s2) = spec_substitute_g(children, prog, vars, stmts, regcount)->Some_0;
            &&& stmts_regs_wf(s2)
            &&& s2.len() >= stmts.len()
            &&& vars_below(vars2, regcount + s2.len() as int)
        }),
{
    lemma_expr_g_regs(children[1], prog, vars, stmts, regcount);
    let (v, s1) = spec_expression_g(children[1], prog, vars, stmts, regcount)->Some_0;
    let id = regcount + s1.len();
    let lhs = children[0]->Leaf_0->Identifier_0;
    let st = StatementV { op: OperatorV::Substitute, ret: Some(id as nat), args: seq![v] };
    assert(stmt_regs_wf(st));
    assert forall|k: int| 0 <= k < s1.push(st).len() implies stmt_regs_wf(
        #[trigger] s1.push(st)[k],
    ) by {
        if k < s1.len() {
            assert(s1.push(st)[k] == s1[k]);
        }
    }
    let vars2 = vars.push((lhs, id as nat));
    assert forall|k: int| 0 <= k < vars2.len() implies (#[trigger] vars2[k]).1 < regcount + s1.len() as int
        + 1 by {
        if k < vars.len() {
            assert(vars2[k] == vars[k]);
        }
    }
}

/// Lowering a call statement keeps the bounds.
proof fn lemma_call_g_regs(
    name: Seq<char>,
    children: Seq<AstV>,
    prog: ProgramV,
    vars: Seq<(Seq<char>, nat)>,
    stmts: Seq<StatementV>,
    regcount: nat,
)
    requires
        vars_below(vars, regcount + stmts.len() as int),
        stmts_regs_wf(stmts),
        spec_call_g(name, children, prog, vars, stmts, regcount) is Some,
    ensures
        ({
            let s2 = spec_call_g(name, children, prog, vars, stmts, regcount)->Some_0;
            &&& stmts_regs_wf(s2)
            &&& s2.len() >= stmts.len()
        }),
{
    lemma_exprs_g_regs(children, 0, prog, vars, seq![], stmts, regcount);
    let (argv, s1) = spec_exprs_g(children, 0, prog, vars, seq![], stmts, regcount)->Some_0;
    let id = regcount + s1.len();
    let st = StatementV { op: OperatorV::Call { name }, ret: Some(id as nat), args: argv };
    assert(stmt_regs_wf(st));
    assert forall|k: int| 0 <= k < s1.push(st).len() implies stmt_regs_wf(
        #[trigger] s1.push(st)[k],
    ) by {
        if k < s1.len() {
            assert(s1.push(st)[k] == s1[k]);
        }
    }
}

/// Lowering a return keeps the bounds.
proof fn lemma_return_g_regs(
    children: Seq<AstV>,
    prog: ProgramV,
    vars: Seq<(Seq<char>, nat)>,
    stmts: Seq<StatementV>,
    regcount: nat,
)
    requires
        vars_below(vars, regcount + stmts.len() as int),
        stmts_regs_wf(stmts),
        spec_return_g(children, prog, vars, stmts, regcount) is Some,
    ensures
        ({
            let s2 = spec_return_g(children, prog, vars, stmts, regcount)->Some_0;
            &&& stmts_regs_wf(s2)
            &&& s2.len() >= stmts.len()
        }),
{
    lemma_exprs_g_regs(children, 0, prog, vars, seq![], stmts, regcount);
    let (argv, s1) = spec_exprs_g(children, 0, prog, vars, seq![], stmts, regcount)->Some_0;
    let st = StatementV { op: OperatorV::Return, ret: None, args: argv };
    assert forall|k: int| 0 <= k < s1.push(st).len() implies stmt_regs_wf(
        #[trigger] s1.push(st)[k],
    ) by {
        if k < s1.len() {
            assert(s1.push(st)[k] == s1[k]);
        }
    }
}

/// Lowering an `if` keeps register dominance in every block and the scope
/// below the join block's first register.
proof fn lemma_if_g_regs(
    children: Seq<AstV>,
    prog: ProgramV,
    vars: Seq<(Seq<char>, nat)>,
    blocks: Seq<BasicBlockV>,
    regcount: nat,
)
    requires
        blocks_regs_wf(blocks),
        vars_below(vars, regcount + blocks.last().statements.len() as int),
        spec_if_g(children, prog, vars, blocks, regcount) is Some,
    ensures
        ({
            let (b2, vars2, rc2) = spec_if_g(children, prog, vars, blocks, regcount)->Some_0;
            &&& blocks_regs_wf(b2)
            &&& vars_below(vars2, rc2 + b2.last().statements.len() as int)
        }),
    decreases children, 1int,
{
    let cur = blocks.last();
    lemma_expr_g_regs(children[0], prog, vars, cur.statements, regcount);
    let (condv, stmts1) = spec_expression_g(
        children[0],
        prog,
        vars,
        cur.statements,
        regcount,
    )->Some_0;
    let nrc = regcount + stmts1.len() + 1;
    lemma_statement_g_regs(children[1], prog, vars, nrc as nat);
    let (vb, vars1, end1) = spec_statement_g(children[1], prog, vars, nrc as nat)->Some_0;
    let offset = blocks.len();
    let b0 = BasicBlockV {
        statements: stmts1.push(StatementV { op: OperatorV::If, ret: None, args: seq![condv] }),
        nexts: cur.nexts.push(offset as nat),
    };
    assert(stmts_regs_wf(b0.statements)) by {
        assert forall|k: int| 0 <= k < b0.statements.len() implies stmt_regs_wf(
            #[trigger] b0.statements[k],
        ) by {
            if k < stmts1.len() {
                assert(b0.statements[k] == stmts1[k]);
            }
        }
    }
    let blocksu = blocks.update(offset - 1, b0);
    let sh = shift_nexts(vb, offset as nat);
    let blocks1 = blocksu + sh;
    assert(blocks_regs_wf(blocks1)) by {
        assert forall|i: int| 0 <= i < blocks1.len() implies stmts_regs_wf(
            #[trigger] blocks1[i].statements,
        ) by {
            if i < offset - 1 {
                assert(blocks1[i] == blocks[i]);
            } else if i == offset - 1 {
                assert(blocks1[i] == b0);
            } else {
                assert(blocks1[i] == sh[i - offset]);
                assert(sh[i - offset].statements == vb[i - offset].statements);
            }
        }
    }
    if children.len() == 3 {
        lemma_if_else_g_regs(children[2], prog, vars1, blocks1, offset as nat, end1);
    } else {
        let jbase = end1 + vb.last().statements.len();
        let (b2, vars2, rc2) = spec_if_g(children, prog, vars, blocks, regcount)->Some_0;
        assert(b2.last().statements =~= Seq::<StatementV>::empty());
        assert(blocks_regs_wf(b2)) by {
            assert forall|i: int| 0 <= i < b2.len() implies stmts_regs_wf(
                #[trigger] b2[i].statements,
            ) by {
                if i < b2.len() - 1 {
                    assert(b2[i].statements == blocks1[i].statements);
                }
            }
        }
    }
}

/// Lowering an else branch and joining keeps register dominance and the
/// scope bound.
proof fn lemma_if_else_g_regs(
    els: AstV,
    prog: ProgramV,
    vars: Seq<(Seq<char>, nat)>,
    blocks1: Seq<BasicBlockV>,
    offset: nat,
    end1: nat,
)
    requires
        blocks1.len() >= 1,
        1 <= offset <= blocks1.len(),
        blocks_regs_wf(blocks1),
        vars_below(vars, end1 + blocks1.last().statements.len() as int),
        spec_if_else_g(els, prog, vars, blocks1, offset, end1) is Some,
    ensures
        ({
            let (b2, vars2, rc2) = spec_if_else_g(els, prog, vars, blocks1, offset, end1)->Some_0;
            &&& blocks_regs_wf(b2)
            &&& vars_below(vars2, rc2 + b2.last().statements.len() as int)
        }),
    decreases els, 5int,
{
    let lastidx = blocks1.len() - 1;
    let jstmts = blocks1[lastidx].statements.push(
        StatementV { op: OperatorV::Jump, ret: None, args: seq![] },
    );
    assert(stmts_regs_wf(jstmts)) by {
        assert forall|k: int| 0 <= k < jstmts.len() implies stmt_regs_wf(
            #[trigger] jstmts[k],
        ) by {
            if k < blocks1[lastidx].statements.len() {
                assert(jstmts[k] == blocks1[lastidx].statements[k]);
            }
        }
    }
    let blocks2 = blocks1.update(
        lastidx,
        BasicBlockV { statements: jstmts, nexts: blocks1[lastidx].nexts },
    );
    let offset2 = blocks2.len();
    let erc = end1 + blocks1[lastidx].statements.len() + 1;
    lemma_statement_g_regs(els, prog, vars, erc as nat);
    let (vb2, vars2, end2) = spec_statement_g(els, prog, vars, erc as nat)->Some_0;
    let sh = shift_nexts(vb2, offset2 as nat);
    let blocks3 = blocks2 + sh;
    let jidx = blocks3.len();
    let blocks4 = blocks3.update(
        offset - 1,
        BasicBlockV {
            statements: blocks3[offset - 1].statements,
            nexts: blocks3[offset - 1].nexts.push(offset2 as nat),
        },
    );
    let blocks5 = blocks4.update(
        offset2 - 1,
        BasicBlockV {
            statements: blocks4[offset2 - 1].statements,
            nexts: blocks4[offset2 - 1].nexts.push(jidx as nat),
        },
    );
    let blocks6 = blocks5.update(
        jidx - 1,
        BasicBlockV {
            statements: blocks5[jidx - 1].statements,
            nexts: blocks5[jidx - 1].nexts.push(jidx as nat),
        },
    );
    let (b2, vars2b, rc2) = spec_if_else_g(els, prog, vars, blocks1, offset, end1)->Some_0;
    assert(b2 == blocks6.push(BasicBlockV { statements: seq![], nexts: seq![] }));
    assert forall|i: int|
        0 <= i < blocks6.len() implies #[trigger] blocks6[i].statements
        == blocks3[i].statements by {
        if i != offset - 1 {
            assert(blocks4[i] == blocks3[i]);
        }
        if i != offset2 - 1 {
            assert(blocks5[i] == blocks4[i]);
        }
        if i != jidx - 1 {
            assert(blocks6[i] == blocks5[i]);
        }
    }
    assert(b2.last().statements =~= Seq::<StatementV>::empty());
    assert(blocks_regs_wf(b2)) by {
        assert forall|i: int| 0 <= i < b2.len() implies stmts_regs_wf(
            #[trigger] b2[i].statements,
        ) by {
            if i < b2.len() - 1 {
                assert(b2[i].statements == blocks3[i].statements);
                if i < offset2 {
                    assert(blocks3[i].statements == blocks2[i].statements);
                } else {
                    assert(blocks3[i].statements == sh[i - offset2].statements);
                    assert(sh[i - offset2].statements == vb2[i - offset2].statements);
                }
            }
        }
    }
}

/// Lowering one statement keeps register dominance and the scope bound.
proof fn lemma_statement_impl_g_regs(
    ast: AstV,
    prog: ProgramV,
    vars: Seq<(Seq<char>, nat)>,
    blocks: Seq<BasicBlockV>,
    regcount: nat,
)
    requires
        blocks_regs_wf(blocks),
        vars_below(vars, regcount + blocks.last().statements.len() as int),
        spec_statement_impl_g(ast, prog, vars, blocks, regcount) is Some,
    ensures
        ({
            let (b2, vars2, rc2) = spec_statement_impl_g(ast, prog, vars, blocks, regcount)
                ->Some_0;
            &&& blocks_regs_wf(b2)
            &&& vars_below(vars2, rc2 + b2.last().statements.len() as int)
        }),
    decreases ast, 2int,
{
    let node = ast->Node_0;
    let cur = blocks.last();
    assert(stmts_regs_wf(cur.statements));
    match node.op {
        OperatorV::If => {
            lemma_if_g_regs(node.children, prog, vars, blocks, regcount);
        },
        OperatorV::Substitute => {
            lemma_substitute_g_regs(node.children, prog, vars, cur.statements, regcount);
            let (vars1, s2) = spec_substitute_g(
                node.children,
                prog,
                vars,
                cur.statements,
                regcount,
            )->Some_0;
            lemma_blocks_update_regs(blocks, s2);
        },
        OperatorV::Call { name } => {
            lemma_call_g_regs(name, node.children, prog, vars, cur.statements, regcount);
            let s2 = spec_call_g(name, node.children, prog, vars, cur.statements, regcount)
                ->Some_0;
            lemma_blocks_update_regs(blocks, s2);
        },
        OperatorV::Return => {
            lemma_return_g_regs(node.children, prog, vars, cur.statements, regcount);
            let s2 = spec_return_g(node.children, prog, vars, cur.statements, regcount)->Some_0;
            lemma_blocks_update_regs(blocks, s2);
        },
        _ => {},
    }
}

/// Replacing the last block's statements with a dominance-respecting
/// sequence keeps every block dominance-respecting.
proof fn lemma_blocks_update_regs(blocks: Seq<BasicBlockV>, s2: Seq<StatementV>)
    requires
        blocks.len() >= 1,
        blocks_regs_wf(blocks),
        stmts_regs_wf(s2),
    ensures
        blocks_regs_wf(
            blocks.update(
                blocks.len() - 1,
                BasicBlockV { statements: s2, nexts: blocks.last().nexts },
            ),
        ),
{
    let b2 = blocks.update(
        blocks.len() - 1,
        BasicBlockV { statements: s2, nexts: blocks.last().nexts },
    );
    assert forall|i: int| 0 <= i < b2.len() implies stmts_regs_wf(
        #[trigger] b2[i].statements,
    ) by {
        if i < blocks.len() - 1 {
            assert(b2[i] == blocks[i]);
        }
    }
}

/// Lowering a run of statements keeps register dominance and the scope
/// bound.
proof fn lemma_stmts_g_regs(
    children: Seq<AstV>,
    i: int,
    prog: ProgramV,
    vars: Seq<(Seq<char>, nat)>,
    blocks: Seq<BasicBlockV>,
    regcount: nat,
)
    requires
        blocks.len() >= 1,
        blocks_regs_wf(blocks),
        vars_below(vars, regcount + blocks.last().statements.len() as int),
        spec_stmts_g(children, i, prog, vars, blocks, regcount) is Some,
    ensures
        ({
            let (b2, vars2, rc2) = spec_stmts_g(children, i, prog, vars, blocks, regcount)
                ->Some_0;
            &&& blocks_regs_wf(b2)
            &&& b2.len() >= 1
            &&& vars_below(vars2, rc2 + b2.last().statements.len() as int)
        }),
    decreases children, 3int, children.len() - i,
{
    if 0 <= i < children.len() {
        lemma_statement_impl_g_regs(children[i], prog, vars, blocks, regcount);
        lemma_statement_impl_g_len(children[i], prog, vars, blocks, regcount);
        let (b1, vars1, rc1) = spec_statement_impl_g(children[i], prog, vars, blocks, regcount)
            ->Some_0;
        lemma_stmts_g_regs(children, i + 1, prog, vars1, b1, rc1);
    }
}

/// Lowering one statement leaves at least one block.
proof fn lemma_statement_impl_g_len(
    ast: AstV,
    prog: ProgramV,
    vars: Seq<(Seq<char>, nat)>,
    blocks: Seq<BasicBlockV>,
    regcount: nat,
)
    requires
        spec_statement_impl_g(ast, prog, vars, blocks, regcount) is Some,
    ensures
        spec_statement_impl_g(ast, prog, vars, blocks, regcount)->Some_0.0.len() >= 1,
    decreases ast, 2int,
{
}

/// The blocks of a lowered body respect register dominance; the scope ends
/// below the next free register.
proof fn lemma_statement_g_regs(
    ast: AstV,
    prog: ProgramV,
    vars: Seq<(Seq<char>, nat)>,
    regcount: nat,
)
    requires
        vars_below(vars, regcount as int),
        spec_statement_g(ast, prog, vars, regcount) is Some,
    ensures
        ({
            let (blocks, vars2, end) = spec_statement_g(ast, prog, vars, regcount)->Some_0;
            &&& blocks_regs_wf(blocks)
            &&& blocks.len() >= 1
            &&& vars_below(vars2, end + blocks.last().statements.len() as int)
        }),
    decreases ast, 4int,
{
    let node = ast->Node_0;
    let blocks0 = seq![BasicBlockV { statements: seq![], nexts: seq![] }];
    assert(blocks_regs_wf(blocks0)) by {
        assert(stmts_regs_wf(blocks0[0].statements));
    }
    lemma_stmts_g_regs(node.children, 0, prog, vars, blocks0, regcount);
}

/// The well-formedness of a lowered program: every function either has no
/// blocks (a builtin or a not-yet-lowered header) or a well-formed
/// control-flow graph, and every statement's register arguments are
/// numbered strictly below its result register.
pub open spec fn prog_wf(p: ProgramV) -> bool {
    forall|i: int|
        0 <= i < p.funcs.len() ==> {
            &&& (#[trigger] p.funcs[i]).basicblocks.len() == 0 || wf_cfg(p.funcs[i].basicblocks)
            &&& blocks_regs_wf(p.funcs[i].basicblocks)
        }
}

/// A lowered function has a well-formed graph and register numbering.
proof fn lemma_function_g_wf(node: NodeV, prog: ProgramV)
    requires
        spec_function_g(node, prog) is Some,
    ensures
        ({
            let f = spec_function_g(node, prog)->Some_0;
            &&& f.basicblocks.len() >= 1
            &&& wf_cfg(f.basicblocks)
            &&& blocks_regs_wf(f.basicblocks)
        }),
{
    let (name, args, retnum) = match node.op {
        OperatorV::FunctionDeclare { name, args, retnum } => (name, args, retnum),
        _ => arbitrary(),
    };
    let vars0 = Seq::new(args.len(), |i: int| (args[i], i as nat));
    assert(vars_below(vars0, args.len() as int));
    lemma_statement_g_wf(node.children[0], prog, vars0, args.len() as nat);
    lemma_statement_g_regs(node.children[0], prog, vars0, args.len() as nat);
    let (blocks, vars1, end) = spec_statement_g(node.children[0], prog, vars0, args.len() as nat)
        ->Some_0;
    if retnum == 0 && name != "main"@ {
        let s2 = blocks.last().statements.push(
            StatementV { op: OperatorV::Return, ret: None, args: seq![] },
        );
        assert(stmts_regs_wf(s2)) by {
            assert forall|k: int| 0 <= k < s2.len() implies stmt_regs_wf(#[trigger] s2[k]) by {
                if k < blocks.last().statements.len() {
                    assert(s2[k] == blocks.last().statements[k]);
                }
            }
        }
        lemma_blocks_update_regs(blocks, s2);
        lemma_update_stmts_wf(blocks, blocks.len() - 1, s2);
    }
}

/// Inserting a well-formed function into a well-formed table keeps the
/// table well-formed.
proof fn lemma_program_insert_wf(funcs: Seq<FunctionV>, f: FunctionV)
    requires
        prog_wf(ProgramV { funcs }),
        f.basicblocks.len() == 0 || wf_cfg(f.basicblocks),
        blocks_regs_wf(f.basicblocks),
    ensures
        prog_wf(ProgramV { funcs: spec_program_insert(funcs, f) }),
{
    let p = spec_insert_pos(funcs, f.name, 0);
    lemma_insert_pos_bounds(funcs, f.name, 0);
    funcs.insert_ensures(p, f);
    let out = spec_program_insert(funcs, f);
    assert forall|i: int|
        0 <= i < funcs.len() implies ((#[trigger] funcs[i]).basicblocks.len() == 0 || wf_cfg(
        funcs[i].basicblocks,
    )) && blocks_regs_wf(funcs[i].basicblocks) by {
        assert(ProgramV { funcs }.funcs[i] == funcs[i]);
    }
    assert forall|i: int| 0 <= i < out.len() implies {
        &&& (#[trigger] out[i]).basicblocks.len() == 0 || wf_cfg(out[i].basicblocks)
        &&& blocks_regs_wf(out[i].basicblocks)
    } by {
        if 0 <= p < funcs.len() && funcs[p].name == f.name {
            if i != p {
                assert(out[i] == funcs[i]);
            }
        } else {
            if i < p {
                assert(out[i] == funcs[i]);
            } else if i > p {
                assert(funcs.insert(p, f)[(i - 1) + 1] == funcs[i - 1]);
            }
        }
    }
}

/// The insertion point lies within the table.
proof fn lemma_insert_pos_bounds(funcs: Seq<FunctionV>, name: Seq<char>, i: int)
    requires
        0 <= i <= funcs.len(),
    ensures
        i <= spec_insert_pos(funcs, name, i) <= funcs.len(),
    decreases funcs.len() - i,
{
    if i < funcs.len() && seq_char_lt(funcs[i].name, name) {
        lemma_insert_pos_bounds(funcs, name, i + 1);
    }
}

/// The pre-registered builtin table is well-formed.
proof fn lemma_program_new_wf()
    ensures
        prog_wf(spec_program_new()),
{
    let p = spec_program_new();
    assert forall|i: int| 0 <= i < p.funcs.len() implies {
        &&& (#[trigger] p.funcs[i]).basicblocks.len() == 0 || wf_cfg(p.funcs[i].basicblocks)
        &&& blocks_regs_wf(p.funcs[i].basicblocks)
    } by {
        assert(p.funcs[i].basicblocks.len() == 0);
        assert(blocks_regs_wf(p.funcs[i].basicblocks));
    }
}

/// Header registration keeps the table well-formed.
proof fn lemma_predecl_loop_wf(children: Seq<AstV>, i: int, prog: ProgramV)
    requires
        prog_wf(prog),
        spec_predecl_loop(children, i, prog) is Some,
    ensures
        prog_wf(spec_predecl_loop(children, i, prog)->Some_0),
    decreases children.len() - i,
{
    if 0 <= i < children.len() {
        let node = children[i]->Node_0;
        let f = spec_pre_declare_function(node)->Some_0;
        assert(blocks_regs_wf(f.basicblocks));
        lemma_program_insert_wf(prog.funcs, f);
        lemma_predecl_loop_wf(
            children,
            i + 1,
            ProgramV { funcs: spec_program_insert(prog.funcs, f) },
        );
    }
}

/// Lowering the bodies keeps the table well-formed.
proof fn lemma_decl_loop_wf(children: Seq<AstV>, i: int, prog: ProgramV)
    requires
        prog_wf(prog),
        spec_decl_loop(children, i, prog) is Some,
    ensures
        prog_wf(spec_decl_loop(children, i, prog)->Some_0),
    decreases children.len() - i,
{
    if 0 <= i < children.len() {
        let node = children[i]->Node_0;
        lemma_function_g_wf(node, prog);
        let f = spec_function_g(node, prog)->Some_0;
        lemma_program_insert_wf(prog.funcs, f);
        lemma_decl_loop_wf(
            children,
            i + 1,
            ProgramV { funcs: spec_program_insert(prog.funcs, f) },
        );
    }
}

/// A lowered program is well-formed: register definitions dominate uses,
/// and every lowered function's successor indices are in range, strictly
/// forward, and leave no block without a predecessor.
pub proof fn lemma_generate_wf(ast: AstV)
    requires
        spec_generate(ast) is Some,
    ensures
        prog_wf(spec_generate(ast)->Some_0),
{
    let node = ast->Node_0;
    lemma_program_new_wf();
    lemma_predecl_loop_wf(node.children, 0, spec_program_new());
    let p1 = spec_predecl_loop(node.children, 0, spec_program_new())->Some_0;
    lemma_decl_loop_wf(node.children, 0, p1);
}

/// Whether block `k` can be reached from the entry block along successor
/// edges.
pub open spec fn reachable(blocks: Seq<BasicBlockV>, k: int) -> bool
    decreases k,
{
    if k <= 0 {
        k == 0
    } else {
        exists|i: int, j: int|
            0 <= i < k < blocks.len() && 0 <= j < blocks[i].nexts.len()
                && #[trigger] blocks[i].nexts[j] == k && reachable(blocks, i)
    }
}

/// In a well-formed graph, every block is reachable from the entry block
/// along forward edges.
pub proof fn lemma_wf_cfg_reachable(blocks: Seq<BasicBlockV>, k: int)
    requires
        wf_cfg(blocks),
        0 <= k < blocks.len(),
    ensures
        reachable(blocks, k),
    decreases k,
{
    if k > 0 {
        assert(has_pred(blocks, k));
        let (i, j) = choose|i: int, j: int|
            0 <= i < k < blocks.len() && 0 <= j < blocks[i].nexts.len()
                && #[trigger] blocks[i].nexts[j] == k;
        lemma_wf_cfg_reachable(blocks, i);
    }
}

} // verus!
