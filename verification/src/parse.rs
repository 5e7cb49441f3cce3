//! The parser: recursive descent over the token vector, with explicit
//! positions, producing the abstract syntax tree.
//!
//! Binary operators are left-associative within each precedence tier; the
//! tiers, loosest first, are equality, comparison, additive, multiplicative,
//! and calls or atoms.

use vstd::prelude::*;
use vstd::slice::slice_index_get;
use crate::tokenize::Keyword;
use crate::tokenize::Punctuator;
use crate::tokenize::Token;
use crate::tokenize::TokenType;
use crate::tokenize::TokenTypeV;
use crate::tokenize::TokenV;

verus! {

broadcast use vstd::seq::axiom_seq_index_decreases;

/// The view lemmas that proofs over tree sequences need.
pub broadcast group group_ast_dv {
    lemma_asts_dv_len,
    lemma_asts_dv_index,
    lemma_asts_dv_push,
}

/// An operator tag of a syntax-tree node.
#[derive(Debug, Clone, PartialEq)]
pub enum Operator {
    Add,
    Sub,
    Multiply,
    Division,
    Modulo,
    Substitute,
    Equal,
    LessThan,
    Greater,
    If,
    Call { name: String },
    Return,
    Jump,
    Do,
    Expression,
    Statement,
    Declare,
    FunctionDeclare { name: String, args: Vec<String>, retnum: usize },
}

/// An interior node of the syntax tree: an operator with ordered children.
#[derive(Debug, PartialEq)]
pub struct Node {
    pub op: Operator,
    pub children: Vec<AST>,
}

/// A leaf of the syntax tree: a name or an integer constant.
#[derive(Debug, Clone, PartialEq)]
pub enum Leaf {
    Identifier(String),
    Constant(i32),
}

/// A syntax tree: an interior node or a leaf.
#[derive(Debug, PartialEq)]
pub enum AST {
    Node(Node),
    Leaf(Leaf),
}

/// The mathematical model of an operator tag.
pub enum OperatorV {
    Add,
    Sub,
    Multiply,
    Division,
    Modulo,
    Substitute,
    Equal,
    LessThan,
    Greater,
    If,
    Call { name: Seq<char> },
    Return,
    Jump,
    Do,
    Expression,
    Statement,
    Declare,
    FunctionDeclare { name: Seq<char>, args: Seq<Seq<char>>, retnum: nat },
}

/// The mathematical model of an interior node.
pub struct NodeV {
    pub op: OperatorV,
    pub children: Seq<AstV>,
}

/// The mathematical model of a leaf.
pub enum LeafV {
    Identifier(Seq<char>),
    Constant(int),
}

/// The mathematical model of a syntax tree.
pub enum AstV {
    Node(NodeV),
    Leaf(LeafV),
}

impl DeepView for Operator {
    type V = OperatorV;

    open spec fn deep_view(&self) -> OperatorV {
        match self {
            Operator::Add => OperatorV::Add,
            Operator::Sub => OperatorV::Sub,
            Operator::Multiply => OperatorV::Multiply,
            Operator::Division => OperatorV::Division,
            Operator::Modulo => OperatorV::Modulo,
            Operator::Substitute => OperatorV::Substitute,
            Operator::Equal => OperatorV::Equal,
            Operator::LessThan => OperatorV::LessThan,
            Operator::Greater => OperatorV::Greater,
            Operator::If => OperatorV::If,
            Operator::Call { name } => OperatorV::Call { name: name@ },
            Operator::Return => OperatorV::Return,
            Operator::Jump => OperatorV::Jump,
            Operator::Do => OperatorV::Do,
            Operator::Expression => OperatorV::Expression,
            Operator::Statement => OperatorV::Statement,
            Operator::Declare => OperatorV::Declare,
            Operator::FunctionDeclare { name, args, retnum } => OperatorV::FunctionDeclare {
                name: name@,
                args: Seq::new(args@.len(), |i: int| args@[i]@),
                retnum: *retnum as nat,
            },
        }
    }
}

impl DeepView for Leaf {
    type V = LeafV;

    open spec fn deep_view(&self) -> LeafV {
        match self {
            Leaf::Identifier(s) => LeafV::Identifier(s@),
            Leaf::Constant(n) => LeafV::Constant(*n as int),
        }
    }
}

/// The mathematical model of a syntax tree.
pub open spec fn ast_dv(a: AST) -> AstV
    decreases a,
{
    match a {
        AST::Node(n) => AstV::Node(
            NodeV { op: n.op.deep_view(), children: asts_dv(n.children@) },
        ),
        AST::Leaf(leaf) => AstV::Leaf(leaf.deep_view()),
    }
}

/// The mathematical model of an interior node.
pub open spec fn node_dv(n: Node) -> NodeV {
    NodeV { op: n.op.deep_view(), children: asts_dv(n.children@) }
}

/// The mathematical models of a sequence of syntax trees.
pub open spec fn asts_dv(s: Seq<AST>) -> Seq<AstV>
    decreases s,
{
    if s.len() == 0 {
        seq![]
    } else {
        asts_dv(s.drop_last()).push(ast_dv(s.last()))
    }
}

/// The model sequence is as long as the tree sequence.
pub broadcast proof fn lemma_asts_dv_len(s: Seq<AST>)
    ensures
        (#[trigger] asts_dv(s)).len() == s.len(),
    decreases s.len(),
{
    if s.len() > 0 {
        lemma_asts_dv_len(s.drop_last());
    }
}

/// The model sequence holds the model of each tree, in order.
pub broadcast proof fn lemma_asts_dv_index(s: Seq<AST>, i: int)
    requires
        0 <= i < s.len(),
    ensures
        #[trigger] asts_dv(s)[i] == ast_dv(s[i]),
    decreases s.len(),
{
    lemma_asts_dv_len(s);
    if i < s.len() - 1 {
        lemma_asts_dv_index(s.drop_last(), i);
        assert(s.drop_last()[i] == s[i]);
    } else {
        lemma_asts_dv_len(s.drop_last());
    }
}

/// Appending a tree appends its model.
pub broadcast proof fn lemma_asts_dv_push(s: Seq<AST>, e: AST)
    ensures
        #[trigger] asts_dv(s.push(e)) == asts_dv(s).push(ast_dv(e)),
{
    assert(s.push(e).drop_last() =~= s);
    assert(s.push(e).last() == e);
}

/// The models of a sequence of tokens.
pub open spec fn toks_dv(ts: Seq<Token>) -> Seq<TokenV> {
    Seq::new(ts.len(), |i: int| ts[i].deep_view())
}

/// Whether the token at `i` is the punctuator `p`.
pub open spec fn is_punct(t: Seq<TokenV>, i: int, p: Punctuator) -> bool {
    0 <= i < t.len() && t[i].token == TokenTypeV::Punctuator(p)
}

/// Whether the token at `i` is the keyword `k`.
pub open spec fn is_kw(t: Seq<TokenV>, i: int, k: Keyword) -> bool {
    0 <= i < t.len() && t[i].token == TokenTypeV::Keyword(k)
}

/// A binary syntax-tree node.
pub open spec fn bin_node_v(op: OperatorV, lhs: AstV, rhs: AstV) -> AstV {
    AstV::Node(NodeV { op, children: seq![lhs, rhs] })
}

/// An atom: a constant, an identifier, a call, or a parenthesised
/// expression.
pub open spec fn spec_expression_call(t: Seq<TokenV>, i: int) -> Option<(AstV, int)>
    decreases t.len() - i, 1int,
{
    if !(0 <= i < t.len()) {
        None
    } else {
        match t[i].token {
            TokenTypeV::Constant(c) => Some((AstV::Leaf(LeafV::Constant(c)), i + 1)),
            TokenTypeV::Identifier(id) => if is_punct(t, i + 1, Punctuator::ParenthesisLeft) {
                spec_call(t, i, id)
            } else {
                Some((AstV::Leaf(LeafV::Identifier(id)), i + 1))
            },
            TokenTypeV::Punctuator(Punctuator::ParenthesisLeft) => match spec_expression(
                t,
                i + 1,
            ) {
                None => None,
                Some((ast, j)) => if j <= i + 1 || j > t.len() {
                    None
                } else if is_punct(t, j, Punctuator::ParenthesisRight) {
                    Some((ast, j + 1))
                } else {
                    None
                },
            },
            _ => None,
        }
    }
}

/// A call: the callee name at `i`, an opening parenthesis, the arguments,
/// and a closing parenthesis.
pub open spec fn spec_call(t: Seq<TokenV>, i: int, funcname: Seq<char>) -> Option<(AstV, int)>
    decreases t.len() - i, 0int,
{
    if i + 2 > t.len() {
        None
    } else {
        match spec_expression_list(t, i + 2) {
            None => None,
            Some((exprs, j)) => if j < i + 2 || j > t.len() {
                None
            } else if is_punct(t, j, Punctuator::ParenthesisRight) {
                Some(
                    (
                        AstV::Node(NodeV { op: OperatorV::Call { name: funcname }, children: exprs }),
                        j + 1,
                    ),
                )
            } else {
                None
            },
        }
    }
}

/// A comma-separated list of expressions, stopping before a closing
/// parenthesis, which is not consumed.
pub open spec fn spec_expression_list(t: Seq<TokenV>, i: int) -> Option<(Seq<AstV>, int)>
    decreases t.len() - i, 8int,
{
    spec_expression_loop(t, i, seq![])
}

/// The remaining expressions of a list, after those already read. The list
/// may stop at the closing parenthesis only before its first expression or
/// right after one: a trailing comma does not derive from
/// `(expression (',' expression)*)?` and is rejected.
pub open spec fn spec_expression_loop(t: Seq<TokenV>, i: int, acc: Seq<AstV>) -> Option<
    (Seq<AstV>, int),
>
    decreases t.len() - i, 7int,
{
    if is_punct(t, i, Punctuator::ParenthesisRight) {
        if acc.len() == 0 {
            Some((acc, i))
        } else {
            None
        }
    } else {
        match spec_expression(t, i) {
            None => None,
            Some((e, j)) => if j <= i || j > t.len() {
                None
            } else if is_punct(t, j, Punctuator::Comma) {
                spec_expression_loop(t, j + 1, acc.push(e))
            } else if is_punct(t, j, Punctuator::ParenthesisRight) {
                Some((acc.push(e), j))
            } else {
                None
            },
        }
    }
}

/// A full expression: the equality tier.
pub open spec fn spec_expression(t: Seq<TokenV>, i: int) -> Option<(AstV, int)>
    decreases t.len() - i, 5int,
{
    match spec_expression_greater(t, i) {
        None => None,
        Some((lhs, j)) => if j <= i || j > t.len() {
            None
        } else {
            spec_eq_chain(t, j, lhs)
        },
    }
}

/// The left-associative chain of `==` operators after a first operand.
pub open spec fn spec_eq_chain(t: Seq<TokenV>, i: int, lhs: AstV) -> Option<(AstV, int)>
    decreases t.len() - i, 0int,
{
    if is_punct(t, i, Punctuator::DoubleEqual) {
        match spec_expression_greater(t, i + 1) {
            None => None,
            Some((rhs, j)) => if j <= i + 1 || j > t.len() {
                None
            } else {
                spec_eq_chain(t, j, bin_node_v(OperatorV::Equal, lhs, rhs))
            },
        }
    } else {
        Some((lhs, i))
    }
}

/// The comparison tier.
pub open spec fn spec_expression_greater(t: Seq<TokenV>, i: int) -> Option<(AstV, int)>
    decreases t.len() - i, 4int,
{
    match spec_expression_add(t, i) {
        None => None,
        Some((lhs, j)) => if j <= i || j > t.len() {
            None
        } else {
            spec_cmp_chain(t, j, lhs)
        },
    }
}

/// The left-associative chain of `<` and `>` operators after a first
/// operand.
pub open spec fn spec_cmp_chain(t: Seq<TokenV>, i: int, lhs: AstV) -> Option<(AstV, int)>
    decreases t.len() - i, 0int,
{
    if is_punct(t, i, Punctuator::LessThan) || is_punct(t, i, Punctuator::Greater) {
        let op = if is_punct(t, i, Punctuator::LessThan) {
            OperatorV::LessThan
        } else {
            OperatorV::Greater
        };
        match spec_expression_add(t, i + 1) {
            None => None,
            Some((rhs, j)) => if j <= i + 1 || j > t.len() {
                None
            } else {
                spec_cmp_chain(t, j, bin_node_v(op, lhs, rhs))
            },
        }
    } else {
        Some((lhs, i))
    }
}

/// The additive tier.
pub open spec fn spec_expression_add(t: Seq<TokenV>, i: int) -> Option<(AstV, int)>
    decreases t.len() - i, 3int,
{
    match spec_expression_mul(t, i) {
        None => None,
        Some((lhs, j)) => if j <= i || j > t.len() {
            None
        } else {
            spec_add_chain(t, j, lhs)
        },
    }
}

/// The left-associative chain of `+` and `-` operators after a first
/// operand.
pub open spec fn spec_add_chain(t: Seq<TokenV>, i: int, lhs: AstV) -> Option<(AstV, int)>
    decreases t.len() - i, 0int,
{
    if is_punct(t, i, Punctuator::Plus) || is_punct(t, i, Punctuator::Minus) {
        let op = if is_punct(t, i, Punctuator::Plus) {
            OperatorV::Add
        } else {
            OperatorV::Sub
        };
        match spec_expression_mul(t, i + 1) {
            None => None,
            Some((rhs, j)) => if j <= i + 1 || j > t.len() {
                None
            } else {
                spec_add_chain(t, j, bin_node_v(op, lhs, rhs))
            },
        }
    } else {
        Some((lhs, i))
    }
}

/// The multiplicative tier.
pub open spec fn spec_expression_mul(t: Seq<TokenV>, i: int) -> Option<(AstV, int)>
    decreases t.len() - i, 2int,
{
    match spec_expression_call(t, i) {
        None => None,
        Some((lhs, j)) => if j <= i || j > t.len() {
            None
        } else {
            spec_mul_chain(t, j, lhs)
        },
    }
}

/// The left-associative chain of `*`, `/` and `%` operators after a first
/// operand.
pub open spec fn spec_mul_chain(t: Seq<TokenV>, i: int, lhs: AstV) -> Option<(AstV, int)>
    decreases t.len() - i, 0int,
{
    if is_punct(t, i, Punctuator::Star) || is_punct(t, i, Punctuator::Slash) || is_punct(
        t,
        i,
        Punctuator::Percent,
    ) {
        let op = if is_punct(t, i, Punctuator::Star) {
            OperatorV::Multiply
        } else if is_punct(t, i, Punctuator::Slash) {
            OperatorV::Division
        } else {
            OperatorV::Modulo
        };
        match spec_expression_call(t, i + 1) {
            None => None,
            Some((rhs, j)) => if j <= i + 1 || j > t.len() {
                None
            } else {
                spec_mul_chain(t, j, bin_node_v(op, lhs, rhs))
            },
        }
    } else {
        Some((lhs, i))
    }
}

/// A `return` statement: the `return` keyword at `i`, an expression, and a
/// semicolon.
pub open spec fn spec_return_statement(t: Seq<TokenV>, i: int) -> Option<(AstV, int)>
    decreases t.len() - i, 9int,
{
    if !is_kw(t, i, Keyword::RETURN) {
        None
    } else {
        match spec_expression(t, i + 1) {
            None => None,
            Some((ast, j)) => if j > t.len() {
                None
            } else if is_punct(t, j, Punctuator::SemiColon) {
                Some((AstV::Node(NodeV { op: OperatorV::Return, children: seq![ast] }), j + 1))
            } else {
                None
            },
        }
    }
}

/// An `if` statement: condition, braced then-branch, and an optional braced
/// else-branch; `elsif` is reserved and rejected.
pub open spec fn spec_if_statement(t: Seq<TokenV>, i: int) -> Option<(AstV, int)>
    decreases t.len() - i, 9int,
{
    if !is_kw(t, i, Keyword::IF) {
        None
    } else {
        match spec_expression(t, i + 1) {
            None => None,
            Some((cond, j)) => if j <= i + 1 || j > t.len() {
                None
            } else if !is_punct(t, j, Punctuator::BraceLeft) {
                None
            } else {
                match spec_statement_list(t, j + 1) {
                    None => None,
                    Some((sts, k)) => if k < j + 1 || k > t.len() {
                        None
                    } else if !is_punct(t, k, Punctuator::BraceRight) {
                        None
                    } else if is_kw(t, k + 1, Keyword::ELSIF) {
                        None
                    } else if is_kw(t, k + 1, Keyword::ELSE) {
                        if !is_punct(t, k + 2, Punctuator::BraceLeft) {
                            None
                        } else {
                            match spec_statement_list(t, k + 3) {
                                None => None,
                                Some((ests, m)) => if m < k + 3 || m > t.len() {
                                    None
                                } else if is_punct(t, m, Punctuator::BraceRight) {
                                    Some(
                                        (
                                            AstV::Node(
                                                NodeV {
                                                    op: OperatorV::If,
                                                    children: seq![cond, sts, ests],
                                                },
                                            ),
                                            m + 1,
                                        ),
                                    )
                                } else {
                                    None
                                },
                            }
                        }
                    } else {
                        Some(
                            (
                                AstV::Node(NodeV { op: OperatorV::If, children: seq![cond, sts] }),
                                k + 1,
                            ),
                        )
                    },
                }
            },
        }
    }
}

/// A statement: an assignment, a call statement, an `if`, or a `return`.
pub open spec fn spec_statement(t: Seq<TokenV>, i: int) -> Option<(AstV, int)>
    decreases t.len() - i, 10int,
{
    if !(0 <= i < t.len()) {
        None
    } else {
        match t[i].token {
            TokenTypeV::Identifier(id) => if !(i + 1 < t.len()) {
                None
            } else {
                match t[i + 1].token {
                    TokenTypeV::Punctuator(Punctuator::Equal) => match spec_expression(t, i + 2) {
                        None => None,
                        Some((exp, j)) => if is_punct(t, j, Punctuator::SemiColon) {
                            Some(
                                (
                                    AstV::Node(
                                        NodeV {
                                            op: OperatorV::Substitute,
                                            children: seq![
                                                AstV::Leaf(LeafV::Identifier(id)),
                                                exp,
                                            ],
                                        },
                                    ),
                                    j + 1,
                                ),
                            )
                        } else {
                            None
                        },
                    },
                    TokenTypeV::Punctuator(Punctuator::ParenthesisLeft) => match spec_call(
                        t,
                        i,
                        id,
                    ) {
                        None => None,
                        Some((node, j)) => if is_punct(t, j, Punctuator::SemiColon) {
                            Some((node, j + 1))
                        } else {
                            None
                        },
                    },
                    _ => None,
                }
            },
            TokenTypeV::Keyword(Keyword::IF) => spec_if_statement(t, i),
            TokenTypeV::Keyword(Keyword::RETURN) => spec_return_statement(t, i),
            _ => None,
        }
    }
}

/// The remaining statements of a braced body, after those already read,
/// stopping before the closing brace, which is not consumed.
pub open spec fn spec_statements_loop(t: Seq<TokenV>, i: int, acc: Seq<AstV>) -> Option<
    (Seq<AstV>, int),
>
    decreases t.len() - i, 11int,
{
    if is_punct(t, i, Punctuator::BraceRight) {
        Some((acc, i))
    } else {
        match spec_statement(t, i) {
            None => None,
            Some((st, j)) => if j <= i || j > t.len() {
                None
            } else {
                spec_statements_loop(t, j, acc.push(st))
            },
        }
    }
}

/// A statement list, wrapped in a `Statement` node.
pub open spec fn spec_statement_list(t: Seq<TokenV>, i: int) -> Option<(AstV, int)>
    decreases t.len() - i, 12int,
{
    match spec_statements_loop(t, i, seq![]) {
        None => None,
        Some((sts, j)) => Some(
            (AstV::Node(NodeV { op: OperatorV::Statement, children: sts }), j),
        ),
    }
}

/// A parenthesised list of formal parameter names.
pub open spec fn spec_argument_list(t: Seq<TokenV>, i: int) -> Option<(Seq<Seq<char>>, int)>
    decreases t.len() - i, 1int,
{
    if is_punct(t, i, Punctuator::ParenthesisLeft) {
        spec_args_loop(t, i + 1, seq![])
    } else {
        None
    }
}

/// The remaining formal parameter names, after those already read. The
/// closing parenthesis may stand alone only before the first name: a
/// trailing comma does not derive from `(identifier (',' identifier)*)?`
/// and is rejected.
pub open spec fn spec_args_loop(t: Seq<TokenV>, j: int, acc: Seq<Seq<char>>) -> Option<
    (Seq<Seq<char>>, int),
>
    decreases t.len() - j, 0int,
{
    if !(0 <= j < t.len()) {
        None
    } else {
        match t[j].token {
            TokenTypeV::Punctuator(Punctuator::ParenthesisRight) => if acc.len() == 0 {
                Some((acc, j + 1))
            } else {
                None
            },
            TokenTypeV::Identifier(a) => if !(j + 1 < t.len()) {
                None
            } else {
                match t[j + 1].token {
                    TokenTypeV::Punctuator(Punctuator::Comma) => spec_args_loop(
                        t,
                        j + 2,
                        acc.push(a),
                    ),
                    TokenTypeV::Punctuator(Punctuator::ParenthesisRight) => Some(
                        (acc.push(a), j + 2),
                    ),
                    _ => None,
                }
            },
            _ => None,
        }
    }
}

/// A function declaration: `fn [ K ] name ( params ) { body }`, with a
/// non-negative return count `K`.
pub open spec fn spec_declaration(t: Seq<TokenV>, i: int) -> Option<(AstV, int)>
    decreases t.len() - i, 13int,
{
    if !is_kw(t, i, Keyword::FN) {
        None
    } else if !is_punct(t, i + 1, Punctuator::BracketLeft) {
        None
    } else if !(i + 2 < t.len()) {
        None
    } else {
        match t[i + 2].token {
            TokenTypeV::Constant(num) => if num < 0 {
                None
            } else if !is_punct(t, i + 3, Punctuator::BracketRight) {
                None
            } else if !(i + 4 < t.len()) {
                None
            } else {
                match t[i + 4].token {
                    TokenTypeV::Identifier(name) => match spec_argument_list(t, i + 5) {
                        None => None,
                        Some((args, j)) => if j <= i + 5 || j > t.len() {
                            None
                        } else if !is_punct(t, j, Punctuator::BraceLeft) {
                            None
                        } else {
                            match spec_statement_list(t, j + 1) {
                                None => None,
                                Some((sts, k)) => if k < j + 1 || k > t.len() {
                                    None
                                } else if is_punct(t, k, Punctuator::BraceRight) {
                                    Some(
                                        (
                                            AstV::Node(
                                                NodeV {
                                                    op: OperatorV::FunctionDeclare {
                                                        name,
                                                        args,
                                                        retnum: num as nat,
                                                    },
                                                    children: seq![sts],
                                                },
                                            ),
                                            k + 1,
                                        ),
                                    )
                                } else {
                                    None
                                },
                            }
                        },
                    },
                    _ => None,
                }
            },
            _ => None,
        }
    }
}

/// The remaining function declarations, after those already read; the whole
/// token vector must be consumed.
pub open spec fn spec_declarations_loop(t: Seq<TokenV>, i: int, acc: Seq<AstV>) -> Option<
    Seq<AstV>,
>
    decreases t.len() - i, 14int,
{
    if i >= t.len() {
        Some(acc)
    } else {
        match spec_declaration(t, i) {
            None => None,
            Some((d, j)) => if j <= i || j > t.len() {
                None
            } else {
                spec_declarations_loop(t, j, acc.push(d))
            },
        }
    }
}

/// The syntax tree of a whole token vector: a `Declare` node over the
/// function declarations, or `None` where the tokens do not parse.
pub open spec fn spec_parse(t: Seq<TokenV>) -> Option<AstV> {
    match spec_declarations_loop(t, 0, seq![]) {
        None => None,
        Some(ds) => Some(AstV::Node(NodeV { op: OperatorV::Declare, children: ds })),
    }
}

/// The models of a sequence of identifiers.
pub open spec fn strs_dv(ss: Seq<String>) -> Seq<Seq<char>> {
    Seq::new(ss.len(), |i: int| ss[i]@)
}

/// Whether the token at `base + off` is the punctuator `p`.
fn tok_is_punct_at(tokens: &[Token], base: usize, off: usize, p: Punctuator) -> (r: bool)
    requires
        base <= tokens@.len(),
    ensures
        r == is_punct(toks_dv(tokens@), base + off, p),
        r ==> base + off < tokens@.len(),
        tokens@.len() <= usize::MAX,
{
    if tokens.len() - base <= off {
        return false;
    }
    let tok = slice_index_get(tokens, base + off);
    match &tok.token {
        TokenType::Punctuator(q) => *q == p,
        _ => false,
    }
}

/// Whether the token at `base + off` is the keyword `k`.
fn tok_is_kw_at(tokens: &[Token], base: usize, off: usize, k: Keyword) -> (r: bool)
    requires
        base <= tokens@.len(),
    ensures
        r == is_kw(toks_dv(tokens@), base + off, k),
        r ==> base + off < tokens@.len(),
        tokens@.len() <= usize::MAX,
{
    if tokens.len() - base <= off {
        return false;
    }
    let tok = slice_index_get(tokens, base + off);
    match &tok.token {
        TokenType::Keyword(q) => *q == k,
        _ => false,
    }
}

/// Builds a node over a vector of children.
fn make_node(op: Operator, children: Vec<AST>) -> (r: AST)
    ensures
        ast_dv(r) == AstV::Node(NodeV { op: op.deep_view(), children: asts_dv(children@) }),
{
    broadcast use group_ast_dv;

    let ghost cs = children@;
    let ghost opv = op.deep_view();
    let node = AST::Node(Node { op, children });
    proof {
        assert(node matches AST::Node(n) && n.children@ == cs && n.op.deep_view() == opv);
        assert(ast_dv(node) == AstV::Node(NodeV { op: opv, children: asts_dv(cs) }));
    }
    node
}

/// Builds a binary node over two operands.
fn make_bin(op: Operator, lhs: AST, rhs: AST) -> (r: AST)
    ensures
        ast_dv(r) == bin_node_v(op.deep_view(), ast_dv(lhs), ast_dv(rhs)),
{
    broadcast use group_ast_dv;

    let ghost lv = ast_dv(lhs);
    let ghost rv = ast_dv(rhs);
    let children = vec![lhs, rhs];
    proof {
        assert(asts_dv(children@).len() == 2);
        assert(asts_dv(children@)[0] == lv);
        assert(asts_dv(children@)[1] == rv);
        assert(asts_dv(children@) =~= seq![lv, rv]);
    }
    make_node(op, children)
}

/// Builds a node over one operand.
fn make_un(op: Operator, a: AST) -> (r: AST)
    ensures
        ast_dv(r) == AstV::Node(NodeV { op: op.deep_view(), children: seq![ast_dv(a)] }),
{
    broadcast use group_ast_dv;

    let ghost av = ast_dv(a);
    let children = vec![a];
    proof {
        assert(asts_dv(children@).len() == 1);
        assert(asts_dv(children@)[0] == av);
        assert(asts_dv(children@) =~= seq![av]);
    }
    make_node(op, children)
}

/// Builds a node over three operands.
fn make_tri(op: Operator, a: AST, b: AST, c: AST) -> (r: AST)
    ensures
        ast_dv(r) == AstV::Node(
            NodeV { op: op.deep_view(), children: seq![ast_dv(a), ast_dv(b), ast_dv(c)] },
        ),
{
    broadcast use group_ast_dv;

    let ghost av = ast_dv(a);
    let ghost bv = ast_dv(b);
    let ghost cv = ast_dv(c);
    let children = vec![a, b, c];
    proof {
        assert(asts_dv(children@).len() == 3);
        assert(asts_dv(children@)[0] == av);
        assert(asts_dv(children@)[1] == bv);
        assert(asts_dv(children@)[2] == cv);
        assert(asts_dv(children@) =~= seq![av, bv, cv]);
    }
    make_node(op, children)
}

/// Parses an atom: a constant, an identifier, a call, or a parenthesised
/// expression.
pub fn expression_call(tokens: &[Token], i: usize) -> (r: Option<(AST, usize)>)
    requires
        i <= tokens@.len(),
    ensures
        match r {
            Some((ast, j)) => spec_expression_call(toks_dv(tokens@), i as int) == Some(
                (ast_dv(ast), j as int),
            ) && i < j <= tokens@.len(),
            None => spec_expression_call(toks_dv(tokens@), i as int) is None,
        },
    decreases tokens@.len() - i, 1int,
{
    if i >= tokens.len() {
        return None;
    }
    let tok = slice_index_get(tokens, i);
    match &tok.token {
        TokenType::Constant(constant) => Some((AST::Leaf(Leaf::Constant(*constant)), i + 1)),
        TokenType::Identifier(identifier) => {
            if tok_is_punct_at(tokens, i, 1, Punctuator::ParenthesisLeft) {
                call(tokens, i, identifier.clone())
            } else {
                Some((AST::Leaf(Leaf::Identifier(identifier.clone())), i + 1))
            }
        },
        TokenType::Punctuator(Punctuator::ParenthesisLeft) => {
            match expression(tokens, i + 1) {
                Some((ast, j)) => {
                    if tok_is_punct_at(tokens, j, 0, Punctuator::ParenthesisRight) {
                        Some((ast, j + 1))
                    } else {
                        None
                    }
                },
                None => None,
            }
        },
        _ => None,
    }
}

/// Parses a call whose callee name stands at `i`: the arguments between
/// parentheses.
pub fn call(tokens: &[Token], i: usize, funcname: String) -> (r: Option<(AST, usize)>)
    requires
        i <= tokens@.len(),
    ensures
        match r {
            Some((ast, j)) => spec_call(toks_dv(tokens@), i as int, funcname@) == Some(
                (ast_dv(ast), j as int),
            ) && i < j <= tokens@.len(),
            None => spec_call(toks_dv(tokens@), i as int, funcname@) is None,
        },
    decreases tokens@.len() - i, 0int,
{
    if tokens.len() - i < 2 {
        return None;
    }
    match expression_list(tokens, i + 2) {
        Some((expressions, j)) => {
            if tok_is_punct_at(tokens, j, 0, Punctuator::ParenthesisRight) {
                let node = make_node(Operator::Call { name: funcname }, expressions);
                Some((node, j + 1))
            } else {
                None
            }
        },
        None => None,
    }
}

/// Parses a comma-separated expression list, stopping before the closing
/// parenthesis.
pub fn expression_list(tokens: &[Token], i: usize) -> (r: Option<(Vec<AST>, usize)>)
    requires
        i <= tokens@.len(),
    ensures
        match r {
            Some((es, j)) => spec_expression_list(toks_dv(tokens@), i as int) == Some(
                (asts_dv(es@), j as int),
            ) && i <= j <= tokens@.len(),
            None => spec_expression_list(toks_dv(tokens@), i as int) is None,
        },
    decreases tokens@.len() - i, 8int,
{
    broadcast use group_ast_dv;

    let mut res = Vec::<AST>::new();
    proof {
        assert(asts_dv(res@) =~= Seq::<AstV>::empty());
    }
    match expression_loop(tokens, i, &mut res) {
        Some(j) => Some((res, j)),
        None => None,
    }
}

/// Parses the remaining expressions of a list into `res`.
pub fn expression_loop(tokens: &[Token], i: usize, res: &mut Vec<AST>) -> (r: Option<usize>)
    requires
        i <= tokens@.len(),
    ensures
        match r {
            Some(j) => spec_expression_loop(toks_dv(tokens@), i as int, asts_dv(old(res)@))
                == Some((asts_dv(final(res)@), j as int)) && i <= j <= tokens@.len(),
            None => spec_expression_loop(toks_dv(tokens@), i as int, asts_dv(old(res)@))
                is None,
        },
    decreases tokens@.len() - i, 7int,
{
    broadcast use group_ast_dv;

    if tok_is_punct_at(tokens, i, 0, Punctuator::ParenthesisRight) {
        if res.len() == 0 {
            return Some(i);
        } else {
            return None;
        }
    }
    match expression(tokens, i) {
        None => None,
        Some((e, j)) => {
            let ghost ev = ast_dv(e);
            res.push(e);
            if tok_is_punct_at(tokens, j, 0, Punctuator::Comma) {
                expression_loop(tokens, j + 1, res)
            } else if tok_is_punct_at(tokens, j, 0, Punctuator::ParenthesisRight) {
                Some(j)
            } else {
                None
            }
        },
    }
}

/// Parses a full expression: the equality tier, left-associative.
pub fn expression(tokens: &[Token], i: usize) -> (r: Option<(AST, usize)>)
    requires
        i <= tokens@.len(),
    ensures
        match r {
            Some((ast, j)) => spec_expression(toks_dv(tokens@), i as int) == Some(
                (ast_dv(ast), j as int),
            ) && i < j <= tokens@.len(),
            None => spec_expression(toks_dv(tokens@), i as int) is None,
        },
    decreases tokens@.len() - i, 5int,
{
    let ghost t = toks_dv(tokens@);
    let (mut lhs, mut seek) = match expression_greater(tokens, i) {
        Some(x) => x,
        None => return None,
    };
    loop
        invariant
            i < seek <= tokens@.len(),
            t == toks_dv(tokens@),
            spec_expression(t, i as int) == spec_eq_chain(t, seek as int, ast_dv(lhs)),
        decreases tokens@.len() - seek,
    {
        if tok_is_punct_at(tokens, seek, 0, Punctuator::DoubleEqual) {
            match expression_greater(tokens, seek + 1) {
                None => return None,
                Some((rhs, j)) => {
                    lhs = make_bin(Operator::Equal, lhs, rhs);
                    seek = j;
                },
            }
        } else {
            return Some((lhs, seek));
        }
    }
}

/// Parses the comparison tier, left-associative.
pub fn expression_greater(tokens: &[Token], i: usize) -> (r: Option<(AST, usize)>)
    requires
        i <= tokens@.len(),
    ensures
        match r {
            Some((ast, j)) => spec_expression_greater(toks_dv(tokens@), i as int) == Some(
                (ast_dv(ast), j as int),
            ) && i < j <= tokens@.len(),
            None => spec_expression_greater(toks_dv(tokens@), i as int) is None,
        },
    decreases tokens@.len() - i, 4int,
{
    let ghost t = toks_dv(tokens@);
    let (mut lhs, mut seek) = match expression_add(tokens, i) {
        Some(x) => x,
        None => return None,
    };
    loop
        invariant
            i < seek <= tokens@.len(),
            t == toks_dv(tokens@),
            spec_expression_greater(t, i as int) == spec_cmp_chain(t, seek as int, ast_dv(lhs)),
        decreases tokens@.len() - seek,
    {
        let op: Operator;
        if tok_is_punct_at(tokens, seek, 0, Punctuator::LessThan) {
            op = Operator::LessThan;
        } else if tok_is_punct_at(tokens, seek, 0, Punctuator::Greater) {
            op = Operator::Greater;
        } else {
            return Some((lhs, seek));
        }
        match expression_add(tokens, seek + 1) {
            None => return None,
            Some((rhs, j)) => {
                lhs = make_bin(op, lhs, rhs);
                seek = j;
            },
        }
    }
}

/// Parses the additive tier, left-associative.
pub fn expression_add(tokens: &[Token], i: usize) -> (r: Option<(AST, usize)>)
    requires
        i <= tokens@.len(),
    ensures
        match r {
            Some((ast, j)) => spec_expression_add(toks_dv(tokens@), i as int) == Some(
                (ast_dv(ast), j as int),
            ) && i < j <= tokens@.len(),
            None => spec_expression_add(toks_dv(tokens@), i as int) is None,
        },
    decreases tokens@.len() - i, 3int,
{
    let ghost t = toks_dv(tokens@);
    let (mut lhs, mut seek) = match expression_mul(tokens, i) {
        Some(x) => x,
        None => return None,
    };
    loop
        invariant
            i < seek <= tokens@.len(),
            t == toks_dv(tokens@),
            spec_expression_add(t, i as int) == spec_add_chain(t, seek as int, ast_dv(lhs)),
        decreases tokens@.len() - seek,
    {
        let op: Operator;
        if tok_is_punct_at(tokens, seek, 0, Punctuator::Plus) {
            op = Operator::Add;
        } else if tok_is_punct_at(tokens, seek, 0, Punctuator::Minus) {
            op = Operator::Sub;
        } else {
            return Some((lhs, seek));
        }
        match expression_mul(tokens, seek + 1) {
            None => return None,
            Some((rhs, j)) => {
                lhs = make_bin(op, lhs, rhs);
                seek = j;
            },
        }
    }
}

/// Parses the multiplicative tier, left-associative.
pub fn expression_mul(tokens: &[Token], i: usize) -> (r: Option<(AST, usize)>)
    requires
        i <= tokens@.len(),
    ensures
        match r {
            Some((ast, j)) => spec_expression_mul(toks_dv(tokens@), i as int) == Some(
                (ast_dv(ast), j as int),
            ) && i < j <= tokens@.len(),
            None => spec_expression_mul(toks_dv(tokens@), i as int) is None,
        },
    decreases tokens@.len() - i, 2int,
{
    let ghost t = toks_dv(tokens@);
    let (mut lhs, mut seek) = match expression_call(tokens, i) {
        Some(x) => x,
        None => return None,
    };
    loop
        invariant
            i < seek <= tokens@.len(),
            t == toks_dv(tokens@),
            spec_expression_mul(t, i as int) == spec_mul_chain(t, seek as int, ast_dv(lhs)),
        decreases tokens@.len() - seek,
    {
        let op: Operator;
        if tok_is_punct_at(tokens, seek, 0, Punctuator::Star) {
            op = Operator::Multiply;
        } else if tok_is_punct_at(tokens, seek, 0, Punctuator::Slash) {
            op = Operator::Division;
        } else if tok_is_punct_at(tokens, seek, 0, Punctuator::Percent) {
            op = Operator::Modulo;
        } else {
            return Some((lhs, seek));
        }
        match expression_call(tokens, seek + 1) {
            None => return None,
            Some((rhs, j)) => {
                lhs = make_bin(op, lhs, rhs);
                seek = j;
            },
        }
    }
}

/// Parses a `return` statement beginning at `i`.
pub fn return_statement(tokens: &[Token], i: usize) -> (r: Option<(AST, usize)>)
    requires
        i <= tokens@.len(),
    ensures
        match r {
            Some((ast, j)) => spec_return_statement(toks_dv(tokens@), i as int) == Some(
                (ast_dv(ast), j as int),
            ) && i < j <= tokens@.len(),
            None => spec_return_statement(toks_dv(tokens@), i as int) is None,
        },
    decreases tokens@.len() - i, 9int,
{
    if !tok_is_kw_at(tokens, i, 0, Keyword::RETURN) {
        return None;
    }
    match expression(tokens, i + 1) {
        None => None,
        Some((ast, j)) => {
            if tok_is_punct_at(tokens, j, 0, Punctuator::SemiColon) {
                let node = make_un(Operator::Return, ast);
                Some((node, j + 1))
            } else {
                None
            }
        },
    }
}

/// Parses an `if` statement beginning at `i`.
#[verifier::rlimit(50)]
pub fn if_statement(tokens: &[Token], i: usize) -> (r: Option<(AST, usize)>)
    requires
        i <= tokens@.len(),
    ensures
        match r {
            Some((ast, j)) => spec_if_statement(toks_dv(tokens@), i as int) == Some(
                (ast_dv(ast), j as int),
            ) && i < j <= tokens@.len(),
            None => spec_if_statement(toks_dv(tokens@), i as int) is None,
        },
    decreases tokens@.len() - i, 9int,
{
    broadcast use group_ast_dv;

    if !tok_is_kw_at(tokens, i, 0, Keyword::IF) {
        return None;
    }
    let (cond, j) = match expression(tokens, i + 1) {
        Some(x) => x,
        None => return None,
    };
    if !tok_is_punct_at(tokens, j, 0, Punctuator::BraceLeft) {
        return None;
    }
    let (statements, k) = match statement_list(tokens, j + 1) {
        Some(x) => x,
        None => return None,
    };
    if !tok_is_punct_at(tokens, k, 0, Punctuator::BraceRight) {
        return None;
    }
    if tok_is_kw_at(tokens, k, 1, Keyword::ELSIF) {
        return None;
    }
    if tok_is_kw_at(tokens, k, 1, Keyword::ELSE) {
        if !tok_is_punct_at(tokens, k, 2, Punctuator::BraceLeft) {
            return None;
        }
        let (else_statements, m) = match statement_list(tokens, k + 3) {
            Some(x) => x,
            None => return None,
        };
        if !tok_is_punct_at(tokens, m, 0, Punctuator::BraceRight) {
            return None;
        }
        let node = make_tri(Operator::If, cond, statements, else_statements);
        Some((node, m + 1))
    } else {
        let node = make_bin(Operator::If, cond, statements);
        Some((node, k + 1))
    }
}

/// Parses a statement: an assignment, a call statement, an `if`, or a
/// `return`.
#[verifier::rlimit(50)]
pub fn statement(tokens: &[Token], i: usize) -> (r: Option<(AST, usize)>)
    requires
        i <= tokens@.len(),
    ensures
        match r {
            Some((ast, j)) => spec_statement(toks_dv(tokens@), i as int) == Some(
                (ast_dv(ast), j as int),
            ) && i < j <= tokens@.len(),
            None => spec_statement(toks_dv(tokens@), i as int) is None,
        },
    decreases tokens@.len() - i, 10int,
{
    broadcast use group_ast_dv;

    if i >= tokens.len() {
        return None;
    }
    let tok = slice_index_get(tokens, i);
    match &tok.token {
        TokenType::Identifier(identifier) => {
            if i + 1 >= tokens.len() {
                return None;
            }
            let tok1 = slice_index_get(tokens, i + 1);
            match &tok1.token {
                TokenType::Punctuator(Punctuator::Equal) => {
                    match expression(tokens, i + 2) {
                        None => None,
                        Some((exp, j)) => {
                            if tok_is_punct_at(tokens, j, 0, Punctuator::SemiColon) {
                                let left = AST::Leaf(Leaf::Identifier(identifier.clone()));
                                let node = make_bin(Operator::Substitute, left, exp);
                                Some((node, j + 1))
                            } else {
                                None
                            }
                        },
                    }
                },
                TokenType::Punctuator(Punctuator::ParenthesisLeft) => {
                    match call(tokens, i, identifier.clone()) {
                        None => None,
                        Some((node, j)) => {
                            if tok_is_punct_at(tokens, j, 0, Punctuator::SemiColon) {
                                Some((node, j + 1))
                            } else {
                                None
                            }
                        },
                    }
                },
                _ => None,
            }
        },
        TokenType::Keyword(Keyword::IF) => if_statement(tokens, i),
        TokenType::Keyword(Keyword::RETURN) => return_statement(tokens, i),
        _ => None,
    }
}

/// Parses the remaining statements of a braced body into `res`, stopping
/// before the closing brace.
pub fn statements_loop(tokens: &[Token], i: usize, res: &mut Vec<AST>) -> (r: Option<usize>)
    requires
        i <= tokens@.len(),
    ensures
        match r {
            Some(j) => spec_statements_loop(toks_dv(tokens@), i as int, asts_dv(old(res)@))
                == Some((asts_dv(final(res)@), j as int)) && i <= j <= tokens@.len(),
            None => spec_statements_loop(toks_dv(tokens@), i as int, asts_dv(old(res)@)) is None,
        },
    decreases tokens@.len() - i, 11int,
{
    broadcast use group_ast_dv;

    if tok_is_punct_at(tokens, i, 0, Punctuator::BraceRight) {
        return Some(i);
    }
    match statement(tokens, i) {
        None => None,
        Some((stm, j)) => {
            res.push(stm);
            statements_loop(tokens, j, res)
        },
    }
}

/// Parses a statement list and wraps it in a `Statement` node.
pub fn statement_list(tokens: &[Token], i: usize) -> (r: Option<(AST, usize)>)
    requires
        i <= tokens@.len(),
    ensures
        match r {
            Some((ast, j)) => spec_statement_list(toks_dv(tokens@), i as int) == Some(
                (ast_dv(ast), j as int),
            ) && i <= j <= tokens@.len(),
            None => spec_statement_list(toks_dv(tokens@), i as int) is None,
        },
    decreases tokens@.len() - i, 12int,
{
    broadcast use group_ast_dv;

    let mut res: Vec<AST> = Vec::new();
    proof {
        assert(asts_dv(res@) =~= Seq::<AstV>::empty());
    }
    match statements_loop(tokens, i, &mut res) {
        Some(j) => {
            let node = make_node(Operator::Statement, res);
            Some((node, j))
        },
        None => None,
    }
}

/// Parses the remaining formal parameter names into `res`.
fn args_loop(tokens: &[Token], j: usize, res: &mut Vec<String>) -> (r: Option<usize>)
    requires
        j <= tokens@.len(),
    ensures
        match r {
            Some(k) => spec_args_loop(toks_dv(tokens@), j as int, strs_dv(old(res)@)) == Some(
                (strs_dv(final(res)@), k as int),
            ) && j < k <= tokens@.len(),
            None => spec_args_loop(toks_dv(tokens@), j as int, strs_dv(old(res)@)) is None,
        },
    decreases tokens@.len() - j,
{
    if j >= tokens.len() {
        return None;
    }
    let tok = slice_index_get(tokens, j);
    match &tok.token {
        TokenType::Punctuator(Punctuator::ParenthesisRight) => {
            if res.len() == 0 {
                Some(j + 1)
            } else {
                None
            }
        },
        TokenType::Identifier(identifier) => {
            if j + 1 >= tokens.len() {
                return None;
            }
            let ghost acc0 = strs_dv(res@);
            res.push(identifier.clone());
            proof {
                assert(strs_dv(res@) =~= acc0.push(tokens@[j as int].token->Identifier_0@));
            }
            let tok1 = slice_index_get(tokens, j + 1);
            match &tok1.token {
                TokenType::Punctuator(Punctuator::Comma) => args_loop(tokens, j + 2, res),
                TokenType::Punctuator(Punctuator::ParenthesisRight) => Some(j + 2),
                _ => None,
            }
        },
        _ => None,
    }
}

/// Parses a parenthesised list of formal parameter names.
pub fn argument_list(tokens: &[Token], i: usize) -> (r: Option<(Vec<String>, usize)>)
    requires
        i <= tokens@.len(),
    ensures
        match r {
            Some((args, j)) => spec_argument_list(toks_dv(tokens@), i as int) == Some(
                (strs_dv(args@), j as int),
            ) && i < j <= tokens@.len(),
            None => spec_argument_list(toks_dv(tokens@), i as int) is None,
        },
    decreases tokens@.len() - i,
{
    if !tok_is_punct_at(tokens, i, 0, Punctuator::ParenthesisLeft) {
        return None;
    }
    let mut res: Vec<String> = Vec::new();
    proof {
        assert(strs_dv(res@) =~= Seq::<Seq<char>>::empty());
    }
    match args_loop(tokens, i + 1, &mut res) {
        Some(j) => Some((res, j)),
        None => None,
    }
}

/// Parses a function declaration beginning at `i`.
#[verifier::rlimit(50)]
pub fn declaration(tokens: &[Token], i: usize) -> (r: Option<(AST, usize)>)
    requires
        i <= tokens@.len(),
    ensures
        match r {
            Some((ast, j)) => spec_declaration(toks_dv(tokens@), i as int) == Some(
                (ast_dv(ast), j as int),
            ) && i < j <= tokens@.len(),
            None => spec_declaration(toks_dv(tokens@), i as int) is None,
        },
    decreases tokens@.len() - i, 13int,
{
    broadcast use group_ast_dv;

    if !tok_is_kw_at(tokens, i, 0, Keyword::FN) {
        return None;
    }
    if !tok_is_punct_at(tokens, i, 1, Punctuator::BracketLeft) {
        return None;
    }
    if tokens.len() - i <= 2 {
        return None;
    }
    let tok2 = slice_index_get(tokens, i + 2);
    let retnum: i32 = match &tok2.token {
        TokenType::Constant(num) => *num,
        _ => return None,
    };
    if retnum < 0 {
        return None;
    }
    if !tok_is_punct_at(tokens, i, 3, Punctuator::BracketRight) {
        return None;
    }
    if tokens.len() - i <= 4 {
        return None;
    }
    let tok4 = slice_index_get(tokens, i + 4);
    let name: String = match &tok4.token {
        TokenType::Identifier(s) => s.clone(),
        _ => return None,
    };
    let (args, j) = match argument_list(tokens, i + 5) {
        Some(x) => x,
        None => return None,
    };
    if !tok_is_punct_at(tokens, j, 0, Punctuator::BraceLeft) {
        return None;
    }
    let (statements, k) = match statement_list(tokens, j + 1) {
        Some(x) => x,
        None => return None,
    };
    if !tok_is_punct_at(tokens, k, 0, Punctuator::BraceRight) {
        return None;
    }
    let node = make_un(
        Operator::FunctionDeclare { name, args, retnum: retnum as usize },
        statements,
    );
    Some((node, k + 1))
}

/// Parses the remaining function declarations into `res`; the whole token
/// vector must be consumed.
pub fn declarations_loop(tokens: &[Token], i: usize, res: &mut Vec<AST>) -> (r: bool)
    requires
        i <= tokens@.len(),
    ensures
        match spec_declarations_loop(toks_dv(tokens@), i as int, asts_dv(old(res)@)) {
            Some(ds) => r && asts_dv(final(res)@) == ds,
            None => !r,
        },
    decreases tokens@.len() - i, 14int,
{
    broadcast use group_ast_dv;

    if i >= tokens.len() {
        return true;
    }
    match declaration(tokens, i) {
        Some((ast, j)) => {
            res.push(ast);
            declarations_loop(tokens, j, res)
        },
        None => false,
    }
}

/// Parses a whole token vector into a `Declare` node over the function
/// declarations, or `None` where the tokens do not parse.
pub fn parse(tokens: &[Token]) -> (r: Option<AST>)
    ensures
        match r {
            Some(ast) => spec_parse(toks_dv(tokens@)) == Some(ast_dv(ast)),
            None => spec_parse(toks_dv(tokens@)) is None,
        },
{
    broadcast use group_ast_dv;

    let mut res: Vec<AST> = Vec::new();
    proof {
        assert(asts_dv(res@) =~= Seq::<AstV>::empty());
    }
    if declarations_loop(tokens, 0, &mut res) {
        let node = make_node(Operator::Declare, res);
        Some(node)
    } else {
        None
    }
}

} // verus!
