use vstd::prelude::*;

use primitive_types::H256;

use crate::ast::meta::SourceRef;
use crate::ast::node_id::NodeId;
use crate::ast::predicate::{ArithOp, ExprV, PredV, Predicate, RefinementExpr, RelOp, UnaryOp, expr_view, filler_expr, pred_holds, atoms_of, valuation_of};
use crate::names::{bool_text, bool_to_string, i64_to_string, join_comma, join_strings, signed_decimal, texts_view, StrMap};
use vstd::string::StringExecFns;

verus! {

#[derive(Debug, PartialEq, Eq, Hash)]
#[allow(inconsistent_fields)]
pub enum Expression {
    Literal(Literal, NodeId, SourceRef),
    Identifier(String, NodeId, SourceRef),
    BinaryOp { left: Box<Expression>, op: BinaryOperator, right: Box<Expression>, id: NodeId, source_ref: SourceRef },
    UnaryOp { op: UnaryOperator, expr: Box<Expression>, id: NodeId, source_ref: SourceRef },
    Grouped(Box<Expression>, NodeId, SourceRef),
    FunctionCall { name: String, args: Vec<Expression>, id: NodeId, source_ref: SourceRef },
    MemberCall { object: Box<Expression>, method: String, args: Vec<Expression>, id: NodeId, source_ref: SourceRef },
}

#[derive(Debug, Clone, Copy, PartialEq, Eq, Hash)]
pub enum BinaryOperator {
    LogicalOr,
    LogicalAnd,
    Equal,
    NotEqual,
    LessEqual,
    Less,
    GreaterEqual,
    Greater,
    Add,
    Subtract,
    Multiply,
    Divide,
    Modulo,
}

#[derive(Debug, Clone, Copy, PartialEq, Eq, Hash)]
pub enum UnaryOperator {
    Negate,
    Not,
}

/// A literal; an address is kept as its 32 bytes.
#[derive(Debug, PartialEq, Eq, Hash)]
pub enum Literal {
    Integer(i64),
    Address([u8; 32]),
    Boolean(bool),
    String(String),
}

pub enum LiteralV {
    Integer(i64),
    Address(Seq<u8>),
    Boolean(bool),
    String(Seq<char>),
}

pub enum ExpressionV {
    Literal(LiteralV, NodeId, SourceRef),
    Identifier(Seq<char>, NodeId, SourceRef),
    BinaryOp(Box<ExpressionV>, BinaryOperator, Box<ExpressionV>, NodeId, SourceRef),
    UnaryOp(UnaryOperator, Box<ExpressionV>, NodeId, SourceRef),
    Grouped(Box<ExpressionV>, NodeId, SourceRef),
    FunctionCall(Seq<char>, Seq<ExpressionV>, NodeId, SourceRef),
    MemberCall(Box<ExpressionV>, Seq<char>, Seq<ExpressionV>, NodeId, SourceRef),
}

pub open spec fn literal_view(l: Literal) -> LiteralV {
    match l {
        Literal::Integer(i) => LiteralV::Integer(i),
        Literal::Address(a) => LiteralV::Address(a@),
        Literal::Boolean(b) => LiteralV::Boolean(b),
        Literal::String(s) => LiteralV::String(s@),
    }
}

pub open spec fn filler_expression() -> ExpressionV {
    ExpressionV::Literal(LiteralV::Integer(0), NodeId(0), SourceRef { start: 0, end: 0 })
}

pub open spec fn expression_view(e: Expression) -> ExpressionV
    decreases e,
{
    match e {
        Expression::Literal(l, id, sr) => ExpressionV::Literal(literal_view(l), id, sr),
        Expression::Identifier(n, id, sr) => ExpressionV::Identifier(n@, id, sr),
        Expression::BinaryOp { left, op, right, id, source_ref } => ExpressionV::BinaryOp(
            Box::new(expression_view(*left)),
            op,
            Box::new(expression_view(*right)),
            id,
            source_ref,
        ),
        Expression::UnaryOp { op, expr, id, source_ref } => ExpressionV::UnaryOp(op, Box::new(expression_view(*expr)), id, source_ref),
        Expression::Grouped(x, id, sr) => ExpressionV::Grouped(Box::new(expression_view(*x)), id, sr),
        Expression::FunctionCall { name, args, id, source_ref } => ExpressionV::FunctionCall(
            name@,
            Seq::new(args.len() as nat, |i: int| if 0 <= i < args.len() { expression_view(args@[i]) } else { filler_expression() }),
            id,
            source_ref,
        ),
        Expression::MemberCall { object, method, args, id, source_ref } => ExpressionV::MemberCall(
            Box::new(expression_view(*object)),
            method@,
            Seq::new(args.len() as nat, |i: int| if 0 <= i < args.len() { expression_view(args@[i]) } else { filler_expression() }),
            id,
            source_ref,
        ),
    }
}

impl View for Expression {
    type V = ExpressionV;

    open spec fn view(&self) -> ExpressionV {
        expression_view(*self)
    }
}

impl View for Literal {
    type V = LiteralV;

    open spec fn view(&self) -> LiteralV {
        literal_view(*self)
    }
}

pub open spec fn expression_id(e: ExpressionV) -> NodeId {
    match e {
        ExpressionV::Literal(_, id, _) => id,
        ExpressionV::Identifier(_, id, _) => id,
        ExpressionV::BinaryOp(_, _, _, id, _) => id,
        ExpressionV::UnaryOp(_, _, id, _) => id,
        ExpressionV::Grouped(_, id, _) => id,
        ExpressionV::FunctionCall(_, _, id, _) => id,
        ExpressionV::MemberCall(_, _, _, id, _) => id,
    }
}

pub open spec fn expression_source_ref(e: ExpressionV) -> SourceRef {
    match e {
        ExpressionV::Literal(_, _, sr) => sr,
        ExpressionV::Identifier(_, _, sr) => sr,
        ExpressionV::BinaryOp(_, _, _, _, sr) => sr,
        ExpressionV::UnaryOp(_, _, _, sr) => sr,
        ExpressionV::Grouped(_, _, sr) => sr,
        ExpressionV::FunctionCall(_, _, _, sr) => sr,
        ExpressionV::MemberCall(_, _, _, _, sr) => sr,
    }
}

// ----- renaming of identifiers -----

/// Renaming where every identifier must be mapped (the original panics
/// otherwise); the object of a member call follows the lenient rule.
pub open spec fn all_idents_mapped(e: ExpressionV, m: Map<Seq<char>, Seq<char>>) -> bool
    decreases e,
{
    match e {
        ExpressionV::Identifier(n, _, _) => m.dom().contains(n),
        ExpressionV::BinaryOp(l, _, r, _, _) => all_idents_mapped(*l, m) && all_idents_mapped(*r, m),
        ExpressionV::UnaryOp(_, x, _, _) => all_idents_mapped(*x, m),
        ExpressionV::Grouped(x, _, _) => all_idents_mapped(*x, m),
        ExpressionV::FunctionCall(_, args, _, _) => forall|i: int| 0 <= i < args.len() ==> all_idents_mapped(#[trigger] args[i], m),
        ExpressionV::MemberCall(_, _, args, _, _) => forall|i: int| 0 <= i < args.len() ==> all_idents_mapped(#[trigger] args[i], m),
        ExpressionV::Literal(..) => true,
    }
}

/// Identifiers renamed through `m`; unmapped ones are kept.
pub open spec fn expression_rename(e: ExpressionV, m: Map<Seq<char>, Seq<char>>) -> ExpressionV
    decreases e,
{
    match e {
        ExpressionV::Identifier(n, id, sr) => ExpressionV::Identifier(
            if m.dom().contains(n) { m[n] } else { n },
            id,
            sr,
        ),
        ExpressionV::BinaryOp(l, op, r, id, sr) => ExpressionV::BinaryOp(
            Box::new(expression_rename(*l, m)),
            op,
            Box::new(expression_rename(*r, m)),
            id,
            sr,
        ),
        ExpressionV::UnaryOp(op, x, id, sr) => ExpressionV::UnaryOp(op, Box::new(expression_rename(*x, m)), id, sr),
        ExpressionV::Grouped(x, id, sr) => ExpressionV::Grouped(Box::new(expression_rename(*x, m)), id, sr),
        ExpressionV::FunctionCall(n, args, id, sr) => ExpressionV::FunctionCall(
            n,
            Seq::new(args.len(), |i: int| if 0 <= i < args.len() { expression_rename(args[i], m) } else { filler_expression() }),
            id,
            sr,
        ),
        ExpressionV::MemberCall(o, n, args, id, sr) => ExpressionV::MemberCall(
            Box::new(expression_rename(*o, m)),
            n,
            Seq::new(args.len(), |i: int| if 0 <= i < args.len() { expression_rename(args[i], m) } else { filler_expression() }),
            id,
            sr,
        ),
        ExpressionV::Literal(..) => e,
    }
}

// ----- used variables -----

/// The identifiers an expression mentions, in order, with repetitions;
/// a function call also names the function.
pub open spec fn used_vars(e: ExpressionV) -> Seq<Seq<char>>
    decreases e,
{
    match e {
        ExpressionV::Literal(..) => Seq::empty(),
        ExpressionV::Identifier(n, _, _) => seq![n],
        ExpressionV::BinaryOp(l, _, r, _, _) => used_vars(*l) + used_vars(*r),
        ExpressionV::UnaryOp(_, x, _, _) => used_vars(*x),
        ExpressionV::Grouped(x, _, _) => used_vars(*x),
        ExpressionV::FunctionCall(n, args, _, _) => seq![n] + used_vars_list(args),
        ExpressionV::MemberCall(o, _, args, _, _) => used_vars(*o) + used_vars_list(args),
    }
}

/// The used variables of a list of expressions, concatenated in order.
pub open spec fn used_vars_list(s: Seq<ExpressionV>) -> Seq<Seq<char>>
    decreases s,
{
    if s.len() == 0 {
        Seq::empty()
    } else {
        used_vars_list(s.subrange(0, s.len() - 1)) + used_vars(s[s.len() - 1])
    }
}

// ----- conversion to refinement logic -----

pub open spec fn is_comparison(op: BinaryOperator) -> bool {
    match op {
        BinaryOperator::Equal | BinaryOperator::NotEqual | BinaryOperator::Less | BinaryOperator::LessEqual
        | BinaryOperator::Greater | BinaryOperator::GreaterEqual => true,
        _ => false,
    }
}

pub open spec fn is_arithmetic(op: BinaryOperator) -> bool {
    match op {
        BinaryOperator::Add | BinaryOperator::Subtract | BinaryOperator::Multiply | BinaryOperator::Divide
        | BinaryOperator::Modulo => true,
        _ => false,
    }
}

pub open spec fn comparison_rel(op: BinaryOperator) -> RelOp {
    match op {
        BinaryOperator::Equal => RelOp::Eq,
        BinaryOperator::NotEqual => RelOp::Neq,
        BinaryOperator::Less => RelOp::Lt,
        BinaryOperator::LessEqual => RelOp::Leq,
        BinaryOperator::Greater => RelOp::Gt,
        _ => RelOp::Geq,
    }
}

pub open spec fn arithmetic_op(op: BinaryOperator) -> ArithOp {
    match op {
        BinaryOperator::Add => ArithOp::Add,
        BinaryOperator::Subtract => ArithOp::Sub,
        BinaryOperator::Multiply => ArithOp::Mul,
        BinaryOperator::Divide => ArithOp::Div,
        _ => ArithOp::Mod,
    }
}

/// The expressions that denote a value in refinement logic: no string
/// literal, no comparison or logical operator, no `!`, no member call.
pub open spec fn is_value_expr(e: ExpressionV) -> bool
    decreases e,
{
    match e {
        ExpressionV::Literal(l, _, _) => !(l is String),
        ExpressionV::Identifier(..) => true,
        ExpressionV::BinaryOp(l, op, r, _, _) => is_arithmetic(op) && is_value_expr(*l) && is_value_expr(*r),
        ExpressionV::UnaryOp(op, x, _, _) => op == UnaryOperator::Negate && is_value_expr(*x),
        ExpressionV::Grouped(x, _, _) => is_value_expr(*x),
        ExpressionV::FunctionCall(_, args, _, _) => forall|i: int| 0 <= i < args.len() ==> is_value_expr(#[trigger] args[i]),
        ExpressionV::MemberCall(..) => false,
    }
}

/// The expressions that denote a condition: boolean literals, identifiers,
/// `&&`, `||`, `!`, comparisons of values, and function calls on values.
pub open spec fn is_condition_expr(e: ExpressionV) -> bool
    decreases e,
{
    match e {
        ExpressionV::Literal(l, _, _) => l is Boolean,
        ExpressionV::Identifier(..) => true,
        ExpressionV::BinaryOp(l, op, r, _, _) => if op == BinaryOperator::LogicalAnd || op == BinaryOperator::LogicalOr {
            is_condition_expr(*l) && is_condition_expr(*r)
        } else {
            is_comparison(op) && is_value_expr(*l) && is_value_expr(*r)
        },
        ExpressionV::UnaryOp(op, x, _, _) => op == UnaryOperator::Not && is_condition_expr(*x),
        ExpressionV::Grouped(x, _, _) => is_condition_expr(*x),
        ExpressionV::FunctionCall(_, args, _, _) => forall|i: int| 0 <= i < args.len() ==> is_value_expr(#[trigger] args[i]),
        ExpressionV::MemberCall(..) => false,
    }
}

pub open spec fn hex_digit(v: int) -> char {
    if v < 10 {
        (('0' as int) + v) as char
    } else {
        (('a' as int) + v - 10) as char
    }
}

/// `0x` followed by two lowercase hex digits per byte.
pub open spec fn hex_0x(bytes: Seq<u8>) -> Seq<char> {
    Seq::new(
        2 + 2 * bytes.len(),
        |i: int| if i == 0 {
            '0'
        } else if i == 1 {
            'x'
        } else if (i - 2) % 2 == 0 {
            hex_digit(bytes[(i - 2) / 2] as int / 16)
        } else {
            hex_digit(bytes[(i - 2) / 2] as int % 16)
        },
    )
}

pub open spec fn to_refinement_spec(e: ExpressionV) -> ExprV
    decreases e,
{
    let id = expression_id(e);
    let sr = expression_source_ref(e);
    match e {
        ExpressionV::Literal(LiteralV::Integer(n), _, _) => ExprV::IntLit(n, id, sr),
        ExpressionV::Literal(LiteralV::Boolean(b), _, _) => ExprV::BoolLit(b, id, sr),
        ExpressionV::Literal(LiteralV::Address(a), _, _) => ExprV::AddressLit(hex_0x(a), id, sr),
        ExpressionV::Identifier(n, _, _) => ExprV::Var(n, id, sr),
        ExpressionV::BinaryOp(l, op, r, _, _) => ExprV::BinOp(
            arithmetic_op(op),
            Box::new(to_refinement_spec(*l)),
            Box::new(to_refinement_spec(*r)),
            id,
            sr,
        ),
        ExpressionV::UnaryOp(_, x, _, _) => ExprV::UnaryOp(UnaryOp::Negate, Box::new(to_refinement_spec(*x)), id, sr),
        ExpressionV::Grouped(x, _, _) => to_refinement_spec(*x),
        ExpressionV::FunctionCall(n, args, _, _) => ExprV::UninterpFn(
            n,
            Seq::new(args.len(), |i: int| if 0 <= i < args.len() { to_refinement_spec(args[i]) } else { filler_expr() }),
            id,
            sr,
        ),
        _ => filler_expr(),
    }
}

pub open spec fn to_predicate_spec(e: ExpressionV) -> PredV
    decreases e,
{
    let id = expression_id(e);
    let sr = expression_source_ref(e);
    match e {
        ExpressionV::Literal(LiteralV::Boolean(b), _, _) => if b { PredV::True(id, sr) } else { PredV::False(id, sr) },
        ExpressionV::Identifier(n, _, _) => PredV::Var(n, id, sr),
        ExpressionV::BinaryOp(l, op, r, _, _) => if op == BinaryOperator::LogicalAnd {
            PredV::And(Box::new(to_predicate_spec(*l)), Box::new(to_predicate_spec(*r)), id, sr)
        } else if op == BinaryOperator::LogicalOr {
            PredV::Or(Box::new(to_predicate_spec(*l)), Box::new(to_predicate_spec(*r)), id, sr)
        } else {
            PredV::BinRel(comparison_rel(op), to_refinement_spec(*l), to_refinement_spec(*r), id, sr)
        },
        ExpressionV::UnaryOp(_, x, _, _) => PredV::Not(Box::new(to_predicate_spec(*x)), id, sr),
        ExpressionV::Grouped(x, _, _) => to_predicate_spec(*x),
        ExpressionV::FunctionCall(n, args, _, _) => PredV::UninterpFnCall(
            n,
            Seq::new(args.len(), |i: int| if 0 <= i < args.len() { to_refinement_spec(args[i]) } else { filler_expr() }),
            id,
            sr,
        ),
        _ => PredV::True(id, sr),
    }
}

/// What a comparison operator of the source language says of two numbers.
pub open spec fn comparison_holds(op: BinaryOperator, a: int, b: int) -> bool {
    match op {
        BinaryOperator::Equal => a == b,
        BinaryOperator::NotEqual => a != b,
        BinaryOperator::Less => a < b,
        BinaryOperator::LessEqual => a <= b,
        BinaryOperator::Greater => a > b,
        BinaryOperator::GreaterEqual => a >= b,
        _ => false,
    }
}

/// What an arithmetic operator of the source language gives of two numbers.
pub open spec fn arithmetic_result(op: BinaryOperator, a: int, b: int) -> int {
    match op {
        BinaryOperator::Add => a + b,
        BinaryOperator::Subtract => a - b,
        BinaryOperator::Multiply => a * b,
        BinaryOperator::Divide => a / b,
        _ => a % b,
    }
}

/// The truth of a condition as the source language reads it: a boolean
/// literal is itself, a name its truth, `&&`, `||` and `!` are the
/// connectives, a comparison compares the values of its operands, and a
/// call is an atom.
pub open spec fn condition_holds(
    e: ExpressionV,
    value: spec_fn(ExprV) -> int,
    truth: spec_fn(Seq<char>) -> bool,
    atom: spec_fn(PredV) -> bool,
) -> bool
    decreases e,
{
    match e {
        ExpressionV::Literal(LiteralV::Boolean(b), _, _) => b,
        ExpressionV::Identifier(n, _, _) => truth(n),
        ExpressionV::BinaryOp(l, op, r, _, _) => if op == BinaryOperator::LogicalAnd {
            condition_holds(*l, value, truth, atom) && condition_holds(*r, value, truth, atom)
        } else if op == BinaryOperator::LogicalOr {
            condition_holds(*l, value, truth, atom) || condition_holds(*r, value, truth, atom)
        } else {
            comparison_holds(op, value(to_refinement_spec(*l)), value(to_refinement_spec(*r)))
        },
        ExpressionV::UnaryOp(_, x, _, _) => !condition_holds(*x, value, truth, atom),
        ExpressionV::Grouped(x, _, _) => condition_holds(*x, value, truth, atom),
        ExpressionV::FunctionCall(..) => atom(to_predicate_spec(e)),
        _ => true,
    }
}

/// A condition's predicate means the condition: under any values of its
/// value expressions and any truth of its names, the predicate holds
/// exactly when the condition does; in particular each comparison means
/// its operator (`a <= b` holds exactly when `a ≤ b`).
pub proof fn lemma_to_predicate_meaning(
    e: ExpressionV,
    value: spec_fn(ExprV) -> int,
    truth: spec_fn(Seq<char>) -> bool,
    atom: spec_fn(PredV) -> bool,
)
    requires
        is_condition_expr(e),
        atoms_of(atom, truth),
    ensures
        pred_holds(to_predicate_spec(e), value, atom) == condition_holds(e, value, truth, atom),
    decreases e,
{
    match e {
        ExpressionV::Identifier(n, _, _) => {
            assert(atom(PredV::Var(n, expression_id(e), expression_source_ref(e))) == truth(n));
        },
        ExpressionV::BinaryOp(l, op, r, _, _) => {
            if op == BinaryOperator::LogicalAnd || op == BinaryOperator::LogicalOr {
                lemma_to_predicate_meaning(*l, value, truth, atom);
                lemma_to_predicate_meaning(*r, value, truth, atom);
            }
        },
        ExpressionV::UnaryOp(_, x, _, _) => lemma_to_predicate_meaning(*x, value, truth, atom),
        ExpressionV::Grouped(x, _, _) => lemma_to_predicate_meaning(*x, value, truth, atom),
        _ => {},
    }
}

/// A comparison of two value expressions means its operator on their
/// numbers: with numbers given to names, `l op r` converts to a predicate
/// that holds exactly when the numbers of `l` and `r` compare as `op` says.
pub proof fn lemma_comparison_meaning(
    l: ExpressionV,
    op: BinaryOperator,
    r: ExpressionV,
    id: NodeId,
    sr: SourceRef,
    value: spec_fn(ExprV) -> int,
    env: spec_fn(Seq<char>) -> int,
    atom: spec_fn(PredV) -> bool,
)
    requires
        is_comparison(op),
        valuation_of(value, env),
    ensures
        pred_holds(to_predicate_spec(ExpressionV::BinaryOp(Box::new(l), op, Box::new(r), id, sr)), value, atom) == comparison_holds(
            op,
            value(to_refinement_spec(l)),
            value(to_refinement_spec(r)),
        ),
        l matches ExpressionV::Identifier(x, _, _) ==> value(to_refinement_spec(l)) == env(x),
        l matches ExpressionV::Literal(LiteralV::Integer(n), _, _) ==> value(to_refinement_spec(l)) == n as int,
        r matches ExpressionV::Identifier(x, _, _) ==> value(to_refinement_spec(r)) == env(x),
        r matches ExpressionV::Literal(LiteralV::Integer(n), _, _) ==> value(to_refinement_spec(r)) == n as int,
{
}

/// A value expression converts to an expression with its value: with a
/// number for each name, a name is its number, an integer literal itself,
/// an arithmetic operation the operation on its operands' values, and a
/// negation the negated value.
pub proof fn lemma_to_refinement_meaning(e: ExpressionV, value: spec_fn(ExprV) -> int, env: spec_fn(Seq<char>) -> int)
    requires
        valuation_of(value, env),
    ensures
        e matches ExpressionV::Identifier(n, _, _) ==> value(to_refinement_spec(e)) == env(n),
        e matches ExpressionV::Literal(LiteralV::Integer(n), _, _) ==> value(to_refinement_spec(e)) == n as int,
        e matches ExpressionV::BinaryOp(l, op, r, _, _) ==> (is_arithmetic(op) ==> value(to_refinement_spec(e)) == arithmetic_result(
            op,
            value(to_refinement_spec(*l)),
            value(to_refinement_spec(*r)),
        )),
        e matches ExpressionV::UnaryOp(UnaryOperator::Negate, x, _, _) ==> value(to_refinement_spec(e)) == -value(to_refinement_spec(*x)),
        e matches ExpressionV::Grouped(x, _, _) ==> value(to_refinement_spec(e)) == value(to_refinement_spec(*x)),
{
}

/// `H256`'s display form: `0x`, the first two bytes, `…`, the last two bytes.
pub open spec fn hex_short(bytes: Seq<u8>) -> Seq<char> {
    hex_0x(bytes.subrange(0, 2)) + seq!['…'] + hex_0x(bytes.subrange(30, 32)).subrange(2, 6)
}

/// `Display` of `primitive_types::H256` (fixed-hash): `0x`, the first two
/// bytes in lowercase hex, `…`, the last two bytes.
#[verifier::external_body]
pub(crate) fn address_display_string(bytes: &[u8; 32]) -> (r: String)
    ensures
        r@ == hex_short(bytes@),
{
    format!("{}", H256(*bytes))
}

/// `Debug` of `primitive_types::H256` (fixed-hash): `0x` and 64 lowercase
/// hex digits.
#[verifier::external_body]
pub(crate) fn address_debug_string(bytes: &[u8; 32]) -> (r: String)
    ensures
        r@ == hex_0x(bytes@),
{
    format!("{:?}", H256(*bytes))
}

impl Clone for Literal {
    fn clone(&self) -> (r: Self)
        ensures
            r@ == self@,
    {
        match self {
            Literal::Integer(i) => Literal::Integer(*i),
            Literal::Address(a) => Literal::Address(*a),
            Literal::Boolean(b) => Literal::Boolean(*b),
            Literal::String(s) => Literal::String(s.clone()),
        }
    }
}

/// An element-by-element copy of an argument list.
pub fn clone_expressions(v: &Vec<Expression>) -> (r: Vec<Expression>)
    ensures
        r.len() == v.len(),
        forall|j: int| 0 <= j < v.len() ==> (#[trigger] r@[j])@ == v@[j]@,
    decreases v,
{
    let mut out: Vec<Expression> = Vec::new();
    let mut i: usize = 0;
    while i < v.len()
        invariant
            i <= v.len(),
            out.len() == i,
            forall|j: int| 0 <= j < i ==> (#[trigger] out@[j])@ == v@[j]@,
        decreases v.len() - i,
    {
        proof {
            broadcast use vstd::std_specs::vec::group_vec_axioms;
            assert(decreases_to!(*v => v[i as int]));
        }
        out.push(v[i].clone());
        i = i + 1;
    }
    out
}

impl Clone for Expression {
    fn clone(&self) -> (r: Self)
        ensures
            r@ == self@,
        decreases *self,
    {
        match self {
            Expression::Literal(l, id, sr) => Expression::Literal(l.clone(), *id, *sr),
            Expression::Identifier(n, id, sr) => Expression::Identifier(n.clone(), *id, *sr),
            Expression::BinaryOp { left, op, right, id, source_ref } => Expression::BinaryOp {
                left: Box::new((**left).clone()),
                op: *op,
                right: Box::new((**right).clone()),
                id: *id,
                source_ref: *source_ref,
            },
            Expression::UnaryOp { op, expr, id, source_ref } => Expression::UnaryOp {
                op: *op,
                expr: Box::new((**expr).clone()),
                id: *id,
                source_ref: *source_ref,
            },
            Expression::Grouped(x, id, sr) => Expression::Grouped(Box::new((**x).clone()), *id, *sr),
            Expression::FunctionCall { name, args, id, source_ref } => {
                let out = clone_expressions(args);
                let r = Expression::FunctionCall { name: name.clone(), args: out, id: *id, source_ref: *source_ref };
                proof {
                    assert(r@->FunctionCall_1 =~= self@->FunctionCall_1);
                }
                r
            },
            Expression::MemberCall { object, method, args, id, source_ref } => {
                let out = clone_expressions(args);
                let r = Expression::MemberCall {
                    object: Box::new((**object).clone()),
                    method: method.clone(),
                    args: out,
                    id: *id,
                    source_ref: *source_ref,
                };
                proof {
                    assert(r@->MemberCall_2 =~= self@->MemberCall_2);
                }
                r
            },
        }
    }
}

impl Expression {
    /// The node id of this expression.
    pub fn id(&self) -> (r: NodeId)
        ensures
            r == expression_id(self@),
    {
        match self {
            Expression::Literal(_, id, _) => *id,
            Expression::Identifier(_, id, _) => *id,
            Expression::BinaryOp { id, .. } => *id,
            Expression::UnaryOp { id, .. } => *id,
            Expression::Grouped(_, id, _) => *id,
            Expression::FunctionCall { id, .. } => *id,
            Expression::MemberCall { id, .. } => *id,
        }
    }

    /// The source position of this expression.
    pub fn source_ref(&self) -> (r: &SourceRef)
        ensures
            *r == expression_source_ref(self@),
    {
        match self {
            Expression::Literal(_, _, sr) => sr,
            Expression::Identifier(_, _, sr) => sr,
            Expression::BinaryOp { source_ref, .. } => source_ref,
            Expression::UnaryOp { source_ref, .. } => source_ref,
            Expression::Grouped(_, _, sr) => sr,
            Expression::FunctionCall { source_ref, .. } => source_ref,
            Expression::MemberCall { source_ref, .. } => source_ref,
        }
    }

    /// Renames identifiers; every identifier outside a member call's object
    /// must be mapped.
    #[verifier::loop_isolation(false)]
    pub fn substitute_vars(&self, stacks: &StrMap<String>) -> (r: Expression)
        requires
            all_idents_mapped(self@, stacks@),
        ensures
            r@ == expression_rename(self@, stacks@),
        decreases *self,
    {
        match self {
            Expression::Identifier(name, id, sr) => {
                match stacks.get(name.as_str()) {
                    Some(stack) => Expression::Identifier(stack.clone(), *id, *sr),
                    None => Expression::Identifier(name.clone(), *id, *sr),
                }
            },
            Expression::BinaryOp { left, op, right, id, source_ref } => Expression::BinaryOp {
                left: Box::new(left.substitute_vars(stacks)),
                op: *op,
                right: Box::new(right.substitute_vars(stacks)),
                id: *id,
                source_ref: *source_ref,
            },
            Expression::UnaryOp { op, expr, id, source_ref } => Expression::UnaryOp {
                op: *op,
                expr: Box::new(expr.substitute_vars(stacks)),
                id: *id,
                source_ref: *source_ref,
            },
            Expression::Grouped(inner, id, sr) => Expression::Grouped(Box::new(inner.substitute_vars(stacks)), *id, *sr),
            Expression::FunctionCall { name, args, id, source_ref } => {
                let mut out: Vec<Expression> = Vec::new();
                let mut i: usize = 0;
                while i < args.len()
                    invariant
                        i <= args.len(),
                        out.len() == i,
                        forall|j: int| 0 <= j < i ==> (#[trigger] out@[j])@ == expression_rename(args@[j]@, stacks@),
                    decreases args.len() - i,
                {
                    proof {
                        broadcast use vstd::std_specs::vec::group_vec_axioms;
                        assert(decreases_to!(*args => args[i as int]));
                        assert(self@->FunctionCall_1[i as int] == args@[i as int]@);
                    }
                    out.push(args[i].substitute_vars(stacks));
                    i = i + 1;
                }
                let r = Expression::FunctionCall { name: name.clone(), args: out, id: *id, source_ref: *source_ref };
                proof {
                    assert(r@->FunctionCall_1 =~= expression_rename(self@, stacks@)->FunctionCall_1);
                }
                r
            },
            Expression::MemberCall { object, method, args, id, source_ref } => {
                let obj = object.substitute_identifiers(stacks);
                let mut out: Vec<Expression> = Vec::new();
                let mut i: usize = 0;
                while i < args.len()
                    invariant
                        i <= args.len(),
                        out.len() == i,
                        forall|j: int| 0 <= j < i ==> (#[trigger] out@[j])@ == expression_rename(args@[j]@, stacks@),
                    decreases args.len() - i,
                {
                    proof {
                        broadcast use vstd::std_specs::vec::group_vec_axioms;
                        assert(decreases_to!(*args => args[i as int]));
                        assert(self@->MemberCall_2[i as int] == args@[i as int]@);
                    }
                    out.push(args[i].substitute_vars(stacks));
                    i = i + 1;
                }
                let r = Expression::MemberCall { object: Box::new(obj), method: method.clone(), args: out, id: *id, source_ref: *source_ref };
                proof {
                    assert(r@->MemberCall_2 =~= expression_rename(self@, stacks@)->MemberCall_2);
                }
                r
            },
            Expression::Literal(lit, id, sr) => Expression::Literal(lit.clone(), *id, *sr),
        }
    }

    /// Renames identifiers; unmapped identifiers are left unchanged.
    #[verifier::loop_isolation(false)]
    pub fn substitute_identifiers(&self, mapping: &StrMap<String>) -> (r: Expression)
        ensures
            r@ == expression_rename(self@, mapping@),
        decreases *self,
    {
        match self {
            Expression::Identifier(name, id, sr) => {
                match mapping.get(name.as_str()) {
                    Some(new_name) => Expression::Identifier(new_name.clone(), *id, *sr),
                    None => Expression::Identifier(name.clone(), *id, *sr),
                }
            },
            Expression::BinaryOp { left, op, right, id, source_ref } => Expression::BinaryOp {
                left: Box::new(left.substitute_identifiers(mapping)),
                op: *op,
                right: Box::new(right.substitute_identifiers(mapping)),
                id: *id,
                source_ref: *source_ref,
            },
            Expression::UnaryOp { op, expr, id, source_ref } => Expression::UnaryOp {
                op: *op,
                expr: Box::new(expr.substitute_identifiers(mapping)),
                id: *id,
                source_ref: *source_ref,
            },
            Expression::Grouped(inner, id, sr) => Expression::Grouped(Box::new(inner.substitute_identifiers(mapping)), *id, *sr),
            Expression::FunctionCall { name, args, id, source_ref } => {
                let out = rename_expressions(args, mapping);
                let r = Expression::FunctionCall { name: name.clone(), args: out, id: *id, source_ref: *source_ref };
                proof {
                    assert(r@->FunctionCall_1 =~= expression_rename(self@, mapping@)->FunctionCall_1);
                }
                r
            },
            Expression::MemberCall { object, method, args, id, source_ref } => {
                let obj = object.substitute_identifiers(mapping);
                let out = rename_expressions(args, mapping);
                let r = Expression::MemberCall { object: Box::new(obj), method: method.clone(), args: out, id: *id, source_ref: *source_ref };
                proof {
                    assert(r@->MemberCall_2 =~= expression_rename(self@, mapping@)->MemberCall_2);
                }
                r
            },
            Expression::Literal(lit, id, sr) => Expression::Literal(lit.clone(), *id, *sr),
        }
    }

    /// The identifiers the expression mentions, in order (see `used_vars`).
    #[verifier::loop_isolation(false)]
    pub fn get_used_vars(&self) -> (r: Vec<String>)
        ensures
            r@.map_values(|s: String| s@) == used_vars(self@),
        decreases *self,
    {
        match self {
            Expression::Literal(_, _, _) => {
                let r: Vec<String> = Vec::new();
                proof {
                    assert(r@.map_values(|s: String| s@) =~= used_vars(self@));
                }
                r
            },
            Expression::Identifier(name, _, _) => {
                let mut r: Vec<String> = Vec::new();
                r.push(name.clone());
                proof {
                    assert(r@.map_values(|s: String| s@) =~= used_vars(self@));
                }
                r
            },
            Expression::BinaryOp { left, right, .. } => {
                let mut vars = left.get_used_vars();
                let mut more = right.get_used_vars();
                let ghost a = vars@;
                let ghost b = more@;
                vars.append(&mut more);
                proof {
                    assert(vars@ == a + b);
                    assert((a + b).map_values(|s: String| s@) =~= a.map_values(|s: String| s@) + b.map_values(|s: String| s@));
                }
                vars
            },
            Expression::UnaryOp { expr, .. } => expr.get_used_vars(),
            Expression::Grouped(inner, ..) => inner.get_used_vars(),
            Expression::FunctionCall { name, args, .. } => {
                let mut vars: Vec<String> = Vec::new();
                vars.push(name.clone());
                let ghost args_v = self@->FunctionCall_1;
                proof {
                    assert(args_v.subrange(0, 0) =~= Seq::<ExpressionV>::empty());
                    assert(vars@.map_values(|s: String| s@) =~= seq![name@] + used_vars_list(args_v.subrange(0, 0)));
                }
                let mut i: usize = 0;
                while i < args.len()
                    invariant
                        i <= args.len(),
                        args_v.len() == args.len(),
                        vars@.map_values(|s: String| s@) == seq![name@] + used_vars_list(args_v.subrange(0, i as int)),
                    decreases args.len() - i,
                {
                    proof {
                        broadcast use vstd::std_specs::vec::group_vec_axioms;
                        assert(decreases_to!(*args => args[i as int]));
                        assert(args_v[i as int] == args@[i as int]@);
                    }
                    let mut more = args[i].get_used_vars();
                    let ghost a = vars@;
                    let ghost b = more@;
                    vars.append(&mut more);
                    proof {
                        let sub = args_v.subrange(0, i + 1);
                        assert(sub.subrange(0, sub.len() - 1) =~= args_v.subrange(0, i as int));
                        assert(sub[sub.len() - 1] == args_v[i as int]);
                        assert((a + b).map_values(|s: String| s@) =~= a.map_values(|s: String| s@) + b.map_values(|s: String| s@));
                        assert(vars@.map_values(|s: String| s@) =~= seq![name@] + used_vars_list(args_v.subrange(0, i + 1)));
                    }
                    i = i + 1;
                }
                proof {
                    assert(args_v.subrange(0, args.len() as int) =~= args_v);
                }
                vars
            },
            Expression::MemberCall { object, args, .. } => {
                let mut vars = object.get_used_vars();
                let ghost head = vars@.map_values(|s: String| s@);
                let ghost args_v = self@->MemberCall_2;
                proof {
                    assert(args_v.subrange(0, 0) =~= Seq::<ExpressionV>::empty());
                    assert(head + used_vars_list(args_v.subrange(0, 0)) =~= head);
                }
                let mut i: usize = 0;
                while i < args.len()
                    invariant
                        i <= args.len(),
                        args_v.len() == args.len(),
                        vars@.map_values(|s: String| s@) == head + used_vars_list(args_v.subrange(0, i as int)),
                    decreases args.len() - i,
                {
                    proof {
                        broadcast use vstd::std_specs::vec::group_vec_axioms;
                        assert(decreases_to!(*args => args[i as int]));
                        assert(args_v[i as int] == args@[i as int]@);
                    }
                    let mut more = args[i].get_used_vars();
                    let ghost a = vars@;
                    let ghost b = more@;
                    vars.append(&mut more);
                    proof {
                        let sub = args_v.subrange(0, i + 1);
                        assert(sub.subrange(0, sub.len() - 1) =~= args_v.subrange(0, i as int));
                        assert(sub[sub.len() - 1] == args_v[i as int]);
                        assert((a + b).map_values(|s: String| s@) =~= a.map_values(|s: String| s@) + b.map_values(|s: String| s@));
                        assert(vars@.map_values(|s: String| s@) =~= head + used_vars_list(args_v.subrange(0, i + 1)));
                    }
                    i = i + 1;
                }
                proof {
                    assert(args_v.subrange(0, args.len() as int) =~= args_v);
                }
                vars
            },
        }
    }

    /// Converts a value expression to a refinement expression.
    #[verifier::loop_isolation(false)]
    pub fn to_refinement_expr(&self) -> (r: RefinementExpr)
        requires
            is_value_expr(self@),
        ensures
            r@ == to_refinement_spec(self@),
        decreases *self,
    {
        let id = self.id();
        let sr = *self.source_ref();
        match self {
            Expression::Literal(Literal::Integer(n), _, _) => RefinementExpr::IntLit(*n, id, sr),
            Expression::Literal(Literal::Boolean(b), _, _) => RefinementExpr::BoolLit(*b, id, sr),
            Expression::Literal(Literal::Address(addr), _, _) => RefinementExpr::AddressLit(address_debug_string(addr), id, sr),
            Expression::Literal(Literal::String(_), _, _) => {
                proof {
                    assert(false);
                }
                RefinementExpr::IntLit(0, id, sr)
            },
            Expression::Identifier(name, _, _) => RefinementExpr::Var(name.clone(), id, sr),
            Expression::BinaryOp { left, op, right, .. } => {
                let arith_op = match op {
                    BinaryOperator::Add => ArithOp::Add,
                    BinaryOperator::Subtract => ArithOp::Sub,
                    BinaryOperator::Multiply => ArithOp::Mul,
                    BinaryOperator::Divide => ArithOp::Div,
                    _ => ArithOp::Mod,
                };
                RefinementExpr::BinOp {
                    op: arith_op,
                    lhs: Box::new(left.to_refinement_expr()),
                    rhs: Box::new(right.to_refinement_expr()),
                    id,
                    source_ref: sr,
                }
            },
            Expression::UnaryOp { expr, .. } => RefinementExpr::UnaryOp {
                op: UnaryOp::Negate,
                expr: Box::new(expr.to_refinement_expr()),
                id,
                source_ref: sr,
            },
            Expression::Grouped(inner, _, _) => inner.to_refinement_expr(),
            Expression::FunctionCall { name, args, .. } => {
                proof {
                    assert forall|j: int| 0 <= j < args.len() implies is_value_expr(#[trigger] args@[j]@) by {
                        assert(self@->FunctionCall_1[j] == args@[j]@);
                    }
                }
                let out = refinements_of(args);
                let r = RefinementExpr::UninterpFn { name: name.clone(), args: out, id, source_ref: sr };
                proof {
                    assert(r@->UninterpFn_1 =~= to_refinement_spec(self@)->UninterpFn_1);
                }
                r
            },
            Expression::MemberCall { .. } => {
                proof {
                    assert(false);
                }
                RefinementExpr::IntLit(0, id, sr)
            },
        }
    }

    /// Converts a condition expression to a predicate.
    #[verifier::loop_isolation(false)]
    pub fn to_predicate(&self) -> (r: Predicate)
        requires
            is_condition_expr(self@),
        ensures
            r@ == to_predicate_spec(self@),
        decreases *self,
    {
        let id = self.id();
        let sr = *self.source_ref();
        match self {
            Expression::Literal(Literal::Boolean(true), _, _) => Predicate::True(id, sr),
            Expression::Literal(Literal::Boolean(false), _, _) => Predicate::False(id, sr),
            Expression::Literal(_, _, _) => {
                proof {
                    assert(false);
                }
                Predicate::True(id, sr)
            },
            Expression::Identifier(name, _, _) => Predicate::Var(name.clone(), id, sr),
            Expression::BinaryOp { left, op: BinaryOperator::LogicalAnd, right, .. } => Predicate::And(
                Box::new(left.to_predicate()),
                Box::new(right.to_predicate()),
                id,
                sr,
            ),
            Expression::BinaryOp { left, op: BinaryOperator::LogicalOr, right, .. } => Predicate::Or(
                Box::new(left.to_predicate()),
                Box::new(right.to_predicate()),
                id,
                sr,
            ),
            Expression::BinaryOp { left, op, right, .. } => {
                let rel_op = match op {
                    BinaryOperator::Equal => RelOp::Eq,
                    BinaryOperator::NotEqual => RelOp::Neq,
                    BinaryOperator::Less => RelOp::Lt,
                    BinaryOperator::LessEqual => RelOp::Leq,
                    BinaryOperator::Greater => RelOp::Gt,
                    _ => RelOp::Geq,
                };
                Predicate::BinRel { op: rel_op, lhs: left.to_refinement_expr(), rhs: right.to_refinement_expr(), id, source_ref: sr }
            },
            Expression::UnaryOp { expr, .. } => Predicate::Not(Box::new(expr.to_predicate()), id, sr),
            Expression::Grouped(inner, _, _) => inner.to_predicate(),
            Expression::FunctionCall { name, args, .. } => {
                proof {
                    assert forall|j: int| 0 <= j < args.len() implies is_value_expr(#[trigger] args@[j]@) by {
                        assert(self@->FunctionCall_1[j] == args@[j]@);
                    }
                }
                let out = refinements_of(args);
                let r = Predicate::UninterpFnCall { name: name.clone(), args: out, id, source_ref: sr };
                proof {
                    assert(r@->UninterpFnCall_1 =~= to_predicate_spec(self@)->UninterpFnCall_1);
                }
                r
            },
            Expression::MemberCall { .. } => {
                proof {
                    assert(false);
                }
                Predicate::True(id, sr)
            },
        }
    }
}

/// Renames identifiers in every expression of a list.
pub fn rename_expressions(args: &Vec<Expression>, mapping: &StrMap<String>) -> (r: Vec<Expression>)
    ensures
        r.len() == args.len(),
        forall|j: int| 0 <= j < args.len() ==> (#[trigger] r@[j])@ == expression_rename(args@[j]@, mapping@),
    decreases args,
{
    let mut out: Vec<Expression> = Vec::new();
    let mut i: usize = 0;
    while i < args.len()
        invariant
            i <= args.len(),
            out.len() == i,
            forall|j: int| 0 <= j < i ==> (#[trigger] out@[j])@ == expression_rename(args@[j]@, mapping@),
        decreases args.len() - i,
    {
        proof {
            broadcast use vstd::std_specs::vec::group_vec_axioms;
            assert(decreases_to!(*args => args[i as int]));
        }
        out.push(args[i].substitute_identifiers(mapping));
        i = i + 1;
    }
    out
}

/// Converts every argument of a call to a refinement expression.
pub fn refinements_of(args: &Vec<Expression>) -> (r: Vec<RefinementExpr>)
    requires
        forall|j: int| 0 <= j < args.len() ==> is_value_expr(#[trigger] args@[j]@),
    ensures
        r.len() == args.len(),
        forall|j: int| 0 <= j < args.len() ==> (#[trigger] r@[j])@ == to_refinement_spec(args@[j]@),
    decreases args,
{
    let mut out: Vec<RefinementExpr> = Vec::new();
    let mut i: usize = 0;
    while i < args.len()
        invariant
            i <= args.len(),
            out.len() == i,
            forall|j: int| 0 <= j < args.len() ==> is_value_expr(#[trigger] args@[j]@),
            forall|j: int| 0 <= j < i ==> (#[trigger] out@[j])@ == to_refinement_spec(args@[j]@),
        decreases args.len() - i,
    {
        proof {
            broadcast use vstd::std_specs::vec::group_vec_axioms;
            assert(decreases_to!(*args => args[i as int]));
        }
        out.push(args[i].to_refinement_expr());
        i = i + 1;
    }
    out
}

// ---------------------------------------------------------------------------
// Text
// ---------------------------------------------------------------------------

pub open spec fn binop_text(op: BinaryOperator) -> Seq<char> {
    match op {
        BinaryOperator::LogicalOr => seq!['|', '|'],
        BinaryOperator::LogicalAnd => seq!['&', '&'],
        BinaryOperator::Equal => seq!['=', '='],
        BinaryOperator::NotEqual => seq!['!', '='],
        BinaryOperator::LessEqual => seq!['<', '='],
        BinaryOperator::Less => seq!['<'],
        BinaryOperator::GreaterEqual => seq!['>', '='],
        BinaryOperator::Greater => seq!['>'],
        BinaryOperator::Add => seq!['+'],
        BinaryOperator::Subtract => seq!['-'],
        BinaryOperator::Multiply => seq!['*'],
        BinaryOperator::Divide => seq!['/'],
        BinaryOperator::Modulo => seq!['%'],
    }
}

pub open spec fn unop_text(op: UnaryOperator) -> Seq<char> {
    match op {
        UnaryOperator::Negate => seq!['-'],
        UnaryOperator::Not => seq!['!'],
    }
}

/// How a literal is written: a string between double quotes, an address in
/// `H256`'s short form.
pub open spec fn literal_text(l: LiteralV) -> Seq<char> {
    match l {
        LiteralV::Integer(i) => signed_decimal(i as int),
        LiteralV::Address(a) => hex_short(a),
        LiteralV::Boolean(b) => bool_text(b),
        LiteralV::String(s) => seq!['"'] + s + seq!['"'],
    }
}

/// How each expression of a list is written.
pub open spec fn expression_texts(args: Seq<ExpressionV>) -> Seq<Seq<char>>
    decreases args,
{
    Seq::new(args.len(), |i: int| if 0 <= i < args.len() { expression_text(args[i]) } else { Seq::empty() })
}

/// How an expression is written.
pub open spec fn expression_text(e: ExpressionV) -> Seq<char>
    decreases e,
{
    match e {
        ExpressionV::Literal(l, _, _) => literal_text(l),
        ExpressionV::Identifier(n, _, _) => n,
        ExpressionV::BinaryOp(l, op, r, _, _) => expression_text(*l) + seq![' '] + binop_text(op) + seq![' '] + expression_text(*r),
        ExpressionV::UnaryOp(op, x, _, _) => unop_text(op) + expression_text(*x),
        ExpressionV::Grouped(x, _, _) => seq!['('] + expression_text(*x) + seq![')'],
        ExpressionV::FunctionCall(n, args, _, _) => n + seq!['('] + join_comma(expression_texts(args)) + seq![')'],
        ExpressionV::MemberCall(o, m, args, _, _) => expression_text(*o) + seq!['.'] + m + seq!['('] + join_comma(
            expression_texts(args),
        ) + seq![')'],
    }
}

impl BinaryOperator {
    pub fn to_string(&self) -> (r: String)
        ensures
            r@ == binop_text(*self),
    {
        proof {
            reveal_strlit("||");
            reveal_strlit("&&");
            reveal_strlit("==");
            reveal_strlit("!=");
            reveal_strlit("<=");
            reveal_strlit("<");
            reveal_strlit(">=");
            reveal_strlit(">");
            reveal_strlit("+");
            reveal_strlit("-");
            reveal_strlit("*");
            reveal_strlit("/");
            reveal_strlit("%");
        }
        let s = match self {
            BinaryOperator::LogicalOr => "||",
            BinaryOperator::LogicalAnd => "&&",
            BinaryOperator::Equal => "==",
            BinaryOperator::NotEqual => "!=",
            BinaryOperator::LessEqual => "<=",
            BinaryOperator::Less => "<",
            BinaryOperator::GreaterEqual => ">=",
            BinaryOperator::Greater => ">",
            BinaryOperator::Add => "+",
            BinaryOperator::Subtract => "-",
            BinaryOperator::Multiply => "*",
            BinaryOperator::Divide => "/",
            BinaryOperator::Modulo => "%",
        };
        let r = String::from_str(s);
        assert(r@ =~= binop_text(*self));
        r
    }
}

impl UnaryOperator {
    pub fn to_string(&self) -> (r: String)
        ensures
            r@ == unop_text(*self),
    {
        proof {
            reveal_strlit("-");
            reveal_strlit("!");
        }
        let r = match self {
            UnaryOperator::Negate => String::from_str("-"),
            UnaryOperator::Not => String::from_str("!"),
        };
        assert(r@ =~= unop_text(*self));
        r
    }
}

impl Literal {
    pub fn to_string(&self) -> (r: String)
        ensures
            r@ == literal_text(self@),
    {
        proof {
            reveal_strlit("\"");
            assert("\""@ =~= seq!['"']);
        }
        match self {
            Literal::Integer(i) => i64_to_string(*i),
            Literal::Address(a) => address_display_string(a),
            Literal::Boolean(b) => bool_to_string(*b),
            Literal::String(s) => String::from_str("\"").concat(s.as_str()).concat("\""),
        }
    }
}

/// The arguments written one after the other, separated by `, `.
#[verifier::loop_isolation(false)]
fn expressions_text(args: &Vec<Expression>) -> (r: String)
    ensures
        r@ == join_comma(
            expression_texts(
                Seq::new(args.len() as nat, |i: int| if 0 <= i < args.len() { expression_view(args@[i]) } else { filler_expression() }),
            ),
        ),
    decreases args, 1nat,
{
    let ghost views = Seq::new(args.len() as nat, |i: int| if 0 <= i < args.len() { expression_view(args@[i]) } else { filler_expression() });
    let mut parts: Vec<String> = Vec::new();
    let mut i: usize = 0;
    while i < args.len()
        invariant
            i <= args.len(),
            parts.len() == i,
            forall|j: int| 0 <= j < i ==> (#[trigger] parts@[j])@ == expression_text(views[j]),
        decreases args.len() - i,
    {
        proof {
            broadcast use vstd::std_specs::vec::group_vec_axioms;
            assert(decreases_to!(*args => args[i as int]));
        }
        parts.push(args[i].to_string());
        i = i + 1;
    }
    proof {
        assert(texts_view(parts@) =~= expression_texts(views));
    }
    join_strings(&parts)
}

impl Expression {
    /// How the expression is written.
    #[verifier::loop_isolation(false)]
    pub fn to_string(&self) -> (r: String)
        ensures
            r@ == expression_text(self@),
        decreases *self, 0nat,
    {
        proof {
            reveal_strlit("(");
            reveal_strlit(")");
            reveal_strlit(" ");
            reveal_strlit(".");
            assert("("@ =~= seq!['(']);
            assert(")"@ =~= seq![')']);
            assert(" "@ =~= seq![' ']);
            assert("."@ =~= seq!['.']);
        }
        match self {
            Expression::Literal(l, _, _) => l.to_string(),
            Expression::Identifier(n, _, _) => n.clone(),
            Expression::BinaryOp { left, op, right, .. } => {
                let l = left.to_string();
                let o = op.to_string();
                let r = right.to_string();
                let out = l.concat(" ").concat(o.as_str()).concat(" ").concat(r.as_str());
                assert(out@ == expression_text(self@));
                out
            },
            Expression::UnaryOp { op, expr, .. } => {
                let o = op.to_string();
                let x = expr.to_string();
                o.concat(x.as_str())
            },
            Expression::Grouped(inner, _, _) => {
                let x = inner.to_string();
                let out = String::from_str("(").concat(x.as_str()).concat(")");
                assert(out@ == expression_text(self@));
                out
            },
            Expression::FunctionCall { name, args, .. } => {
                let a = expressions_text(args);
                proof {
                    assert(self@->FunctionCall_1 =~= Seq::new(args.len() as nat, |i: int| if 0 <= i < args.len() { expression_view(args@[i]) } else { filler_expression() }));
                }
                let out = name.clone().concat("(").concat(a.as_str()).concat(")");
                assert(out@ == expression_text(self@));
                out
            },
            Expression::MemberCall { object, method, args, .. } => {
                let o = object.to_string();
                let a = expressions_text(args);
                proof {
                    assert(self@->MemberCall_2 =~= Seq::new(args.len() as nat, |i: int| if 0 <= i < args.len() { expression_view(args@[i]) } else { filler_expression() }));
                }
                let out = o.concat(".").concat(method.as_str()).concat("(").concat(a.as_str()).concat(")");
                assert(out@ == expression_text(self@));
                out
            },
        }
    }
}

} // verus!
