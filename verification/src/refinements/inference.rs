use vstd::prelude::*;
use vstd::string::StringExecFns;

use crate::ast::expression::{BinaryOperator, UnaryOperator, address_debug_string, address_display_string, hex_0x, hex_short, comparison_holds, arithmetic_result, is_comparison, is_arithmetic};
use crate::ast::meta::SourceRef;
use crate::ast::node_id::NodeId;
use crate::ast::predicate::{ArithOp, ExprV, PredV, Predicate, RefinementExpr, RelOp, UnaryOp, pred_holds, valuation_of, atoms_of};
use crate::ast::types::{BaseType, BaseTypeV, Type, TypeV};
use crate::errors::MerakError;
use crate::ir::{
    CallTarget, CallTargetV, Constant, ConstantV, InstrV, Operand, OperandV, Register, RegisterV, SsaCfg, SsaInstruction, SymbolId, SymbolIdV, Terminator,
    symbol_eq,
};
use crate::names::{StrMap, StrSet};
use crate::refinements::constraints::{Constraint, ConstraintSet, ConstraintV, TypeContext, preds_view};
use crate::refinements::environment::{TypeEnvironment, lemma_index_of};
use crate::ast::contract::Param;
use crate::refinements::qualifiers::{QualifierSet, dedup, self_name, syn_id, unknown_ref};
use crate::refinements::smt::{z3_config_new, z3_context_new};
use crate::refinements::solver::{ConstraintSolver, binary_arith, binary_rel, iff_pred, var_expr, var_pred};
use crate::refinements::templates::{Template, TemplateV};
use crate::symbols::{SymbolKind, SymbolTable};

verus! {

// ---------------------------------------------------------------------------
// Operands as refinement expressions and predicates
// ---------------------------------------------------------------------------

/// An operand as it appears in a fact: a register by its name, a constant
/// as a literal; an address in full hexadecimal, a string as 0 (strings
/// have no refinement form).
pub open spec fn operand_fact_expr(o: OperandV) -> ExprV {
    match o {
        OperandV::Location(r) => var_expr(r.name()),
        OperandV::Constant(c) => match c {
            ConstantV::Int(n) => ExprV::IntLit(n, syn_id(), unknown_ref()),
            ConstantV::Bool(b) => ExprV::BoolLit(b, syn_id(), unknown_ref()),
            ConstantV::Address(a) => ExprV::AddressLit(hex_0x(a), syn_id(), unknown_ref()),
            ConstantV::String(_) => ExprV::IntLit(0, syn_id(), unknown_ref()),
        },
    }
}

/// An operand as it appears in a template's refinement: as in a fact, but
/// an address in its short form.
pub open spec fn operand_template_expr(o: OperandV) -> ExprV {
    match o {
        OperandV::Constant(ConstantV::Address(a)) => ExprV::AddressLit(hex_short(a), syn_id(), unknown_ref()),
        _ => operand_fact_expr(o),
    }
}

/// Whether an operand can stand as a predicate: a register (a boolean
/// variable) or a boolean constant.
pub open spec fn predicate_operand(o: OperandV) -> bool {
    match o {
        OperandV::Location(_) => true,
        OperandV::Constant(ConstantV::Bool(_)) => true,
        _ => false,
    }
}

pub open spec fn operand_pred(o: OperandV) -> PredV {
    match o {
        OperandV::Location(r) => var_pred(r.name()),
        OperandV::Constant(ConstantV::Bool(true)) => PredV::True(syn_id(), unknown_ref()),
        _ => PredV::False(syn_id(), unknown_ref()),
    }
}

/// Converts an operand for a fact.
pub fn operand_to_refinement_expr(operand: &Operand) -> (r: RefinementExpr)
    ensures
        r@ == operand_fact_expr(operand@),
{
    match operand {
        Operand::Location(reg) => RefinementExpr::Var(reg.to_string(), NodeId::new(0), SourceRef::unknown()),
        Operand::Constant(c) => match c {
            Constant::Int(n) => RefinementExpr::IntLit(*n, NodeId::new(0), SourceRef::unknown()),
            Constant::Bool(b) => RefinementExpr::BoolLit(*b, NodeId::new(0), SourceRef::unknown()),
            Constant::Address(a) => RefinementExpr::AddressLit(address_debug_string(a), NodeId::new(0), SourceRef::unknown()),
            Constant::String(_) => RefinementExpr::IntLit(0, NodeId::new(0), SourceRef::unknown()),
        },
    }
}

/// Converts an operand for a template's refinement.
pub fn operand_to_template_expr(operand: &Operand) -> (r: RefinementExpr)
    ensures
        r@ == operand_template_expr(operand@),
{
    match operand {
        Operand::Constant(Constant::Address(a)) => RefinementExpr::AddressLit(address_display_string(a), NodeId::new(0), SourceRef::unknown()),
        _ => operand_to_refinement_expr(operand),
    }
}

/// An operand as a predicate.
pub fn operand_to_predicate(operand: &Operand) -> (r: Predicate)
    requires
        predicate_operand(operand@),
    ensures
        r@ == operand_pred(operand@),
{
    match operand {
        Operand::Location(register) => Predicate::Var(register.to_string(), NodeId::new(0), SourceRef::unknown()),
        Operand::Constant(Constant::Bool(value)) => if *value {
            Predicate::True(NodeId::new(0), SourceRef::unknown())
        } else {
            Predicate::False(NodeId::new(0), SourceRef::unknown())
        },
        _ => Predicate::False(NodeId::new(0), SourceRef::unknown()),
    }
}

/// The arithmetic operator of a binary operator, if it has one.
pub fn binary_op_to_arith(op: BinaryOperator) -> (r: Option<ArithOp>)
    ensures
        r == binary_arith(op),
{
    match op {
        BinaryOperator::Add => Some(ArithOp::Add),
        BinaryOperator::Subtract => Some(ArithOp::Sub),
        BinaryOperator::Multiply => Some(ArithOp::Mul),
        BinaryOperator::Divide => Some(ArithOp::Div),
        BinaryOperator::Modulo => Some(ArithOp::Mod),
        _ => None,
    }
}

/// The relation of a comparison operator, if it is one.
pub fn binary_op_to_rel(op: BinaryOperator) -> (r: Option<RelOp>)
    ensures
        r == binary_rel(op),
{
    match op {
        BinaryOperator::Equal => Some(RelOp::Eq),
        BinaryOperator::NotEqual => Some(RelOp::Neq),
        BinaryOperator::Less => Some(RelOp::Lt),
        BinaryOperator::LessEqual => Some(RelOp::Leq),
        BinaryOperator::Greater => Some(RelOp::Gt),
        BinaryOperator::GreaterEqual => Some(RelOp::Geq),
        _ => None,
    }
}

// ---------------------------------------------------------------------------
// Templates of operations
// ---------------------------------------------------------------------------

pub open spec fn self_var() -> ExprV {
    var_expr(self_name())
}

pub open spec fn concrete(base: BaseTypeV, refinement: PredV, sr: SourceRef) -> TemplateV {
    TemplateV::Concrete { base, binder: self_name(), refinement, source_ref: sr }
}

/// The template of a binary operation's result: `__self = l ⊗ r` for
/// arithmetic (at the given base type), the comparison for comparisons,
/// the connective of the operands for `&&` and `||` (at `bool`).
pub open spec fn binary_op_template(left: OperandV, op: BinaryOperator, right: OperandV, base: BaseTypeV, sr: SourceRef) -> TemplateV {
    match binary_arith(op) {
        Some(a) => concrete(
            base,
            PredV::BinRel(
                RelOp::Eq,
                self_var(),
                ExprV::BinOp(a, Box::new(operand_template_expr(left)), Box::new(operand_template_expr(right)), syn_id(), unknown_ref()),
                syn_id(),
                sr,
            ),
            sr,
        ),
        None => match binary_rel(op) {
            Some(rel) => concrete(
                BaseTypeV::Bool,
                PredV::BinRel(rel, operand_template_expr(left), operand_template_expr(right), syn_id(), unknown_ref()),
                sr,
            ),
            None => concrete(
                BaseTypeV::Bool,
                if op == BinaryOperator::LogicalAnd {
                    PredV::And(Box::new(operand_pred(left)), Box::new(operand_pred(right)), syn_id(), unknown_ref())
                } else {
                    PredV::Or(Box::new(operand_pred(left)), Box::new(operand_pred(right)), syn_id(), unknown_ref())
                },
                sr,
            ),
        },
    }
}

/// The refinement of a template, `true` for a liquid one.
pub open spec fn refinement_of(t: TemplateV) -> PredV {
    match t {
        TemplateV::Concrete { refinement, .. } => refinement,
        TemplateV::Liquid { .. } => PredV::True(syn_id(), unknown_ref()),
    }
}

/// The truth of a boolean operand: a register's truth, or the constant.
pub open spec fn operand_truth(o: OperandV, truth: spec_fn(Seq<char>) -> bool) -> bool {
    match o {
        OperandV::Location(r) => truth(r.name()),
        OperandV::Constant(ConstantV::Bool(b)) => b,
        _ => false,
    }
}

/// The template of a binary operation means the operation. With numbers
/// given to names and truths to boolean registers, its refinement holds
/// exactly when: for `&&` both operands hold, for `||` one of them does;
/// for a comparison the operands' values compare as the operator says;
/// for arithmetic the refined value is the operation on the operands'
/// values. `&&`, `||` and comparisons give a boolean.
pub proof fn lemma_binary_template_meaning(
    left: OperandV,
    op: BinaryOperator,
    right: OperandV,
    base: BaseTypeV,
    sr: SourceRef,
    value: spec_fn(ExprV) -> int,
    env: spec_fn(Seq<char>) -> int,
    atom: spec_fn(PredV) -> bool,
    truth: spec_fn(Seq<char>) -> bool,
)
    requires
        valuation_of(value, env),
        atoms_of(atom, truth),
    ensures
        binary_op_template(left, op, right, base, sr) is Concrete,
        binary_op_template(left, op, right, base, sr).binder() == self_name(),
        op == BinaryOperator::LogicalAnd && predicate_operand(left) && predicate_operand(right) ==> binary_op_template(
            left,
            op,
            right,
            base,
            sr,
        ).base() == BaseTypeV::Bool && (pred_holds(refinement_of(binary_op_template(left, op, right, base, sr)), value, atom) <==> operand_truth(
            left,
            truth,
        ) && operand_truth(right, truth)),
        op == BinaryOperator::LogicalOr && predicate_operand(left) && predicate_operand(right) ==> binary_op_template(
            left,
            op,
            right,
            base,
            sr,
        ).base() == BaseTypeV::Bool && (pred_holds(refinement_of(binary_op_template(left, op, right, base, sr)), value, atom) <==> operand_truth(
            left,
            truth,
        ) || operand_truth(right, truth)),
        is_comparison(op) ==> binary_op_template(left, op, right, base, sr).base() == BaseTypeV::Bool && (pred_holds(
            refinement_of(binary_op_template(left, op, right, base, sr)),
            value,
            atom,
        ) <==> comparison_holds(op, value(operand_template_expr(left)), value(operand_template_expr(right)))),
        is_arithmetic(op) ==> (pred_holds(refinement_of(binary_op_template(left, op, right, base, sr)), value, atom) <==> env(self_name())
            == arithmetic_result(op, value(operand_template_expr(left)), value(operand_template_expr(right)))),
{
    let ln = match left {
        OperandV::Location(r) => r.name(),
        _ => self_name(),
    };
    let rn = match right {
        OperandV::Location(r) => r.name(),
        _ => self_name(),
    };
    assert(atom(PredV::Var(ln, syn_id(), unknown_ref())) == truth(ln));
    assert(atom(PredV::Var(rn, syn_id(), unknown_ref())) == truth(rn));
    assert(value(ExprV::Var(self_name(), syn_id(), unknown_ref())) == env(self_name()));
    if predicate_operand(left) {
        assert(pred_holds(operand_pred(left), value, atom) == operand_truth(left, truth));
    }
    if predicate_operand(right) {
        assert(pred_holds(operand_pred(right), value, atom) == operand_truth(right, truth));
    }
}

/// The template of a unary operation's result: `__self = -x`, or `¬x`.
pub open spec fn unary_op_template(op: UnaryOperator, operand: OperandV, base: BaseTypeV, sr: SourceRef) -> TemplateV {
    match op {
        UnaryOperator::Negate => concrete(
            base,
            PredV::BinRel(
                RelOp::Eq,
                self_var(),
                ExprV::UnaryOp(UnaryOp::Negate, Box::new(operand_template_expr(operand)), syn_id(), unknown_ref()),
                syn_id(),
                sr,
            ),
            sr,
        ),
        UnaryOperator::Not => concrete(BaseTypeV::Bool, PredV::Not(Box::new(operand_pred(operand)), syn_id(), sr), sr),
    }
}

/// The template of a unary operation means the operation: the refinement
/// of `!x` holds exactly when `x` does not; that of `-x` exactly when the
/// refined value is the negation of `x`'s value.
pub proof fn lemma_unary_template_meaning(
    op: UnaryOperator,
    operand: OperandV,
    base: BaseTypeV,
    sr: SourceRef,
    value: spec_fn(ExprV) -> int,
    env: spec_fn(Seq<char>) -> int,
    atom: spec_fn(PredV) -> bool,
    truth: spec_fn(Seq<char>) -> bool,
)
    requires
        valuation_of(value, env),
        atoms_of(atom, truth),
    ensures
        unary_op_template(op, operand, base, sr) is Concrete,
        op == UnaryOperator::Not && predicate_operand(operand) ==> unary_op_template(op, operand, base, sr).base() == BaseTypeV::Bool && (
        pred_holds(refinement_of(unary_op_template(op, operand, base, sr)), value, atom) <==> !operand_truth(operand, truth)),
        op == UnaryOperator::Negate ==> (pred_holds(refinement_of(unary_op_template(op, operand, base, sr)), value, atom) <==> env(
            self_name(),
        ) == -value(operand_template_expr(operand))),
{
    let n = match operand {
        OperandV::Location(r) => r.name(),
        _ => self_name(),
    };
    assert(atom(PredV::Var(n, syn_id(), unknown_ref())) == truth(n));
    assert(value(ExprV::Var(self_name(), syn_id(), unknown_ref())) == env(self_name()));
    if predicate_operand(operand) {
        assert(pred_holds(operand_pred(operand), value, atom) == operand_truth(operand, truth));
    }
}

/// The template of a constant: `__self = c` (`true` for a string).
pub open spec fn constant_template(c: ConstantV) -> TemplateV {
    match c {
        ConstantV::Int(n) => concrete(
            BaseTypeV::Int,
            PredV::BinRel(RelOp::Eq, self_var(), ExprV::IntLit(n, syn_id(), unknown_ref()), syn_id(), unknown_ref()),
            unknown_ref(),
        ),
        ConstantV::Bool(b) => concrete(
            BaseTypeV::Bool,
            PredV::BinRel(RelOp::Eq, self_var(), ExprV::BoolLit(b, syn_id(), unknown_ref()), syn_id(), unknown_ref()),
            unknown_ref(),
        ),
        ConstantV::Address(a) => concrete(
            BaseTypeV::Address,
            PredV::BinRel(RelOp::Eq, self_var(), ExprV::AddressLit(hex_short(a), syn_id(), unknown_ref()), syn_id(), unknown_ref()),
            unknown_ref(),
        ),
        ConstantV::String(_) => concrete(BaseTypeV::String, PredV::True(syn_id(), unknown_ref()), unknown_ref()),
    }
}

fn self_string() -> (r: String)
    ensures
        r@ == self_name(),
{
    proof {
        reveal_strlit("__self");
        assert("__self"@ =~= self_name());
    }
    String::from_str("__self")
}

fn self_expr() -> (r: RefinementExpr)
    ensures
        r@ == self_var(),
{
    RefinementExpr::Var(self_string(), NodeId::new(0), SourceRef::unknown())
}

/// The template of a binary operation's result.
pub fn infer_binary_op_template(left: &Operand, op: BinaryOperator, right: &Operand, base_type: &BaseType, source_ref: SourceRef) -> (r: Template)
    requires
        (op == BinaryOperator::LogicalAnd || op == BinaryOperator::LogicalOr) ==> predicate_operand(left@) && predicate_operand(right@),
    ensures
        r@ == binary_op_template(left@, op, right@, base_type@, source_ref),
{
    match binary_op_to_arith(op) {
        Some(arith_op) => Template::Concrete {
            base: base_type.clone(),
            binder: self_string(),
            refinement: Predicate::BinRel {
                op: RelOp::Eq,
                lhs: self_expr(),
                rhs: RefinementExpr::BinOp {
                    op: arith_op,
                    lhs: Box::new(operand_to_template_expr(left)),
                    rhs: Box::new(operand_to_template_expr(right)),
                    id: NodeId::new(0),
                    source_ref: SourceRef::unknown(),
                },
                id: NodeId::new(0),
                source_ref,
            },
            source_ref,
        },
        None => match binary_op_to_rel(op) {
            Some(rel_op) => Template::Concrete {
                base: BaseType::Bool,
                binder: self_string(),
                refinement: Predicate::BinRel {
                    op: rel_op,
                    lhs: operand_to_template_expr(left),
                    rhs: operand_to_template_expr(right),
                    id: NodeId::new(0),
                    source_ref: SourceRef::unknown(),
                },
                source_ref,
            },
            None => {
                let l = operand_to_predicate(left);
                let r = operand_to_predicate(right);
                let logical = match op {
                    BinaryOperator::LogicalAnd => Predicate::And(Box::new(l), Box::new(r), NodeId::new(0), SourceRef::unknown()),
                    _ => Predicate::Or(Box::new(l), Box::new(r), NodeId::new(0), SourceRef::unknown()),
                };
                Template::Concrete { base: BaseType::Bool, binder: self_string(), refinement: logical, source_ref }
            },
        },
    }
}

/// The template of a unary operation's result.
pub fn infer_unary_op_template(op: UnaryOperator, operand: &Operand, base_type: &BaseType, source_ref: SourceRef) -> (r: Template)
    requires
        op == UnaryOperator::Not ==> predicate_operand(operand@),
    ensures
        r@ == unary_op_template(op, operand@, base_type@, source_ref),
{
    match op {
        UnaryOperator::Negate => Template::Concrete {
            base: base_type.clone(),
            binder: self_string(),
            refinement: Predicate::BinRel {
                op: RelOp::Eq,
                lhs: self_expr(),
                rhs: RefinementExpr::UnaryOp {
                    op: UnaryOp::Negate,
                    expr: Box::new(operand_to_template_expr(operand)),
                    id: NodeId::new(0),
                    source_ref: SourceRef::unknown(),
                },
                id: NodeId::new(0),
                source_ref,
            },
            source_ref,
        },
        UnaryOperator::Not => {
            let p = operand_to_predicate(operand);
            Template::Concrete { base: BaseType::Bool, binder: self_string(), refinement: Predicate::Not(Box::new(p), NodeId::new(0), source_ref), source_ref }
        },
    }
}

/// The template of a constant operand.
pub fn constant_to_template(c: &Constant) -> (r: Template)
    ensures
        r@ == constant_template(c@),
{
    let (base, rhs) = match c {
        Constant::Int(value) => (BaseType::Int, RefinementExpr::IntLit(*value, NodeId::new(0), SourceRef::unknown())),
        Constant::Bool(value) => (BaseType::Bool, RefinementExpr::BoolLit(*value, NodeId::new(0), SourceRef::unknown())),
        Constant::Address(a) => (BaseType::Address, RefinementExpr::AddressLit(address_display_string(a), NodeId::new(0), SourceRef::unknown())),
        Constant::String(_) => {
            return Template::Concrete {
                base: BaseType::String,
                binder: self_string(),
                refinement: Predicate::True(NodeId::new(0), SourceRef::unknown()),
                source_ref: SourceRef::unknown(),
            };
        },
    };
    Template::Concrete {
        base,
        binder: self_string(),
        refinement: Predicate::BinRel { op: RelOp::Eq, lhs: self_expr(), rhs, id: NodeId::new(0), source_ref: SourceRef::unknown() },
        source_ref: SourceRef::unknown(),
    }
}

// ---------------------------------------------------------------------------
// Constants of a program
// ---------------------------------------------------------------------------

/// The integer constants of an expression, in order of appearance.
pub open spec fn expr_constants(e: ExprV) -> Seq<i64>
    decreases e,
{
    match e {
        ExprV::IntLit(n, _, _) => seq![n],
        ExprV::BinOp(_, l, r, _, _) => expr_constants(*l) + expr_constants(*r),
        ExprV::UnaryOp(_, x, _, _) => expr_constants(*x),
        ExprV::Old(x, _, _) => expr_constants(*x),
        ExprV::UninterpFn(_, args, _, _) => args_constants(args),
        _ => Seq::empty(),
    }
}

pub open spec fn args_constants(args: Seq<ExprV>) -> Seq<i64>
    decreases args,
{
    if args.len() == 0 {
        Seq::empty()
    } else {
        args_constants(args.drop_last()) + expr_constants(args.last())
    }
}

/// The integer constants of a predicate, in order of appearance (the
/// arguments of a predicate symbol are not looked into).
pub open spec fn pred_constants(p: PredV) -> Seq<i64>
    decreases p,
{
    match p {
        PredV::BinRel(_, l, r, _, _) => expr_constants(l) + expr_constants(r),
        PredV::And(a, b, _, _) | PredV::Or(a, b, _, _) | PredV::Implies(a, b, _, _) => pred_constants(*a) + pred_constants(*b),
        PredV::Not(q, _, _) => pred_constants(*q),
        _ => Seq::empty(),
    }
}

pub open spec fn operand_constant(o: OperandV) -> Seq<i64> {
    match o {
        OperandV::Constant(ConstantV::Int(n)) => seq![n],
        _ => Seq::empty(),
    }
}

pub open spec fn operands_constants(os: Seq<OperandV>) -> Seq<i64>
    decreases os.len(),
{
    if os.len() == 0 {
        Seq::empty()
    } else {
        operands_constants(os.drop_last()) + operand_constant(os.last())
    }
}

/// The integer constants an instruction uses directly.
pub open spec fn instr_constants(i: InstrV) -> Seq<i64> {
    match i {
        InstrV::Copy(_, s, _) => operand_constant(s),
        InstrV::BinaryOp(_, _, l, r, _) => operand_constant(l) + operand_constant(r),
        InstrV::UnaryOp(_, _, x, _) => operand_constant(x),
        InstrV::Call(_, _, args, _) => operands_constants(args),
        InstrV::StorageStore(_, v, _) => operand_constant(v),
        InstrV::Assert(c, _) => operand_constant(c),
        _ => Seq::empty(),
    }
}

fn push_operand_constant(o: &Operand, out: &mut Vec<i64>)
    ensures
        final(out)@ == old(out)@ + operand_constant(o@),
{
    if let Operand::Constant(Constant::Int(n)) = o {
        out.push(*n);
        proof {
            assert(out@ =~= old(out)@ + operand_constant(o@));
        }
    } else {
        proof {
            assert(out@ =~= old(out)@ + operand_constant(o@));
        }
    }
}

/// Appends the integer constants an instruction uses directly.
pub fn extract_constants_from_instruction(instr: &SsaInstruction, out: &mut Vec<i64>)
    ensures
        final(out)@ == old(out)@ + instr_constants(instr@),
{
    match instr {
        SsaInstruction::Copy { source, .. } => push_operand_constant(source, out),
        SsaInstruction::BinaryOp { left, right, .. } => {
            push_operand_constant(left, out);
            push_operand_constant(right, out);
            proof {
                assert(out@ =~= old(out)@ + instr_constants(instr@));
            }
        },
        SsaInstruction::UnaryOp { operand, .. } => push_operand_constant(operand, out),
        SsaInstruction::Call { args, .. } => {
            let ghost av = args@.map_values(|o: Operand| o@);
            let mut i: usize = 0;
            proof {
                assert(out@ =~= old(out)@ + operands_constants(av.subrange(0, 0)));
            }
            while i < args.len()
                invariant
                    i <= args.len(),
                    av == args@.map_values(|o: Operand| o@),
                    out@ == old(out)@ + operands_constants(av.subrange(0, i as int)),
                decreases args.len() - i,
            {
                push_operand_constant(&args[i], out);
                proof {
                    assert(av.subrange(0, i + 1).drop_last() =~= av.subrange(0, i as int));
                    assert(out@ =~= old(out)@ + operands_constants(av.subrange(0, i + 1)));
                }
                i = i + 1;
            }
            proof {
                assert(av.subrange(0, args.len() as int) =~= av);
            }
        },
        SsaInstruction::StorageStore { value, .. } => push_operand_constant(value, out),
        SsaInstruction::Assert { condition, .. } => push_operand_constant(condition, out),
        _ => {
            proof {
                assert(out@ =~= old(out)@ + instr_constants(instr@));
            }
        },
    }
}

/// Appends the integer constants of an expression.
#[verifier::loop_isolation(false)]
pub fn extract_constants_from_expr(expr: &RefinementExpr, out: &mut Vec<i64>)
    ensures
        final(out)@ == old(out)@ + expr_constants(expr@),
    decreases *expr,
{
    match expr {
        RefinementExpr::IntLit(n, _, _) => {
            out.push(*n);
            proof {
                assert(out@ =~= old(out)@ + expr_constants(expr@));
            }
        },
        RefinementExpr::BinOp { lhs, rhs, .. } => {
            extract_constants_from_expr(lhs, out);
            extract_constants_from_expr(rhs, out);
            proof {
                assert(out@ =~= old(out)@ + expr_constants(expr@));
            }
        },
        RefinementExpr::UnaryOp { expr: x, .. } => extract_constants_from_expr(x, out),
        RefinementExpr::Old { expr: x, .. } => extract_constants_from_expr(x, out),
        RefinementExpr::UninterpFn { args, .. } => {
            let ghost av = expr@->UninterpFn_1;
            let mut i: usize = 0;
            proof {
                assert(out@ =~= old(out)@ + args_constants(av.subrange(0, 0)));
            }
            while i < args.len()
                invariant
                    i <= args.len(),
                    av.len() == args.len(),
                    forall|j: int| 0 <= j < args.len() ==> av[j] == (#[trigger] args@[j])@,
                    out@ == old(out)@ + args_constants(av.subrange(0, i as int)),
                decreases args.len() - i,
            {
                proof {
                    broadcast use vstd::std_specs::vec::group_vec_axioms;
                    assert(decreases_to!(*args => args[i as int]));
                }
                extract_constants_from_expr(&args[i], out);
                proof {
                    assert(av.subrange(0, i + 1).drop_last() =~= av.subrange(0, i as int));
                    assert(av.subrange(0, i + 1).last() == av[i as int]);
                    assert(out@ =~= old(out)@ + args_constants(av.subrange(0, i + 1)));
                }
                i = i + 1;
            }
            proof {
                assert(av.subrange(0, args.len() as int) =~= av);
            }
        },
        _ => {
            proof {
                assert(out@ =~= old(out)@ + expr_constants(expr@));
            }
        },
    }
}

/// Appends the integer constants of a predicate.
pub fn extract_constants_from_predicate(pred: &Predicate, out: &mut Vec<i64>)
    ensures
        final(out)@ == old(out)@ + pred_constants(pred@),
    decreases *pred,
{
    match pred {
        Predicate::BinRel { lhs, rhs, .. } => {
            extract_constants_from_expr(lhs, out);
            extract_constants_from_expr(rhs, out);
            proof {
                assert(out@ =~= old(out)@ + pred_constants(pred@));
            }
        },
        Predicate::And(a, b, _, _) | Predicate::Or(a, b, _, _) | Predicate::Implies(a, b, _, _) => {
            extract_constants_from_predicate(a, out);
            extract_constants_from_predicate(b, out);
            proof {
                assert(out@ =~= old(out)@ + pred_constants(pred@));
            }
        },
        Predicate::Not(q, _, _) => extract_constants_from_predicate(q, out),
        _ => {
            proof {
                assert(out@ =~= old(out)@ + pred_constants(pred@));
            }
        },
    }
}

/// The constants of a branch condition.
pub open spec fn terminator_constants(t: Terminator) -> Seq<i64> {
    match t {
        Terminator::Branch { condition, .. } => operand_constant(condition@),
        _ => Seq::empty(),
    }
}

pub open spec fn instrs_constants(is: Seq<SsaInstruction>) -> Seq<i64>
    decreases is.len(),
{
    if is.len() == 0 {
        Seq::empty()
    } else {
        instrs_constants(is.drop_last()) + instr_constants(is.last()@)
    }
}

pub open spec fn blocks_constants(bs: Seq<crate::ir::BasicBlock>) -> Seq<i64>
    decreases bs.len(),
{
    if bs.len() == 0 {
        Seq::empty()
    } else {
        blocks_constants(bs.drop_last()) + instrs_constants(bs.last().instructions@) + terminator_constants(bs.last().terminator)
    }
}

pub open spec fn preds_constants(ps: Seq<Predicate>) -> Seq<i64>
    decreases ps.len(),
{
    if ps.len() == 0 {
        Seq::empty()
    } else {
        preds_constants(ps.drop_last()) + pred_constants(ps.last()@)
    }
}

/// The integer constants of a function: its instructions and branch
/// conditions block by block, then its `requires` and `ensures`.
pub open spec fn cfg_constants(cfg: &SsaCfg) -> Seq<i64> {
    blocks_constants(cfg.blocks@) + preds_constants(cfg.requires@) + preds_constants(cfg.ensures@)
}

/// Every constant a function's code or contract mentions, each once, in
/// order of first appearance.
#[verifier::loop_isolation(false)]
pub fn extract_constants_from_cfg(cfg: &SsaCfg) -> (r: Vec<i64>)
    ensures
        r@ == dedup(cfg_constants(cfg)),
{
    let mut all: Vec<i64> = Vec::new();
    let mut b: usize = 0;
    proof {
        assert(cfg.blocks@.subrange(0, 0) =~= Seq::<crate::ir::BasicBlock>::empty());
    }
    while b < cfg.blocks.len()
        invariant
            b <= cfg.blocks.len(),
            all@ == blocks_constants(cfg.blocks@.subrange(0, b as int)),
        decreases cfg.blocks.len() - b,
    {
        let block = &cfg.blocks[b];
        let ghost before = all@;
        let mut k: usize = 0;
        proof {
            assert(block.instructions@.subrange(0, 0) =~= Seq::<SsaInstruction>::empty());
            assert(all@ =~= before + instrs_constants(block.instructions@.subrange(0, 0)));
        }
        while k < block.instructions.len()
            invariant
                k <= block.instructions.len(),
                all@ == before + instrs_constants(block.instructions@.subrange(0, k as int)),
            decreases block.instructions.len() - k,
        {
            extract_constants_from_instruction(&block.instructions[k], &mut all);
            proof {
                assert(block.instructions@.subrange(0, k + 1).drop_last() =~= block.instructions@.subrange(0, k as int));
                assert(all@ =~= before + instrs_constants(block.instructions@.subrange(0, k + 1)));
            }
            k = k + 1;
        }
        proof {
            assert(block.instructions@.subrange(0, block.instructions.len() as int) =~= block.instructions@);
        }
        if let Terminator::Branch { condition, .. } = &block.terminator {
            push_operand_constant(condition, &mut all);
        }
        proof {
            assert(cfg.blocks@.subrange(0, b + 1).drop_last() =~= cfg.blocks@.subrange(0, b as int));
            assert(all@ =~= blocks_constants(cfg.blocks@.subrange(0, b + 1)));
        }
        b = b + 1;
    }
    proof {
        assert(cfg.blocks@.subrange(0, cfg.blocks.len() as int) =~= cfg.blocks@);
    }
    let ghost after_blocks = all@;
    let mut k: usize = 0;
    proof {
        assert(cfg.requires@.subrange(0, 0) =~= Seq::<Predicate>::empty());
        assert(all@ =~= after_blocks + preds_constants(cfg.requires@.subrange(0, 0)));
    }
    while k < cfg.requires.len()
        invariant
            k <= cfg.requires.len(),
            all@ == after_blocks + preds_constants(cfg.requires@.subrange(0, k as int)),
        decreases cfg.requires.len() - k,
    {
        extract_constants_from_predicate(&cfg.requires[k], &mut all);
        proof {
            assert(cfg.requires@.subrange(0, k + 1).drop_last() =~= cfg.requires@.subrange(0, k as int));
            assert(all@ =~= after_blocks + preds_constants(cfg.requires@.subrange(0, k + 1)));
        }
        k = k + 1;
    }
    proof {
        assert(cfg.requires@.subrange(0, cfg.requires.len() as int) =~= cfg.requires@);
    }
    let ghost after_requires = all@;
    let mut e: usize = 0;
    proof {
        assert(cfg.ensures@.subrange(0, 0) =~= Seq::<Predicate>::empty());
        assert(all@ =~= after_requires + preds_constants(cfg.ensures@.subrange(0, 0)));
    }
    while e < cfg.ensures.len()
        invariant
            e <= cfg.ensures.len(),
            all@ == after_requires + preds_constants(cfg.ensures@.subrange(0, e as int)),
        decreases cfg.ensures.len() - e,
    {
        extract_constants_from_predicate(&cfg.ensures[e], &mut all);
        proof {
            assert(cfg.ensures@.subrange(0, e + 1).drop_last() =~= cfg.ensures@.subrange(0, e as int));
            assert(all@ =~= after_requires + preds_constants(cfg.ensures@.subrange(0, e + 1)));
        }
        e = e + 1;
    }
    proof {
        assert(cfg.ensures@.subrange(0, cfg.ensures.len() as int) =~= cfg.ensures@);
        assert(all@ =~= cfg_constants(cfg));
    }
    dedup_i64(&all)
}

fn dedup_i64(v: &Vec<i64>) -> (r: Vec<i64>)
    ensures
        r@ == dedup(v@),
{
    let mut out: Vec<i64> = Vec::new();
    let mut i: usize = 0;
    while i < v.len()
        invariant
            i <= v.len(),
            out@ == dedup(v@.subrange(0, i as int)),
        decreases v.len() - i,
    {
        let mut found = false;
        let mut k: usize = 0;
        while k < out.len()
            invariant
                k <= out.len(),
                i < v.len(),
                found <==> exists|w: int| 0 <= w < k && out@[w] == v@[i as int],
            decreases out.len() - k,
        {
            if out[k] == v[i] {
                found = true;
            }
            k = k + 1;
        }
        proof {
            assert(v@.subrange(0, i + 1).drop_last() =~= v@.subrange(0, i as int));
            assert(v@.subrange(0, i + 1).last() == v@[i as int]);
            if found {
                let w = choose|w: int| 0 <= w < out.len() && out@[w] == v@[i as int];
                assert(out@.contains(v@[i as int]));
            } else {
                assert(!out@.contains(v@[i as int]));
            }
        }
        if !found {
            out.push(v[i]);
        }
        i = i + 1;
    }
    proof {
        assert(v@.subrange(0, v.len() as int) =~= v@);
    }
    out
}

/// `dedup` keeps each element once and nothing else.
pub proof fn lemma_dedup_contains<A>(s: Seq<A>)
    ensures
        dedup(s).no_duplicates(),
        forall|x: A| dedup(s).contains(x) <==> s.contains(x),
    decreases s.len(),
{
    if s.len() > 0 {
        lemma_dedup_contains(s.drop_last());
        let d = dedup(s.drop_last());
        assert forall|x: A| dedup(s).contains(x) <==> s.contains(x) by {
            if s.contains(x) {
                let w = choose|w: int| 0 <= w < s.len() && s[w] == x;
                if w < s.len() - 1 {
                    assert(s.drop_last()[w] == x);
                }
            }
            if s.drop_last().contains(x) {
                let w = choose|w: int| 0 <= w < s.drop_last().len() && s.drop_last()[w] == x;
                assert(s[w] == x);
            }
            if !d.contains(s.last()) {
                if dedup(s).contains(x) {
                    let w = choose|w: int| 0 <= w < dedup(s).len() && dedup(s)[w] == x;
                    if w < d.len() {
                        assert(d[w] == x);
                    }
                }
                if d.contains(x) {
                    let w = choose|w: int| 0 <= w < d.len() && d[w] == x;
                    assert(dedup(s)[w] == x);
                }
                assert(dedup(s)[d.len() as int] == s.last());
            }
        }
    }
}

// ---------------------------------------------------------------------------
// The inference engine
// ---------------------------------------------------------------------------

/// Whether the operands that must stand as predicates can: those of `&&`,
/// `||` and `!` on temporaries, and the conditions of loops.
pub open spec fn predicate_operands_ok(cfg: &SsaCfg) -> bool {
    &&& forall|b: int, k: int| 0 <= b < cfg.blocks.len() && 0 <= k < cfg.blocks@[b].instructions.len()
        ==> #[trigger] instr_predicates_ok(cfg.blocks@[b].instructions@[k]@)
    &&& forall|b: int| 0 <= b < cfg.blocks.len() ==> #[trigger] branch_predicate_ok(cfg.blocks@[b].terminator)
}

pub open spec fn instr_predicates_ok(i: InstrV) -> bool {
    match i {
        InstrV::BinaryOp(d, op, l, r, _) => (d.symbol is Temp && (op == BinaryOperator::LogicalAnd || op == BinaryOperator::LogicalOr))
            ==> predicate_operand(l) && predicate_operand(r),
        InstrV::UnaryOp(d, op, x, _) => (d.symbol is Temp && op == UnaryOperator::Not) ==> predicate_operand(x),
        InstrV::Assert(..) => false,
        _ => true,
    }
}

pub open spec fn branch_predicate_ok(t: Terminator) -> bool {
    match t {
        Terminator::Branch { condition, meta, .. } => (meta.loop_invariants.len() > 0 || meta.loop_variants.len() > 0)
            ==> predicate_operand(condition@),
        _ => true,
    }
}

/// What the inference needs of a function: its blocks exist, it has no
/// assertions, and the operands that must be predicates are.
pub open spec fn cfg_ok(cfg: &SsaCfg) -> bool {
    cfg.well_formed() && predicate_operands_ok(cfg)
}

/// Whether every parameter (as version 0) and every defined register has
/// a template.
pub open spec fn all_registers_bound(cfg: &SsaCfg, bindings: Map<Seq<char>, TemplateV>) -> bool {
    &&& forall|p: int| 0 <= p < cfg.parameters.len() ==> bindings.dom().contains(
        #[trigger] crate::ir::register_name(cfg.parameters@[p]@, 0),
    )
    &&& forall|b: int, k: int| 0 <= b < cfg.blocks.len() && 0 <= k < cfg.blocks@[b].instructions.len()
        && (#[trigger] cfg.blocks@[b].instructions@[k]@).dest() is Some
        ==> bindings.dom().contains(cfg.blocks@[b].instructions@[k]@.dest().unwrap().name())
}

/// Whether an operand can be read: a constant always; a register when it
/// has a template and, if it names a variable, that variable is in the
/// table.
pub open spec fn operand_readable(o: OperandV, bindings: Map<Seq<char>, TemplateV>, table: &SymbolTable) -> bool {
    match o {
        OperandV::Location(reg) => bindings.dom().contains(reg.name()) && (reg.symbol is Named ==> table.index_of(reg.symbol) is Some),
        OperandV::Constant(_) => true,
    }
}

/// The template an operand is read with: its register's template named
/// after the register, or the template of the constant.
pub open spec fn operand_template(o: OperandV, bindings: Map<Seq<char>, TemplateV>) -> TemplateV {
    match o {
        OperandV::Location(reg) => crate::refinements::templates::rebind(bindings[reg.name()], reg.name()),
        OperandV::Constant(c) => constant_template(c),
    }
}

/// Whether the table gives a state variable a declared type.
pub open spec fn typed_in(table: &SymbolTable, var: SymbolIdV) -> bool {
    match table.index_of(var) {
        Some(i) => table.symbols@[i].1.ty is Some,
        None => false,
    }
}

/// Whether the table declares the symbol as a function (not an entrypoint).
pub open spec fn declared_function(table: &SymbolTable, f: SymbolIdV) -> bool {
    match table.index_of(f) {
        Some(i) => table.symbols@[i].1.kind is Function,
        None => false,
    }
}

/// The number of parameters of a function or entrypoint the table
/// declares, if it declares one under the symbol.
pub open spec fn callee_arity(table: &SymbolTable, f: SymbolIdV) -> Option<nat> {
    match table.index_of(f) {
        Some(i) => match table.symbols@[i].1.kind {
            SymbolKind::Function { parameters, .. } => Some(parameters.len() as nat),
            SymbolKind::Entrypoint { parameters, .. } => Some(parameters.len() as nat),
            _ => None,
        },
        None => None,
    }
}

/// Whether a call can be put in constraints: the callee is a function or
/// an entrypoint, its result register (if any) has a template, and every
/// argument that meets a parameter can be read.
pub open spec fn call_readable(
    table: &SymbolTable,
    bindings: Map<Seq<char>, TemplateV>,
    dest: Option<RegisterV>,
    f: SymbolIdV,
    args: Seq<OperandV>,
) -> bool {
    &&& callee_arity(table, f) is Some
    &&& dest matches Some(d) ==> bindings.dom().contains(d.name())
    &&& forall|a: int| 0 <= a < args.len() && a < callee_arity(table, f).unwrap() ==> operand_readable(#[trigger] args[a], bindings, table)
}

/// Whether the function records a base type for a temporary.
pub open spec fn has_temp_type(cfg: &SsaCfg, t: SymbolIdV) -> bool {
    exists|i: int| 0 <= i < cfg.local_temps.len() && (#[trigger] cfg.local_temps@[i]).0@ == t
}

/// Whether the template of the temporary an instruction defines can be
/// found: an operation or a phi needs the temporary's base type (a phi and
/// a call also a fresh liquid variable), a copy a template for its source
/// register, a load the variable's declared type, an internal call a
/// callee that is a function or an entrypoint.
pub open spec fn temp_template_known(
    instr: InstrV,
    cfg: &SsaCfg,
    bindings: Map<Seq<char>, TemplateV>,
    table: &SymbolTable,
    next: nat,
) -> bool {
    match instr {
        InstrV::BinaryOp(d, _, _, _, _) => has_temp_type(cfg, d.symbol),
        InstrV::UnaryOp(d, _, _, _) => has_temp_type(cfg, d.symbol),
        InstrV::Copy(_, OperandV::Location(reg), _) => bindings.dom().contains(reg.name()),
        InstrV::Copy(_, OperandV::Constant(_), _) => true,
        InstrV::StorageLoad(_, var, _) => typed_in(table, var),
        InstrV::Phi(d, _) => has_temp_type(cfg, d.symbol) && next < usize::MAX,
        InstrV::Call(Some(_), CallTargetV::Internal(f), _, _) => callee_arity(table, f) is Some && next < usize::MAX,
        InstrV::Call(Some(_), CallTargetV::External(..), _, _) => next < usize::MAX,
        _ => false,
    }
}

/// Whether an instruction can be put in constraints: the registers it
/// reads and defines have templates, the state variables it touches have
/// declared types, a call names a function or an entrypoint, and a load or
/// a store can still make a liquid variable.
pub open spec fn instr_generable(instr: InstrV, bindings: Map<Seq<char>, TemplateV>, table: &SymbolTable, next: nat) -> bool {
    match instr {
        InstrV::Copy(d, src, _) => operand_readable(src, bindings, table) && bindings.dom().contains(d.name()),
        InstrV::Phi(..) => true,
        InstrV::BinaryOp(d, _, l, r, _) => bindings.dom().contains(d.name()) && operand_readable(l, bindings, table)
            && operand_readable(r, bindings, table),
        InstrV::UnaryOp(d, _, x, _) => bindings.dom().contains(d.name()) && operand_readable(x, bindings, table),
        InstrV::StorageLoad(d, var, _) => bindings.dom().contains(d.name()) && next < usize::MAX && typed_in(table, var),
        InstrV::StorageStore(var, value, _) => operand_readable(value, bindings, table) && next < usize::MAX && typed_in(table, var),
        InstrV::Call(dest, CallTargetV::Internal(f), args, _) => call_readable(table, bindings, dest, f, args),
        InstrV::Call(_, CallTargetV::External(..), _, _) => true,
        InstrV::Assert(..) => true,
        InstrV::Fold(var, _) => typed_in(table, var),
        InstrV::Unfold(var, _) => typed_in(table, var),
    }
}

/// Whether an instruction can be put in constraints depends on the
/// templates' registers alone, and holds with fewer liquid variables used.
pub proof fn lemma_generable_mono(
    i: InstrV,
    b1: Map<Seq<char>, TemplateV>,
    b2: Map<Seq<char>, TemplateV>,
    t: &SymbolTable,
    n1: nat,
    n2: nat,
)
    requires
        b1.dom().subset_of(b2.dom()),
        n2 <= n1,
        instr_generable(i, b1, t, n1),
    ensures
        instr_generable(i, b2, t, n2),
{
    match i {
        InstrV::Call(dest, CallTargetV::Internal(f), args, _) => {
            assert forall|a: int| 0 <= a < args.len() && a < callee_arity(t, f).unwrap() implies operand_readable(#[trigger] args[a], b2, t) by {
                assert(operand_readable(args[a], b1, t));
            }
        },
        _ => {},
    }
}

/// Whether a phi's destination and sources have templates.
pub open spec fn phi_bound(i: InstrV, bindings: Map<Seq<char>, TemplateV>) -> bool {
    match i {
        InstrV::Phi(d, srcs) => bindings.dom().contains(d.name()) && forall|j: int| 0 <= j < srcs.len() ==> bindings.dom().contains(
            (#[trigger] srcs[j]).1.name(),
        ),
        _ => true,
    }
}

/// Whether every phi of a function has its registers' templates.
pub open spec fn phis_bound(cfg: &SsaCfg, bindings: Map<Seq<char>, TemplateV>) -> bool {
    forall|b: int, k: int| 0 <= b < cfg.blocks.len() && 0 <= k < cfg.blocks@[b].instructions.len() ==> phi_bound(
        #[trigger] cfg.blocks@[b].instructions@[k]@,
        bindings,
    )
}

/// The number of instructions in the first `n` blocks.
pub open spec fn blocks_size(cfg: &SsaCfg, n: nat) -> nat
    decreases n,
{
    if n == 0 {
        0
    } else {
        blocks_size(cfg, (n - 1) as nat) + (cfg.blocks@[n - 1].instructions.len() as nat)
    }
}

pub proof fn lemma_blocks_size_mono(cfg: &SsaCfg, n: nat, m: nat)
    requires
        n <= m,
    ensures
        blocks_size(cfg, n) <= blocks_size(cfg, m),
    decreases m,
{
    if n < m {
        lemma_blocks_size_mono(cfg, n, (m - 1) as nat);
    }
}

/// Whether a register is a parameter read as version 0, or the
/// destination of an instruction before position (b, k).
pub open spec fn defined_before(cfg: &SsaCfg, name: Seq<char>, b: int, k: int) -> bool {
    ||| exists|p: int| 0 <= p < cfg.parameters.len() && #[trigger] crate::ir::register_name(cfg.parameters@[p]@, 0) == name
    ||| exists|bb: int, kk: int| 0 <= bb < cfg.blocks.len() && 0 <= kk < cfg.blocks@[bb].instructions.len() && (bb < b || (bb == b && kk
        < k)) && (#[trigger] cfg.blocks@[bb].instructions@[kk]@).dest() is Some
        && cfg.blocks@[bb].instructions@[kk]@.dest().unwrap().name() == name
}

/// Whether the temporary defined at (b, k) gets a template: what its
/// instruction needs is recorded, and a copy reads a register defined
/// before it.
pub open spec fn temp_assignable(cfg: &SsaCfg, table: &SymbolTable, b: int, k: int) -> bool {
    match cfg.blocks@[b].instructions@[k]@ {
        InstrV::BinaryOp(d, _, _, _, _) => has_temp_type(cfg, d.symbol),
        InstrV::UnaryOp(d, _, _, _) => has_temp_type(cfg, d.symbol),
        InstrV::Copy(_, OperandV::Location(reg), _) => defined_before(cfg, reg.name(), b, k),
        InstrV::Copy(_, OperandV::Constant(_), _) => true,
        InstrV::StorageLoad(_, var, _) => typed_in(table, var),
        InstrV::Phi(d, _) => has_temp_type(cfg, d.symbol),
        InstrV::Call(Some(_), CallTargetV::Internal(f), _, _) => callee_arity(table, f) is Some,
        InstrV::Call(Some(_), CallTargetV::External(..), _, _) => true,
        _ => false,
    }
}

/// Whether every register of a function can be given a template: the
/// parameters and the named registers have declared types, and every
/// temporary is assignable.
pub open spec fn templates_assignable(cfg: &SsaCfg, table: &SymbolTable) -> bool {
    &&& forall|p: int| 0 <= p < cfg.parameters.len() ==> typed_in(table, #[trigger] cfg.parameters@[p]@)
    &&& forall|b: int, k: int| 0 <= b < cfg.blocks.len() && 0 <= k < cfg.blocks@[b].instructions.len()
        && (#[trigger] cfg.blocks@[b].instructions@[k]@).dest() is Some ==> {
        let d = cfg.blocks@[b].instructions@[k]@.dest().unwrap();
        &&& d.symbol is Named ==> typed_in(table, d.symbol)
        &&& d.symbol is Temp ==> temp_assignable(cfg, table, b, k)
    }
}

/// The liquid variables a walk may use for the blocks among the first `n`
/// that are not yet visited: one per instruction, and one for the return.
pub open spec fn unvisited_weight(cfg: &SsaCfg, v: Seq<bool>, n: nat) -> nat
    decreases n,
{
    if n == 0 {
        0
    } else {
        unvisited_weight(cfg, v, (n - 1) as nat) + if !v[n - 1] {
            (cfg.blocks@[n - 1].instructions.len() + 1) as nat
        } else {
            0nat
        }
    }
}

/// What a walk may still use over all unvisited blocks.
pub open spec fn walk_budget(cfg: &SsaCfg, v: Seq<bool>) -> nat {
    unvisited_weight(cfg, v, cfg.blocks.len() as nat)
}

pub proof fn lemma_unvisited_weight_mark(cfg: &SsaCfg, v: Seq<bool>, b: int, n: nat)
    requires
        0 <= b < v.len(),
        v.len() == cfg.blocks.len(),
        n <= v.len(),
        !v[b],
    ensures
        b < n ==> unvisited_weight(cfg, v.update(b, true), n) + cfg.blocks@[b].instructions.len() + 1 == unvisited_weight(cfg, v, n),
        b >= n ==> unvisited_weight(cfg, v.update(b, true), n) == unvisited_weight(cfg, v, n),
    decreases n,
{
    if n > 0 {
        lemma_unvisited_weight_mark(cfg, v, b, (n - 1) as nat);
    }
}

/// Whether the walk over a function's blocks can put everything in
/// constraints with `n` as a bound on the liquid variables used: every
/// instruction can, every branch's condition can be read, and every
/// returned value can be read against a declared function's return type.
pub open spec fn walk_sound(cfg: &SsaCfg, bindings: Map<Seq<char>, TemplateV>, table: &SymbolTable, cur: Option<SymbolIdV>, n: nat) -> bool {
    &&& forall|b: int, k: int| 0 <= b < cfg.blocks.len() && 0 <= k < cfg.blocks@[b].instructions.len() ==> instr_generable(
        #[trigger] cfg.blocks@[b].instructions@[k]@,
        bindings,
        table,
        n,
    )
    &&& forall|b: int| 0 <= b < cfg.blocks.len() ==> branch_readable(#[trigger] cfg.blocks@[b].terminator, bindings, table, cur, n)
}

/// What a block's terminator needs: a branch, that its condition can be
/// read; a return of a value, that the value can be read and the current
/// function is a declared function, with a liquid variable to spare.
pub open spec fn branch_readable(t: Terminator, bindings: Map<Seq<char>, TemplateV>, table: &SymbolTable, cur: Option<SymbolIdV>, n: nat) -> bool {
    match t {
        Terminator::Branch { condition, .. } => operand_readable(condition@, bindings, table),
        Terminator::Return { value: Some(o) } => cur is Some && declared_function(table, cur.unwrap()) && n < usize::MAX && operand_readable(
            o@,
            bindings,
            table,
        ),
        _ => true,
    }
}

pub proof fn lemma_walk_sound_mono(
    cfg: &SsaCfg,
    b1: Map<Seq<char>, TemplateV>,
    b2: Map<Seq<char>, TemplateV>,
    table: &SymbolTable,
    cur: Option<SymbolIdV>,
    n1: nat,
    n2: nat,
)
    requires
        b1.dom().subset_of(b2.dom()),
        n2 <= n1,
        walk_sound(cfg, b1, table, cur, n1),
    ensures
        walk_sound(cfg, b2, table, cur, n2),
{
    assert forall|b: int, k: int| 0 <= b < cfg.blocks.len() && 0 <= k < cfg.blocks@[b].instructions.len() implies instr_generable(
        #[trigger] cfg.blocks@[b].instructions@[k]@,
        b2,
        table,
        n2,
    ) by {
        lemma_generable_mono(cfg.blocks@[b].instructions@[k]@, b1, b2, table, n1, n2);
    }
    assert forall|b: int| 0 <= b < cfg.blocks.len() implies branch_readable(#[trigger] cfg.blocks@[b].terminator, b2, table, cur, n2) by {
        assert(branch_readable(cfg.blocks@[b].terminator, b1, table, cur, n1));
    }
}

/// Whether a name is a register of the function: a parameter read as
/// version 0, or the destination of an instruction.
pub open spec fn registered(cfg: &SsaCfg, n: Seq<char>) -> bool {
    ||| exists|p: int| 0 <= p < cfg.parameters.len() && #[trigger] crate::ir::register_name(cfg.parameters@[p]@, 0) == n
    ||| exists|b: int, k: int| 0 <= b < cfg.blocks.len() && 0 <= k < cfg.blocks@[b].instructions.len()
        && (#[trigger] cfg.blocks@[b].instructions@[k]@).dest() is Some && cfg.blocks@[b].instructions@[k]@.dest().unwrap().name() == n
}

/// Templates for exactly the function's registers (which templates does
/// not matter to what reads them).
pub open spec fn registers_map(cfg: &SsaCfg) -> Map<Seq<char>, TemplateV> {
    Map::new(|n: Seq<char>| registered(cfg, n), |n: Seq<char>| vstd::pervasive::arbitrary::<TemplateV>())
}

pub proof fn lemma_registers_bound(cfg: &SsaCfg, bindings: Map<Seq<char>, TemplateV>)
    requires
        all_registers_bound(cfg, bindings),
    ensures
        registers_map(cfg).dom().subset_of(bindings.dom()),
{
    assert forall|n: Seq<char>| registers_map(cfg).dom().contains(n) implies bindings.dom().contains(n) by {
        if exists|p: int| 0 <= p < cfg.parameters.len() && #[trigger] crate::ir::register_name(cfg.parameters@[p]@, 0) == n {
            let p = choose|p: int| 0 <= p < cfg.parameters.len() && #[trigger] crate::ir::register_name(cfg.parameters@[p]@, 0) == n;
            assert(bindings.dom().contains(crate::ir::register_name(cfg.parameters@[p]@, 0)));
        } else {
            let (b, k) = choose|b: int, k: int| 0 <= b < cfg.blocks.len() && 0 <= k < cfg.blocks@[b].instructions.len()
                && (#[trigger] cfg.blocks@[b].instructions@[k]@).dest() is Some && cfg.blocks@[b].instructions@[k]@.dest().unwrap().name() == n;
            assert(bindings.dom().contains(cfg.blocks@[b].instructions@[k]@.dest().unwrap().name()));
        }
    }
}

/// Whether a function can be put in constraints from a fresh start with
/// `next` liquid variables used: its registers can be given templates, its
/// contracts speak of storage, and the walk and the phis find every
/// register they read.
pub open spec fn function_generable(cfg: &SsaCfg, table: &SymbolTable, next: nat) -> bool {
    &&& templates_assignable(cfg, table)
    &&& next + blocks_size(cfg, cfg.blocks.len() as nat) < usize::MAX
    &&& contracts_about_storage(table, cfg)
    &&& walk_sound(
        cfg,
        registers_map(cfg),
        table,
        Some(cfg.function_id@),
        next + blocks_size(cfg, cfg.blocks.len() as nat) + walk_budget(cfg, none_marked(cfg.blocks.len() as nat)),
    )
    &&& phis_bound(cfg, registers_map(cfg))
}

/// A template whose given refinement reads source variables under their
/// current SSA names (its own binder kept).
pub open spec fn cross_resolved(t: TemplateV, ssa: Map<Seq<char>, Seq<char>>) -> TemplateV {
    match t {
        TemplateV::Concrete { base, binder, refinement, source_ref } => TemplateV::Concrete {
            base,
            binder,
            refinement: crate::ast::predicate::pred_rename(refinement, ssa.remove(binder)),
            source_ref,
        },
        TemplateV::Liquid { .. } => t,
    }
}

/// Whether a context is the one the engine builds from its state: its
/// bindings, its assumptions followed by its facts, its SSA names.
pub open spec fn context_for(
    ctx: crate::refinements::constraints::TypeContextV,
    bindings: Map<Seq<char>, TemplateV>,
    assumptions: Seq<PredV>,
    facts: Seq<PredV>,
    ssa: Map<Seq<char>, Seq<char>>,
) -> bool {
    &&& forall|n: Seq<char>| #[trigger] crate::refinements::constraints::lookup_binding(ctx.bindings, n) == (if bindings.dom().contains(n) {
        Some(bindings[n])
    } else {
        None::<TemplateV>
    })
    &&& ctx.assumptions == assumptions + facts
    &&& ctx.source_to_ssa == ssa
}

/// The subtyping a copy adds: the source's template under the
/// destination's, in the context at the copy.
pub open spec fn copy_subtype(
    ctx: crate::refinements::constraints::TypeContextV,
    dest: RegisterV,
    source: OperandV,
    bindings: Map<Seq<char>, TemplateV>,
    ssa: Map<Seq<char>, Seq<char>>,
    loc: SourceRef,
) -> ConstraintV {
    ConstraintV::Subtype(
        ctx,
        operand_template(source, bindings),
        cross_resolved(crate::refinements::templates::rebind(bindings[dest.name()], dest.name()), ssa),
        loc,
    )
}

/// The view of a list of (state variable, register) pairs.
pub open spec fn regs_view(v: Seq<(SymbolId, String)>) -> Seq<(SymbolIdV, Seq<char>)> {
    v.map_values(|e: (SymbolId, String)| (e.0@, e.1@))
}

/// The register last recorded for a state variable, if any.
pub open spec fn last_reg(regs: Seq<(SymbolIdV, Seq<char>)>, var: SymbolIdV) -> Option<Seq<char>>
    decreases regs.len(),
{
    if regs.len() == 0 {
        None
    } else if regs.last().0 == var {
        Some(regs.last().1)
    } else {
        last_reg(regs.drop_last(), var)
    }
}

/// The pairs of a list whose state variable is not `var`, in order.
pub open spec fn regs_without(regs: Seq<(SymbolIdV, Seq<char>)>, var: SymbolIdV) -> Seq<(SymbolIdV, Seq<char>)>
    decreases regs.len(),
{
    if regs.len() == 0 {
        Seq::empty()
    } else if regs.last().0 == var {
        regs_without(regs.drop_last(), var)
    } else {
        regs_without(regs.drop_last(), var).push(regs.last())
    }
}

/// The view of a list of (block, assumed condition) pairs.
pub open spec fn paths_view(v: Seq<(usize, Predicate)>) -> Seq<(usize, PredV)> {
    v.map_values(|e: (usize, Predicate)| (e.0, e.1@))
}

/// The condition last recorded for a block, if any.
pub open spec fn last_path(paths: Seq<(usize, PredV)>, block: usize) -> Option<PredV>
    decreases paths.len(),
{
    if paths.len() == 0 {
        None
    } else if paths.last().0 == block {
        Some(paths.last().1)
    } else {
        last_path(paths.drop_last(), block)
    }
}

fn err(msg: &str) -> (r: MerakError)
    ensures
        r is NameResolution,
        r->NameResolution_message@ == msg@,
{
    MerakError::NameResolution { message: String::from_str(msg) }
}

/// Infers the refinements of a function's registers: templates first,
/// then constraints, then the solver.
pub struct LiquidInferenceEngine<'a> {
    env: TypeEnvironment<'a>,
    constraints: ConstraintSet,
    qualifiers: QualifierSet,
    /// For each state variable, the register of its last load or store.
    storage_load_regs: Vec<(SymbolId, String)>,
    /// For each block entered through a branch, the condition assumed there.
    branch_path_assumptions: Vec<(usize, Predicate)>,
}

impl<'a> LiquidInferenceEngine<'a> {
    pub closed spec fn cons(&self) -> Seq<ConstraintV> {
        self.constraints@
    }

    pub closed spec fn bindings(&self) -> Map<Seq<char>, TemplateV> {
        self.env.bindings_spec()
    }

    pub closed spec fn facts(&self) -> Seq<PredV> {
        self.env.facts_spec()
    }

    pub closed spec fn assumptions(&self) -> Seq<PredV> {
        self.env.assumptions_spec()
    }

    pub closed spec fn table(&self) -> &'a SymbolTable {
        self.env.table()
    }

    /// For each state variable, the register of its last load or store.
    pub closed spec fn storage_regs(&self) -> Seq<(SymbolIdV, Seq<char>)> {
        regs_view(self.storage_load_regs@)
    }

    /// For each block entered through a branch, the condition assumed there.
    pub closed spec fn path_assumptions(&self) -> Seq<(usize, PredV)> {
        paths_view(self.branch_path_assumptions@)
    }

    /// The SSA register each source variable currently names.
    pub closed spec fn ssa(&self) -> Map<Seq<char>, Seq<char>> {
        self.env.ssa_spec()
    }

    /// The function whose constraints are being generated.
    pub closed spec fn current(&self) -> Option<SymbolIdV> {
        self.env.current_spec()
    }

    /// The index of the next liquid variable.
    pub closed spec fn next_liquid(&self) -> nat {
        self.env.next_liquid()
    }

    pub fn new(symbol_table: &'a SymbolTable) -> (r: Self)
        ensures
            r.cons().len() == 0,
            r.table() == symbol_table,
            r.bindings() == Map::<Seq<char>, TemplateV>::empty(),
            r.facts().len() == 0,
            r.assumptions().len() == 0,
    {
        LiquidInferenceEngine {
            env: TypeEnvironment::new(symbol_table),
            constraints: ConstraintSet::new(),
            qualifiers: QualifierSet::core_set(),
            storage_load_regs: Vec::new(),
            branch_path_assumptions: Vec::new(),
        }
    }

    fn storage_reg(&self, var: &SymbolId) -> (r: Option<&String>)
        ensures
            match r {
                Some(s) => last_reg(self.storage_regs(), var@) == Some(s@),
                None => last_reg(self.storage_regs(), var@) is None,
            },
    {
        let mut i: usize = self.storage_load_regs.len();
        proof {
            assert(self.storage_regs().subrange(0, i as int) =~= self.storage_regs());
        }
        while i > 0
            invariant
                i <= self.storage_load_regs.len(),
                last_reg(self.storage_regs(), var@) == last_reg(self.storage_regs().subrange(0, i as int), var@),
            decreases i,
        {
            let ghost sub = self.storage_regs().subrange(0, i as int);
            proof {
                assert(sub.drop_last() =~= self.storage_regs().subrange(0, i - 1));
                assert(sub.last() == (self.storage_load_regs@[i - 1].0@, self.storage_load_regs@[i - 1].1@));
            }
            if symbol_eq(&self.storage_load_regs[i - 1].0, var) {
                return Some(&self.storage_load_regs[i - 1].1);
            }
            i = i - 1;
        }
        proof {
            assert(self.storage_regs().subrange(0, 0) =~= Seq::<(SymbolIdV, Seq<char>)>::empty());
        }
        None
    }

    fn set_storage_reg(&mut self, var: &SymbolId, reg: Option<String>)
        ensures
            final(self).current() == old(self).current(),
            final(self).cons() == old(self).cons(),
            final(self).bindings() == old(self).bindings(),
            final(self).facts() == old(self).facts(),
            final(self).assumptions() == old(self).assumptions(),
            final(self).table() == old(self).table(),
            final(self).path_assumptions() == old(self).path_assumptions(),
            final(self).next_liquid() == old(self).next_liquid(),
            final(self).storage_regs() == match reg {
                Some(r) => regs_without(old(self).storage_regs(), var@).push((var@, r@)),
                None => regs_without(old(self).storage_regs(), var@),
            },
    {
        let mut kept: Vec<(SymbolId, String)> = Vec::new();
        let ghost all = self.storage_regs();
        let mut i: usize = 0;
        proof {
            assert(all.subrange(0, 0) =~= Seq::<(SymbolIdV, Seq<char>)>::empty());
            assert(regs_view(kept@) =~= Seq::<(SymbolIdV, Seq<char>)>::empty());
        }
        while i < self.storage_load_regs.len()
            invariant
                i <= self.storage_load_regs.len(),
                all == regs_view(self.storage_load_regs@),
                regs_view(kept@) == regs_without(all.subrange(0, i as int), var@),
            decreases self.storage_load_regs.len() - i,
        {
            proof {
                assert(all.subrange(0, i + 1).drop_last() =~= all.subrange(0, i as int));
                assert(all.subrange(0, i + 1).last() == all[i as int]);
            }
            if !symbol_eq(&self.storage_load_regs[i].0, var) {
                let e = &self.storage_load_regs[i];
                let ghost before = kept@;
                kept.push((e.0.clone(), e.1.clone()));
                proof {
                    assert(regs_view(kept@) =~= regs_view(before).push(all[i as int]));
                }
            }
            i = i + 1;
        }
        proof {
            assert(all.subrange(0, i as int) =~= all);
        }
        if let Some(r) = reg {
            let ghost before = kept@;
            kept.push((var.clone(), r));
            proof {
                assert(regs_view(kept@) =~= regs_view(before).push((var@, r@)));
            }
        }
        self.storage_load_regs = kept;
    }

    fn path_assumption(&self, block: usize) -> (r: Option<&Predicate>)
        ensures
            match r {
                Some(p) => last_path(self.path_assumptions(), block) == Some(p@),
                None => last_path(self.path_assumptions(), block) is None,
            },
    {
        let mut i: usize = self.branch_path_assumptions.len();
        proof {
            assert(self.path_assumptions().subrange(0, i as int) =~= self.path_assumptions());
        }
        while i > 0
            invariant
                i <= self.branch_path_assumptions.len(),
                last_path(self.path_assumptions(), block) == last_path(self.path_assumptions().subrange(0, i as int), block),
            decreases i,
        {
            let ghost sub = self.path_assumptions().subrange(0, i as int);
            proof {
                assert(sub.drop_last() =~= self.path_assumptions().subrange(0, i - 1));
                assert(sub.last() == (self.branch_path_assumptions@[i - 1].0, self.branch_path_assumptions@[i - 1].1@));
            }
            if self.branch_path_assumptions[i - 1].0 == block {
                return Some(&self.branch_path_assumptions[i - 1].1);
            }
            i = i - 1;
        }
        proof {
            assert(self.path_assumptions().subrange(0, 0) =~= Seq::<(usize, PredV)>::empty());
        }
        None
    }

    fn record_path_assumption(&mut self, block: usize, p: Predicate)
        ensures
            final(self).current() == old(self).current(),
            final(self).cons() == old(self).cons(),
            final(self).bindings() == old(self).bindings(),
            final(self).facts() == old(self).facts(),
            final(self).assumptions() == old(self).assumptions(),
            final(self).table() == old(self).table(),
            final(self).storage_regs() == old(self).storage_regs(),
            final(self).next_liquid() == old(self).next_liquid(),
            final(self).path_assumptions() == old(self).path_assumptions().push((block, p@)),
    {
        let ghost before = self.branch_path_assumptions@;
        self.branch_path_assumptions.push((block, p));
        proof {
            assert(paths_view(self.branch_path_assumptions@) =~= paths_view(before).push((block, p@)));
        }
    }

    /// A fresh liquid variable, or an error once none is left.
    fn fresh(&mut self) -> (r: Result<crate::refinements::templates::LiquidVar, MerakError>)
        ensures
            final(self).current() == old(self).current(),
            r is Ok <==> old(self).next_liquid() < usize::MAX,
            r is Ok ==> r->Ok_0.0 == old(self).next_liquid() && final(self).next_liquid() == old(self).next_liquid() + 1,
            r is Err ==> r->Err_0 is NameResolution && final(self).next_liquid() == old(self).next_liquid(),
            final(self).storage_regs() == old(self).storage_regs(),
            final(self).path_assumptions() == old(self).path_assumptions(),
            final(self).cons() == old(self).cons(),
            final(self).bindings() == old(self).bindings(),
            final(self).facts() == old(self).facts(),
            final(self).assumptions() == old(self).assumptions(),
            final(self).table() == old(self).table(),
    {
        if !self.env.can_make_liquid() {
            return Err(err("no liquid variable is left"));
        }
        Ok(self.env.fresh_liquid_var())
    }

    /// The template of an operand: a copy of the register's template named
    /// after the register, or the template of the constant.
    fn operand_to_template(&self, operand: &Operand) -> (r: Result<Template, MerakError>)
        ensures
            match operand@ {
                OperandV::Location(reg) => match r {
                    Ok(t) => self.bindings().dom().contains(reg.name())
                        && t@ == crate::refinements::templates::rebind(self.bindings()[reg.name()], reg.name()),
                    Err(e) => !self.bindings().dom().contains(reg.name()) && e is NameResolution,
                },
                OperandV::Constant(c) => r is Ok && r->Ok_0@ == constant_template(c),
            },
    {
        match operand {
            Operand::Location(reg) => {
                let name = reg.to_string();
                match self.env.get_local(name.as_str()) {
                    Some(t) => Ok(t),
                    None => Err(err("register without a template")),
                }
            },
            Operand::Constant(c) => Ok(constant_to_template(c)),
        }
    }

    /// The template of an operand; reading a parameter with a written
    /// refinement also checks, as a subtyping, that the value meets it.
    fn operand_to_template_with_contract_check(&mut self, operand: &Operand, context: &TypeContext, location: SourceRef) -> (r: Result<Template, MerakError>)
        ensures
            final(self).ssa() == old(self).ssa(),
            final(self).current() == old(self).current(),
            grown_by(old(self).cons(), final(self).cons(), subtypes()),
            final(self).cons().len() <= old(self).cons().len() + 1,
            final(self).bindings() == old(self).bindings(),
            final(self).facts() == old(self).facts(),
            final(self).assumptions() == old(self).assumptions(),
            final(self).table() == old(self).table(),
            operand@ is Constant ==> r is Ok && r->Ok_0@ is Concrete,
            r is Ok <==> operand_readable(operand@, old(self).bindings(), old(self).table()),
            r is Ok ==> r->Ok_0@ == operand_template(operand@, old(self).bindings()),
            r is Err ==> final(self).cons() == old(self).cons(),
            final(self).storage_regs() == old(self).storage_regs(),
            final(self).path_assumptions() == old(self).path_assumptions(),
            final(self).next_liquid() == old(self).next_liquid(),
            match operand@ {
                OperandV::Location(reg) => {
                    &&& r is Ok ==> old(self).bindings().dom().contains(reg.name())
                        && r->Ok_0@ == crate::refinements::templates::rebind(old(self).bindings()[reg.name()], reg.name())
                    &&& !old(self).bindings().dom().contains(reg.name()) ==> r is Err && final(self).cons() == old(self).cons()
                },
                OperandV::Constant(c) => r is Ok && r->Ok_0@ == constant_template(c) && final(self).cons() == old(self).cons(),
            },
    {
        proof {
            lemma_grown_refl(self.cons(), subtypes());
        }
        let template = match self.operand_to_template(operand) {
            Ok(t) => t,
            Err(e) => return Err(e),
        };
        if let Operand::Location(reg) = operand {
            if let SymbolId::Named(_, _) = &reg.symbol {
                let is_param = match self.env.get_symbol(&reg.symbol) {
                    Some(info) => match info.kind {
                        SymbolKind::Parameter => true,
                        _ => false,
                    },
                    None => return Err(err("symbol missing from the symbol table")),
                };
                if is_param {
                    if let Some(ty) = self.env.get_symbol_type(&reg.symbol) {
                        if template.is_concrete() && ty.is_explicit_annotation() && !ty.is_true_literal() {
                            let mut subst: StrMap<String> = StrMap::new();
                            subst.insert(ty.binder.clone(), reg.to_string());
                            let user_contract = Template::Concrete {
                                base: ty.base.clone(),
                                binder: reg.to_string(),
                                refinement: ty.constraint.substitute_vars(&subst),
                                source_ref: ty.source_ref,
                            };
                            let sub = Constraint::Subtype { context: context.clone(), sub: template.clone(), sup: user_contract, location };
                            let ghost before = self.cons();
                            self.constraints.add(sub);
                            proof {
                                lemma_grown_refl(before, subtypes());
                                lemma_grown_push(before, before, self.cons().last(), subtypes());
                                assert(self.cons() == before.push(self.cons().last()));
                            }
                            return Ok(template);
                        }
                    }
                }
            }
        }
        Ok(template)
    }

    /// The template of a temporary from the instruction that defines it.
    fn infer_template_from_instruction(&mut self, instr: &SsaInstruction, cfg: &SsaCfg) -> (r: Result<Template, MerakError>)
        requires
            instr_predicates_ok(instr@),
            instr@.dest() is Some,
            instr@.dest().unwrap().symbol is Temp,
        ensures
            final(self).current() == old(self).current(),
            final(self).cons() == old(self).cons(),
            final(self).bindings() == old(self).bindings(),
            final(self).facts() == old(self).facts(),
            final(self).assumptions() == old(self).assumptions(),
            final(self).table() == old(self).table(),
            r is Ok && instr@ is BinaryOp ==> exists|b: BaseTypeV| r->Ok_0@ == #[trigger] binary_op_template(
                instr@->BinaryOp_2,
                instr@->BinaryOp_1,
                instr@->BinaryOp_3,
                b,
                instr@->BinaryOp_4,
            ),
            r is Ok && instr@ is UnaryOp ==> exists|b: BaseTypeV| r->Ok_0@ == #[trigger] unary_op_template(
                instr@->UnaryOp_1,
                instr@->UnaryOp_2,
                b,
                instr@->UnaryOp_3,
            ),
            r is Ok && instr@ is Phi ==> r->Ok_0@ is Liquid,
            r is Ok <==> temp_template_known(instr@, cfg, old(self).bindings(), old(self).table(), old(self).next_liquid()),
            old(self).next_liquid() <= final(self).next_liquid() <= old(self).next_liquid() + 1,
            r is Ok && instr@ is Copy ==> r->Ok_0@ == operand_template(instr@->Copy_1, old(self).bindings()),
    {
        proof {
            match instr@ {
                InstrV::StorageLoad(_, var, _) => lemma_index_of(self.table(), var),
                InstrV::Call(_, CallTargetV::Internal(f), _, _) => lemma_index_of(self.table(), f),
                _ => {},
            }
        }
        match instr {
            SsaInstruction::BinaryOp { left, op, right, dest, source_ref } => {
                let base_type = match cfg.temp_base_type(&dest.symbol) {
                    Some(b) => b,
                    None => return Err(err("missing base type of a binary operation's temporary")),
                };
                let t = infer_binary_op_template(left, *op, right, base_type, *source_ref);
                proof {
                    assert(t@ == binary_op_template(left@, *op, right@, base_type@, *source_ref));
                    assert(instr@->BinaryOp_2 == left@ && instr@->BinaryOp_1 == *op && instr@->BinaryOp_3 == right@ && instr@->BinaryOp_4 == *source_ref);
                }
                Ok(t)
            },
            SsaInstruction::UnaryOp { op, operand, dest, source_ref } => {
                let base_type = match cfg.temp_base_type(&dest.symbol) {
                    Some(b) => b,
                    None => return Err(err("missing base type of a unary operation's temporary")),
                };
                let t = infer_unary_op_template(*op, operand, base_type, *source_ref);
                proof {
                    assert(t@ == unary_op_template(*op, operand@, base_type@, *source_ref));
                    assert(instr@->UnaryOp_1 == *op && instr@->UnaryOp_2 == operand@ && instr@->UnaryOp_3 == *source_ref);
                }
                Ok(t)
            },
            SsaInstruction::Copy { source, .. } => self.operand_to_template(source),
            SsaInstruction::StorageLoad { var, source_ref, .. } => {
                let ty = match self.env.get_symbol_type(var) {
                    Some(t) => t,
                    None => return Err(err("storage variable not found")),
                };
                Ok(Template::Concrete { base: ty.base.clone(), binder: ty.binder.clone(), refinement: ty.constraint.clone(), source_ref: *source_ref })
            },
            SsaInstruction::Phi { dest, .. } => {
                let base_type = match cfg.temp_base_type(&dest.symbol) {
                    Some(b) => b.clone(),
                    None => return Err(err("missing base type of a phi's temporary")),
                };
                let liquid_var = match self.fresh() {
                    Ok(v) => v,
                    Err(e) => return Err(e),
                };
                Ok(Template::Liquid { base: base_type, binder: self_string(), liquid_var, source_ref: SourceRef::unknown() })
            },
            SsaInstruction::Call { dest: Some(_), target: CallTarget::Internal(fn_id), .. } => {
                let return_type = match self.env.get_symbol(fn_id) {
                    Some(info) => match &info.kind {
                        SymbolKind::Function { return_type, .. } | SymbolKind::Entrypoint { return_type, .. } => return_type.clone(),
                        _ => return Err(err("called symbol is not a function")),
                    },
                    None => return Err(err("called function missing from the symbol table")),
                };
                if !self.env.can_make_liquid() {
                    return Err(err("no liquid variable is left"));
                }
                Ok(self.env.template_from_type(&return_type))
            },
            SsaInstruction::Call { dest: Some(_), target: CallTarget::External { .. }, source_ref, .. } => {
                let liquid_var = match self.fresh() {
                    Ok(v) => v,
                    Err(e) => return Err(e),
                };
                Ok(Template::Liquid { base: BaseType::Int, binder: self_string(), liquid_var, source_ref: *source_ref })
            },
            _ => Err(err("instruction does not produce a value")),
        }
    }

    /// Gives every parameter (as version 0) and every register a template:
    /// parameters and registers of annotated variables get their written
    /// refinement, other named registers a liquid variable, temporaries the
    /// template of their defining instruction.
    #[verifier::loop_isolation(false)]
    #[verifier::rlimit(60)]
    fn assign_templates(&mut self, cfg: &SsaCfg) -> (r: Result<(), MerakError>)
        requires
            cfg_ok(cfg),
        ensures
            old(self).bindings().dom().subset_of(final(self).bindings().dom()),
            final(self).cons() == old(self).cons(),
            final(self).facts() == old(self).facts(),
            final(self).assumptions() == old(self).assumptions(),
            final(self).table() == old(self).table(),
            r is Ok ==> all_registers_bound(cfg, final(self).bindings()),
            final(self).current() == old(self).current(),
            r is Ok ==> old(self).next_liquid() <= final(self).next_liquid() <= old(self).next_liquid() + blocks_size(cfg, cfg.blocks.len() as nat),
            templates_assignable(cfg, old(self).table()) && old(self).next_liquid() + blocks_size(cfg, cfg.blocks.len() as nat) < usize::MAX
                ==> r is Ok,
            r is Ok && names_apart(cfg) ==> variables_templated(cfg, old(self).table(), final(self).bindings()),
            r is Ok && names_apart(cfg) ==> variables_liquid_apart(cfg, final(self).bindings()),
    {
        let ghost apart = names_apart(cfg);
        let ghost good = templates_assignable(cfg, old(self).table()) && old(self).next_liquid() + blocks_size(
            cfg,
            cfg.blocks.len() as nat,
        ) < usize::MAX;
        let mut p: usize = 0;
        while p < cfg.parameters.len()
            invariant
                p <= cfg.parameters.len(),
                old(self).bindings().dom().subset_of(self.bindings().dom()),
                self.cons() == old(self).cons(),
                self.facts() == old(self).facts(),
                self.assumptions() == old(self).assumptions(),
                self.table() == old(self).table(),
                self.current() == old(self).current(),
                forall|q: int| 0 <= q < p ==> self.bindings().dom().contains(#[trigger] crate::ir::register_name(cfg.parameters@[q]@, 0)),
                self.next_liquid() == old(self).next_liquid(),
                self.current() == old(self).current(),
                apart == names_apart(cfg),
                apart ==> forall|q: int|
                    0 <= q < p && cfg.parameters@[q]@ is Named && parameter_declared(self.table(), cfg.parameters@[q]@) ==> self.bindings()[#[trigger] crate::ir::register_name(
                        cfg.parameters@[q]@,
                        0,
                    )] == declared_template(self.table().symbols@[self.table().index_of(cfg.parameters@[q]@).unwrap()].1.ty.unwrap()@),
            decreases cfg.parameters.len() - p,
        {
            let param = &cfg.parameters[p];
            let reg = Register { symbol: param.clone(), version: 0 };
            let ty = match self.env.get_symbol_type(param) {
                Some(t) => t,
                None => {
                    proof {
                        assert(!typed_in(old(self).table(), cfg.parameters@[p as int]@));
                    }
                    return Err(err("parameter without a type"));
                },
            };
            let t = Template::Concrete { base: ty.base.clone(), binder: ty.binder.clone(), refinement: ty.constraint.clone(), source_ref: ty.source_ref };
            proof {
                lemma_index_of(self.table(), param@);
                assert(t@ == declared_template(ty@));
            }
            self.env.bind_local(reg.to_string(), t);
            proof {
                if apart {
                    assert forall|q: int|
                        0 <= q < p + 1 && cfg.parameters@[q]@ is Named && parameter_declared(self.table(), cfg.parameters@[q]@) implies self.bindings()[#[trigger] crate::ir::register_name(
                            cfg.parameters@[q]@,
                            0,
                        )] == declared_template(self.table().symbols@[self.table().index_of(cfg.parameters@[q]@).unwrap()].1.ty.unwrap()@) by {
                        if crate::ir::register_name(cfg.parameters@[q]@, 0) == crate::ir::register_name(cfg.parameters@[p as int]@, 0) {
                            assert(cfg.parameters@[q]@ == cfg.parameters@[p as int]@);
                        }
                    }
                }
            }
            p = p + 1;
        }
        proof {
            if apart {
                assert(templated_upto(cfg, old(self).table(), self.bindings(), 0, 0));
                assert(liquid_apart_upto(cfg, self.bindings(), 0, 0, self.next_liquid()));
            }
        }
        let mut b: usize = 0;
        while b < cfg.blocks.len()
            invariant
                b <= cfg.blocks.len(),
                cfg_ok(cfg),
                old(self).bindings().dom().subset_of(self.bindings().dom()),
                self.cons() == old(self).cons(),
                self.facts() == old(self).facts(),
                self.assumptions() == old(self).assumptions(),
                self.table() == old(self).table(),
                self.current() == old(self).current(),
                forall|q: int| 0 <= q < cfg.parameters.len() ==> self.bindings().dom().contains(#[trigger] crate::ir::register_name(cfg.parameters@[q]@, 0)),
                forall|bb: int, k: int| 0 <= bb < b && 0 <= k < cfg.blocks@[bb].instructions.len()
                    && (#[trigger] cfg.blocks@[bb].instructions@[k]@).dest() is Some
                    ==> self.bindings().dom().contains(cfg.blocks@[bb].instructions@[k]@.dest().unwrap().name()),
                old(self).next_liquid() <= self.next_liquid() <= old(self).next_liquid() + blocks_size(cfg, b as nat),
                good == (templates_assignable(cfg, old(self).table()) && old(self).next_liquid() + blocks_size(cfg, cfg.blocks.len() as nat)
                    < usize::MAX),
                apart == names_apart(cfg),
                apart ==> templated_upto(cfg, old(self).table(), self.bindings(), b as int, 0),
                apart ==> liquid_apart_upto(cfg, self.bindings(), b as int, 0, self.next_liquid()),
            decreases cfg.blocks.len() - b,
        {
            let block = &cfg.blocks[b];
            let mut k: usize = 0;
            while k < block.instructions.len()
                invariant
                    k <= block.instructions.len(),
                    b < cfg.blocks.len(),
                    cfg_ok(cfg),
                    old(self).bindings().dom().subset_of(self.bindings().dom()),
                    self.cons() == old(self).cons(),
                    self.facts() == old(self).facts(),
                    self.assumptions() == old(self).assumptions(),
                    self.table() == old(self).table(),
                    self.current() == old(self).current(),
                    forall|q: int| 0 <= q < cfg.parameters.len() ==> self.bindings().dom().contains(#[trigger] crate::ir::register_name(cfg.parameters@[q]@, 0)),
                    forall|bb: int, kk: int| 0 <= bb < b && 0 <= kk < cfg.blocks@[bb].instructions.len()
                        && (#[trigger] cfg.blocks@[bb].instructions@[kk]@).dest() is Some
                        ==> self.bindings().dom().contains(cfg.blocks@[bb].instructions@[kk]@.dest().unwrap().name()),
                    forall|kk: int| 0 <= kk < k && (#[trigger] block.instructions@[kk]@).dest() is Some
                        ==> self.bindings().dom().contains(block.instructions@[kk]@.dest().unwrap().name()),
                    *block == cfg.blocks@[b as int],
                    apart == names_apart(cfg),
                    apart ==> templated_upto(cfg, old(self).table(), self.bindings(), b as int, k as int),
                    apart ==> liquid_apart_upto(cfg, self.bindings(), b as int, k as int, self.next_liquid()),
                    old(self).next_liquid() <= self.next_liquid() <= old(self).next_liquid() + blocks_size(cfg, b as nat) + k,
                    good == (templates_assignable(cfg, old(self).table()) && old(self).next_liquid() + blocks_size(cfg, cfg.blocks.len() as nat)
                        < usize::MAX),
                decreases block.instructions.len() - k,
            {
                let instr = &block.instructions[k];
                proof {
                    assert(instr_predicates_ok(cfg.blocks@[b as int].instructions@[k as int]@));
                    lemma_blocks_size_mono(cfg, (b + 1) as nat, cfg.blocks.len() as nat);
                    assert(blocks_size(cfg, (b + 1) as nat) == blocks_size(cfg, b as nat) + block.instructions.len());
                    if good {
                        assert(self.next_liquid() < usize::MAX);
                    }
                }
                if let Some(dest) = instr.dest_register() {
                    proof {
                        let iv = cfg.blocks@[b as int].instructions@[k as int]@;
                        assert(iv == instr@);
                        assert(iv.dest() == Some(dest@));
                        lemma_index_of(self.table(), dest@.symbol);
                        if good {
                            assert(iv.dest() is Some);
                            if dest@.symbol is Named {
                                assert(typed_in(old(self).table(), dest@.symbol));
                            } else {
                                assert(temp_assignable(cfg, old(self).table(), b as int, k as int));
                                match iv {
                                    InstrV::Copy(_, OperandV::Location(reg), _) => {
                                        assert(defined_before(cfg, reg.name(), b as int, k as int));
                                        if exists|p: int| 0 <= p < cfg.parameters.len() && #[trigger] crate::ir::register_name(cfg.parameters@[p]@, 0) == reg.name() {
                                            let p = choose|p: int| 0 <= p < cfg.parameters.len() && #[trigger] crate::ir::register_name(cfg.parameters@[p]@, 0) == reg.name();
                                            assert(self.bindings().dom().contains(crate::ir::register_name(cfg.parameters@[p]@, 0)));
                                        } else {
                                            let (bb, kk) = choose|bb: int, kk: int| 0 <= bb < cfg.blocks.len() && 0 <= kk < cfg.blocks@[bb].instructions.len()
                                                && (bb < b || (bb == b && kk < k)) && (#[trigger] cfg.blocks@[bb].instructions@[kk]@).dest() is Some
                                                && cfg.blocks@[bb].instructions@[kk]@.dest().unwrap().name() == reg.name();
                                            if bb == b {
                                                assert(block.instructions@[kk]@ == cfg.blocks@[bb].instructions@[kk]@);
                                            }
                                        }
                                        assert(self.bindings().dom().contains(reg.name()));
                                    },
                                    InstrV::StorageLoad(_, var, _) => {},
                                    _ => {},
                                }
                                assert(temp_template_known(iv, cfg, self.bindings(), self.table(), self.next_liquid()));
                            }
                        }
                    }
                    let ghost nl = self.next_liquid();
                    let template = match &dest.symbol {
                        SymbolId::Named(_, _) => {
                            let (is_param, ty) = match self.env.get_symbol(&dest.symbol) {
                                Some(info) => {
                                    let is_param = match info.kind {
                                        SymbolKind::Parameter => true,
                                        _ => false,
                                    };
                                    match &info.ty {
                                        Some(t) => (is_param, t),
                                        None => return Err(err("named register's symbol has no type")),
                                    }
                                },
                                None => return Err(err("named register's symbol is not in the symbol table")),
                            };
                            let named = if is_param || (ty.is_explicit_annotation() && !ty.is_true_literal()) {
                                Template::Concrete {
                                    base: ty.base.clone(),
                                    binder: ty.binder.clone(),
                                    refinement: ty.constraint.clone(),
                                    source_ref: ty.source_ref,
                                }
                            } else {
                                let base = ty.base.clone();
                                let binder = ty.binder.clone();
                                let source_ref = ty.source_ref;
                                let liquid_var = match self.fresh() {
                                    Ok(v) => v,
                                    Err(e) => return Err(e),
                                };
                                Template::Liquid { base, binder, liquid_var, source_ref }
                            };
                            proof {
                                assert(variable_template(self.table(), dest@.symbol, named@));
                                assert(named@ is Liquid ==> named@->liquid_var.0 == nl && self.next_liquid() == nl + 1);
                                assert(named@ is Concrete ==> self.next_liquid() == nl);
                                assert(parameter_declared(self.table(), dest@.symbol) ==> named@ == declared_template(
                                    self.table().symbols@[self.table().index_of(dest@.symbol).unwrap()].1.ty.unwrap()@,
                                ));
                            }
                            named
                        },
                        SymbolId::Temp(_) => {
                            let mut t = match self.infer_template_from_instruction(instr, cfg) {
                                Ok(t) => t,
                                Err(e) => return Err(e),
                            };
                            let name = dest.to_string();
                            t.replace_binder(name.as_str());
                            t
                        },
                    };
                    let name = dest.to_string();
                    let ghost tv = template@;
                    let ghost before = self.bindings();
                    proof {
                        assert(cfg.blocks@[b as int].instructions@[k as int]@ == instr@);
                    }
                    self.env.bind_local(name, template);
                    proof {
                        if apart {
                            lemma_templated_step(cfg, old(self).table(), before, b as int, k as int, tv);
                            lemma_liquid_step(cfg, before, b as int, k as int, nl, self.next_liquid(), tv);
                        }
                    }
                } else {
                    proof {
                        assert(cfg.blocks@[b as int].instructions@[k as int]@ == instr@);
                        if apart {
                            lemma_templated_skip(cfg, old(self).table(), self.bindings(), b as int, k as int);
                            lemma_liquid_skip(cfg, self.bindings(), b as int, k as int, self.next_liquid());
                        }
                    }
                }
                proof {
                    assert(block.instructions@[k as int] == cfg.blocks@[b as int].instructions@[k as int]);
                }
                k = k + 1;
            }
            proof {
                assert(blocks_size(cfg, (b + 1) as nat) == blocks_size(cfg, b as nat) + block.instructions.len());
                if apart {
                    lemma_templated_next_block(cfg, old(self).table(), self.bindings(), b as int);
                    lemma_liquid_next_block(cfg, self.bindings(), b as int, self.next_liquid());
                }
            }
            b = b + 1;
        }
        proof {
            if apart {
                lemma_templated_all(cfg, old(self).table(), self.bindings());
                lemma_liquid_all(cfg, self.bindings(), self.next_liquid());
            }
        }
        Ok(())
    }

    /// Runs template assignment alone and gives the templates.
    pub fn assign_templates_only(&mut self, cfg: &SsaCfg) -> (r: Result<StrMap<Template>, MerakError>)
        requires
            cfg_ok(cfg),
            old(self).bindings() == Map::<Seq<char>, TemplateV>::empty(),
        ensures
            r is Ok ==> all_registers_bound(cfg, r->Ok_0@),
            r is Ok && names_apart(cfg) ==> variables_templated(cfg, old(self).table(), r->Ok_0@),
            r is Ok && names_apart(cfg) ==> variables_liquid_apart(cfg, r->Ok_0@),
            r is Ok ==> final(self).bindings() == Map::<Seq<char>, TemplateV>::empty(),
            final(self).table() == old(self).table(),
            templates_assignable(cfg, old(self).table()) && old(self).next_liquid() + blocks_size(cfg, cfg.blocks.len() as nat) < usize::MAX
                ==> r is Ok,
    {
        self.env.enter_function(cfg.function_id.clone());
        self.storage_load_regs = Vec::new();
        match self.assign_templates(cfg) {
            Ok(()) => {},
            Err(e) => return Err(e),
        }
        let bindings = copy_templates(self.env.local_bindings());
        self.env.exit_function();
        Ok(bindings)
    }
}

/// The template a declared type is written as.
pub open spec fn declared_template(ty: TypeV) -> TemplateV {
    TemplateV::Concrete { base: ty.base, binder: ty.binder, refinement: ty.constraint, source_ref: ty.source_ref }
}

/// Whether `t` is the template the rules give a register of the variable
/// `s`: for a parameter, or a variable whose written refinement is other
/// than `true`, its declared template; for any other variable a liquid
/// template of its declared base type and binder.
pub open spec fn variable_template(table: &SymbolTable, s: SymbolIdV, t: TemplateV) -> bool {
    match table.index_of(s) {
        Some(i) => match table.symbols@[i].1.ty {
            Some(ty) => if table.symbols@[i].1.kind is Parameter || (ty@.explicit_annotation && !(ty@.constraint is True)) {
                t == declared_template(ty@)
            } else {
                t is Liquid && t.base() == ty@.base && t.binder() == ty@.binder
            },
            None => false,
        },
        None => false,
    }
}

/// Whether registers of one name are registers of one variable: among the
/// parameters (as version 0) and the registers the instructions define.
pub open spec fn names_apart(cfg: &SsaCfg) -> bool {
    &&& forall|p: int, q: int|
        0 <= p < cfg.parameters.len() && 0 <= q < cfg.parameters.len() && #[trigger] crate::ir::register_name(cfg.parameters@[p]@, 0)
            == #[trigger] crate::ir::register_name(cfg.parameters@[q]@, 0) ==> cfg.parameters@[p]@ == cfg.parameters@[q]@
    &&& forall|p: int, b: int, k: int|
        0 <= p < cfg.parameters.len() && 0 <= b < cfg.blocks.len() && 0 <= k < cfg.blocks@[b].instructions.len()
            && (#[trigger] cfg.blocks@[b].instructions@[k]@).dest() is Some && cfg.blocks@[b].instructions@[k]@.dest().unwrap().name()
            == #[trigger] crate::ir::register_name(cfg.parameters@[p]@, 0) ==> cfg.blocks@[b].instructions@[k]@.dest().unwrap().symbol
            == cfg.parameters@[p]@
    &&& forall|b1: int, k1: int, b2: int, k2: int|
        0 <= b1 < cfg.blocks.len() && 0 <= k1 < cfg.blocks@[b1].instructions.len() && 0 <= b2 < cfg.blocks.len() && 0 <= k2
            < cfg.blocks@[b2].instructions.len() && (#[trigger] cfg.blocks@[b1].instructions@[k1]@).dest() is Some
            && (#[trigger] cfg.blocks@[b2].instructions@[k2]@).dest() is Some && cfg.blocks@[b1].instructions@[k1]@.dest().unwrap().name()
            == cfg.blocks@[b2].instructions@[k2]@.dest().unwrap().name() ==> cfg.blocks@[b1].instructions@[k1]@.dest().unwrap().symbol
            == cfg.blocks@[b2].instructions@[k2]@.dest().unwrap().symbol
}

/// Whether the templates follow the rules for variables: each register of
/// a variable has the template `variable_template` gives, and each
/// parameter declared as one has its declared template.
pub open spec fn variables_templated(cfg: &SsaCfg, table: &SymbolTable, bindings: Map<Seq<char>, TemplateV>) -> bool {
    &&& forall|b: int, k: int|
        0 <= b < cfg.blocks.len() && 0 <= k < cfg.blocks@[b].instructions.len() && (#[trigger] cfg.blocks@[b].instructions@[k]@).dest() is Some
            && cfg.blocks@[b].instructions@[k]@.dest().unwrap().symbol is Named ==> variable_template(
            table,
            cfg.blocks@[b].instructions@[k]@.dest().unwrap().symbol,
            bindings[cfg.blocks@[b].instructions@[k]@.dest().unwrap().name()],
        )
    &&& forall|p: int|
        0 <= p < cfg.parameters.len() && cfg.parameters@[p]@ is Named && parameter_declared(table, cfg.parameters@[p]@) ==> bindings[#[trigger] crate::ir::register_name(
            cfg.parameters@[p]@,
            0,
        )] == declared_template(table.symbols@[table.index_of(cfg.parameters@[p]@).unwrap()].1.ty.unwrap()@)
}

/// `variables_templated` over the parameters and the instructions before
/// instruction `k` of block `b`.
spec fn templated_upto(cfg: &SsaCfg, table: &SymbolTable, bindings: Map<Seq<char>, TemplateV>, b: int, k: int) -> bool {
    &&& forall|bb: int, kk: int|
        0 <= bb < cfg.blocks.len() && 0 <= kk < cfg.blocks@[bb].instructions.len() && (bb < b || (bb == b && kk < k))
            && (#[trigger] cfg.blocks@[bb].instructions@[kk]@).dest() is Some && cfg.blocks@[bb].instructions@[kk]@.dest().unwrap().symbol is Named
            ==> variable_template(
            table,
            cfg.blocks@[bb].instructions@[kk]@.dest().unwrap().symbol,
            bindings[cfg.blocks@[bb].instructions@[kk]@.dest().unwrap().name()],
        )
    &&& forall|p: int|
        0 <= p < cfg.parameters.len() && cfg.parameters@[p]@ is Named && parameter_declared(table, cfg.parameters@[p]@) ==> bindings[#[trigger] crate::ir::register_name(
            cfg.parameters@[p]@,
            0,
        )] == declared_template(table.symbols@[table.index_of(cfg.parameters@[p]@).unwrap()].1.ty.unwrap()@)
}

/// Binding the register instruction `k` of block `b` defines keeps the
/// rules for variables, up to that instruction.
proof fn lemma_templated_step(cfg: &SsaCfg, table: &SymbolTable, bindings: Map<Seq<char>, TemplateV>, b: int, k: int, tv: TemplateV)
    requires
        names_apart(cfg),
        0 <= b < cfg.blocks.len(),
        0 <= k < cfg.blocks@[b].instructions.len(),
        cfg.blocks@[b].instructions@[k]@.dest() is Some,
        templated_upto(cfg, table, bindings, b, k),
        cfg.blocks@[b].instructions@[k]@.dest().unwrap().symbol is Named ==> variable_template(
            table,
            cfg.blocks@[b].instructions@[k]@.dest().unwrap().symbol,
            tv,
        ),
        cfg.blocks@[b].instructions@[k]@.dest().unwrap().symbol is Named && parameter_declared(
            table,
            cfg.blocks@[b].instructions@[k]@.dest().unwrap().symbol,
        ) ==> tv == declared_template(
            table.symbols@[table.index_of(cfg.blocks@[b].instructions@[k]@.dest().unwrap().symbol).unwrap()].1.ty.unwrap()@,
        ),
    ensures
        templated_upto(cfg, table, bindings.insert(cfg.blocks@[b].instructions@[k]@.dest().unwrap().name(), tv), b, k + 1),
{
    let d = cfg.blocks@[b].instructions@[k]@.dest().unwrap();
    let nb = bindings.insert(d.name(), tv);
    assert forall|bb: int, kk: int|
        0 <= bb < cfg.blocks.len() && 0 <= kk < cfg.blocks@[bb].instructions.len() && (bb < b || (bb == b && kk < k + 1))
            && (#[trigger] cfg.blocks@[bb].instructions@[kk]@).dest() is Some && cfg.blocks@[bb].instructions@[kk]@.dest().unwrap().symbol is Named
        implies variable_template(
        table,
        cfg.blocks@[bb].instructions@[kk]@.dest().unwrap().symbol,
        nb[cfg.blocks@[bb].instructions@[kk]@.dest().unwrap().name()],
    ) by {
        let e = cfg.blocks@[bb].instructions@[kk]@.dest().unwrap();
        if e.name() == d.name() {
            assert(e.symbol == d.symbol);
        }
    }
    assert forall|p: int|
        0 <= p < cfg.parameters.len() && cfg.parameters@[p]@ is Named && parameter_declared(table, cfg.parameters@[p]@) implies nb[#[trigger] crate::ir::register_name(
        cfg.parameters@[p]@,
        0,
    )] == declared_template(table.symbols@[table.index_of(cfg.parameters@[p]@).unwrap()].1.ty.unwrap()@) by {
        if crate::ir::register_name(cfg.parameters@[p]@, 0) == d.name() {
            assert(d.symbol == cfg.parameters@[p]@);
        }
    }
}

/// An instruction that defines nothing keeps the rules for variables.
proof fn lemma_templated_skip(cfg: &SsaCfg, table: &SymbolTable, bindings: Map<Seq<char>, TemplateV>, b: int, k: int)
    requires
        0 <= b < cfg.blocks.len(),
        0 <= k < cfg.blocks@[b].instructions.len(),
        cfg.blocks@[b].instructions@[k]@.dest() is None,
        templated_upto(cfg, table, bindings, b, k),
    ensures
        templated_upto(cfg, table, bindings, b, k + 1),
{
}

/// The end of a block is the start of the next.
proof fn lemma_templated_next_block(cfg: &SsaCfg, table: &SymbolTable, bindings: Map<Seq<char>, TemplateV>, b: int)
    requires
        0 <= b < cfg.blocks.len(),
        templated_upto(cfg, table, bindings, b, cfg.blocks@[b].instructions.len() as int),
    ensures
        templated_upto(cfg, table, bindings, b + 1, 0),
{
}

/// Past the last block the rules hold everywhere.
proof fn lemma_templated_all(cfg: &SsaCfg, table: &SymbolTable, bindings: Map<Seq<char>, TemplateV>)
    requires
        templated_upto(cfg, table, bindings, cfg.blocks.len() as int, 0),
    ensures
        variables_templated(cfg, table, bindings),
{
}

/// Whether the variables' registers that have liquid templates have each
/// their own liquid variable.
pub open spec fn variables_liquid_apart(cfg: &SsaCfg, bindings: Map<Seq<char>, TemplateV>) -> bool {
    forall|b1: int, k1: int, b2: int, k2: int|
        0 <= b1 < cfg.blocks.len() && 0 <= k1 < cfg.blocks@[b1].instructions.len() && 0 <= b2 < cfg.blocks.len() && 0 <= k2
            < cfg.blocks@[b2].instructions.len() && named_dest(#[trigger] cfg.blocks@[b1].instructions@[k1]@) && named_dest(
            #[trigger] cfg.blocks@[b2].instructions@[k2]@,
        ) && cfg.blocks@[b1].instructions@[k1]@.dest().unwrap().name() != cfg.blocks@[b2].instructions@[k2]@.dest().unwrap().name()
            && bindings[cfg.blocks@[b1].instructions@[k1]@.dest().unwrap().name()] is Liquid
            && bindings[cfg.blocks@[b2].instructions@[k2]@.dest().unwrap().name()] is Liquid
            ==> bindings[cfg.blocks@[b1].instructions@[k1]@.dest().unwrap().name()]->liquid_var
            != bindings[cfg.blocks@[b2].instructions@[k2]@.dest().unwrap().name()]->liquid_var
}

/// Whether an instruction defines a register of a variable.
pub open spec fn named_dest(i: InstrV) -> bool {
    i.dest() is Some && i.dest().unwrap().symbol is Named
}

/// `variables_liquid_apart` over the instructions before instruction `k`
/// of block `b`, each of their liquid variables below `n`.
spec fn liquid_apart_upto(cfg: &SsaCfg, bindings: Map<Seq<char>, TemplateV>, b: int, k: int, n: nat) -> bool {
    &&& forall|bb: int, kk: int|
        0 <= bb < cfg.blocks.len() && 0 <= kk < cfg.blocks@[bb].instructions.len() && (bb < b || (bb == b && kk < k)) && named_dest(
            #[trigger] cfg.blocks@[bb].instructions@[kk]@,
        ) && bindings[cfg.blocks@[bb].instructions@[kk]@.dest().unwrap().name()] is Liquid ==> bindings[cfg.blocks@[bb].instructions@[kk]@.dest().unwrap().name()]->liquid_var.0
            < n
    &&& forall|b1: int, k1: int, b2: int, k2: int|
        0 <= b1 < cfg.blocks.len() && 0 <= k1 < cfg.blocks@[b1].instructions.len() && 0 <= b2 < cfg.blocks.len() && 0 <= k2
            < cfg.blocks@[b2].instructions.len() && (b1 < b || (b1 == b && k1 < k)) && (b2 < b || (b2 == b && k2 < k)) && named_dest(
            #[trigger] cfg.blocks@[b1].instructions@[k1]@,
        ) && named_dest(#[trigger] cfg.blocks@[b2].instructions@[k2]@) && cfg.blocks@[b1].instructions@[k1]@.dest().unwrap().name()
            != cfg.blocks@[b2].instructions@[k2]@.dest().unwrap().name() && bindings[cfg.blocks@[b1].instructions@[k1]@.dest().unwrap().name()] is Liquid
            && bindings[cfg.blocks@[b2].instructions@[k2]@.dest().unwrap().name()] is Liquid
            ==> bindings[cfg.blocks@[b1].instructions@[k1]@.dest().unwrap().name()]->liquid_var
            != bindings[cfg.blocks@[b2].instructions@[k2]@.dest().unwrap().name()]->liquid_var
}

/// Binding the register instruction `k` of block `b` defines, with a
/// liquid variable that is fresh if it is a variable's, keeps them apart.
proof fn lemma_liquid_step(cfg: &SsaCfg, bindings: Map<Seq<char>, TemplateV>, b: int, k: int, n: nat, n2: nat, tv: TemplateV)
    requires
        names_apart(cfg),
        0 <= b < cfg.blocks.len(),
        0 <= k < cfg.blocks@[b].instructions.len(),
        cfg.blocks@[b].instructions@[k]@.dest() is Some,
        liquid_apart_upto(cfg, bindings, b, k, n),
        n <= n2,
        named_dest(cfg.blocks@[b].instructions@[k]@) && tv is Liquid ==> tv->liquid_var.0 == n && n + 1 <= n2,
    ensures
        liquid_apart_upto(cfg, bindings.insert(cfg.blocks@[b].instructions@[k]@.dest().unwrap().name(), tv), b, k + 1, n2),
{
    let d = cfg.blocks@[b].instructions@[k]@.dest().unwrap();
    let nb = bindings.insert(d.name(), tv);
    assert forall|bb: int, kk: int|
        0 <= bb < cfg.blocks.len() && 0 <= kk < cfg.blocks@[bb].instructions.len() && (bb < b || (bb == b && kk < k + 1)) && named_dest(
            #[trigger] cfg.blocks@[bb].instructions@[kk]@,
        ) && nb[cfg.blocks@[bb].instructions@[kk]@.dest().unwrap().name()] is Liquid implies nb[cfg.blocks@[bb].instructions@[kk]@.dest().unwrap().name()]->liquid_var.0
        < n2 by {
        let e = cfg.blocks@[bb].instructions@[kk]@.dest().unwrap();
        if e.name() == d.name() {
            assert(e.symbol == d.symbol);
        }
    }
    assert forall|b1: int, k1: int, b2: int, k2: int|
        0 <= b1 < cfg.blocks.len() && 0 <= k1 < cfg.blocks@[b1].instructions.len() && 0 <= b2 < cfg.blocks.len() && 0 <= k2
            < cfg.blocks@[b2].instructions.len() && (b1 < b || (b1 == b && k1 < k + 1)) && (b2 < b || (b2 == b && k2 < k + 1)) && named_dest(
            #[trigger] cfg.blocks@[b1].instructions@[k1]@,
        ) && named_dest(#[trigger] cfg.blocks@[b2].instructions@[k2]@) && cfg.blocks@[b1].instructions@[k1]@.dest().unwrap().name()
            != cfg.blocks@[b2].instructions@[k2]@.dest().unwrap().name() && nb[cfg.blocks@[b1].instructions@[k1]@.dest().unwrap().name()] is Liquid
            && nb[cfg.blocks@[b2].instructions@[k2]@.dest().unwrap().name()] is Liquid
        implies nb[cfg.blocks@[b1].instructions@[k1]@.dest().unwrap().name()]->liquid_var
        != nb[cfg.blocks@[b2].instructions@[k2]@.dest().unwrap().name()]->liquid_var by {
        let e1 = cfg.blocks@[b1].instructions@[k1]@.dest().unwrap();
        let e2 = cfg.blocks@[b2].instructions@[k2]@.dest().unwrap();
        if e1.name() == d.name() {
            assert(e1.symbol == d.symbol);
        }
        if e2.name() == d.name() {
            assert(e2.symbol == d.symbol);
        }
        if e1.name() != d.name() && e2.name() != d.name() {
            if !(b1 < b || (b1 == b && k1 < k)) {
                assert(b1 == b && k1 == k);
            }
            if !(b2 < b || (b2 == b && k2 < k)) {
                assert(b2 == b && k2 == k);
            }
        }
    }
}

proof fn lemma_liquid_skip(cfg: &SsaCfg, bindings: Map<Seq<char>, TemplateV>, b: int, k: int, n: nat)
    requires
        0 <= b < cfg.blocks.len(),
        0 <= k < cfg.blocks@[b].instructions.len(),
        cfg.blocks@[b].instructions@[k]@.dest() is None,
        liquid_apart_upto(cfg, bindings, b, k, n),
    ensures
        liquid_apart_upto(cfg, bindings, b, k + 1, n),
{
}

proof fn lemma_liquid_next_block(cfg: &SsaCfg, bindings: Map<Seq<char>, TemplateV>, b: int, n: nat)
    requires
        0 <= b < cfg.blocks.len(),
        liquid_apart_upto(cfg, bindings, b, cfg.blocks@[b].instructions.len() as int, n),
    ensures
        liquid_apart_upto(cfg, bindings, b + 1, 0, n),
{
}

proof fn lemma_liquid_all(cfg: &SsaCfg, bindings: Map<Seq<char>, TemplateV>, n: nat)
    requires
        liquid_apart_upto(cfg, bindings, cfg.blocks.len() as int, 0, n),
    ensures
        variables_liquid_apart(cfg, bindings),
{
}

/// Whether the table declares the symbol as a parameter with a type.
pub open spec fn parameter_declared(table: &SymbolTable, s: SymbolIdV) -> bool {
    match table.index_of(s) {
        Some(i) => table.symbols@[i].1.kind is Parameter && table.symbols@[i].1.ty is Some,
        None => false,
    }
}

/// Whether a name is that of a state variable or constant.
pub open spec fn is_storage_name(t: &SymbolTable, n: Seq<char>) -> bool {
    exists|j: int| 0 <= j < t.symbols.len() && (#[trigger] t.symbols@[j]).1.is_storage()
        && t.symbols@[j].1.qualified_name.len() > 0 && t.symbols@[j].1.qualified_name@.last()@ == n
}

/// Whether a `requires` or `ensures` predicate is about storage: it uses
/// `old(..)`, or a free variable names a state variable or constant.
pub open spec fn about_storage(t: &SymbolTable, p: PredV) -> bool {
    crate::ast::predicate::pred_contains_old(p) || exists|n: Seq<char>|
        #[trigger] crate::ast::predicate::pred_free_vars(p).contains(n) && is_storage_name(t, n)
}

/// Whether `new` is `old` followed by constraints that all satisfy `ok`.
pub open spec fn grown_by(old: Seq<ConstraintV>, new: Seq<ConstraintV>, ok: spec_fn(ConstraintV) -> bool) -> bool {
    old.is_prefix_of(new) && forall|i: int| old.len() <= i < new.len() ==> ok(#[trigger] new[i])
}

pub proof fn lemma_grown_refl(a: Seq<ConstraintV>, ok: spec_fn(ConstraintV) -> bool)
    ensures
        grown_by(a, a, ok),
{
    assert(a =~= a.subrange(0, a.len() as int));
}

pub proof fn lemma_grown_push(a: Seq<ConstraintV>, b: Seq<ConstraintV>, x: ConstraintV, ok: spec_fn(ConstraintV) -> bool)
    requires
        grown_by(a, b, ok),
        ok(x),
    ensures
        grown_by(a, b.push(x), ok),
{
    assert(a =~= b.push(x).subrange(0, a.len() as int));
    assert forall|i: int| a.len() <= i < b.push(x).len() implies ok(#[trigger] b.push(x)[i]) by {
        if i < b.len() {
            assert(b.push(x)[i] == b[i]);
        }
    }
}

pub proof fn lemma_grown_trans(a: Seq<ConstraintV>, b: Seq<ConstraintV>, c: Seq<ConstraintV>, ok: spec_fn(ConstraintV) -> bool)
    requires
        grown_by(a, b, ok),
        grown_by(b, c, ok),
    ensures
        grown_by(a, c, ok),
{
    assert(a =~= c.subrange(0, a.len() as int));
    assert forall|i: int| a.len() <= i < c.len() implies ok(#[trigger] c[i]) by {
        if i < b.len() {
            assert(c[i] == b[i]);
        }
    }
}

pub proof fn lemma_grown_weaken(a: Seq<ConstraintV>, b: Seq<ConstraintV>, ok1: spec_fn(ConstraintV) -> bool, ok2: spec_fn(ConstraintV) -> bool)
    requires
        grown_by(a, b, ok1),
        forall|c: ConstraintV| #[trigger] ok1(c) ==> ok2(c),
    ensures
        grown_by(a, b, ok2),
{
    assert forall|i: int| a.len() <= i < b.len() implies ok2(#[trigger] b[i]) by {
        assert(ok1(b[i]));
    }
}

pub open spec fn subtypes() -> spec_fn(ConstraintV) -> bool {
    |c: ConstraintV| c is Subtype
}

pub open spec fn binary_kinds() -> spec_fn(ConstraintV) -> bool {
    |c: ConstraintV| c is Subtype || c is WellFormed || c is BinaryOp
}

pub open spec fn unary_kinds() -> spec_fn(ConstraintV) -> bool {
    |c: ConstraintV| c is Subtype || c is WellFormed || c is UnaryOp
}

pub open spec fn call_kinds() -> spec_fn(ConstraintV) -> bool {
    |c: ConstraintV| c is Subtype || c is WellFormed || c is Requires || c is Ensures
}

pub open spec fn fold_kinds() -> spec_fn(ConstraintV) -> bool {
    |c: ConstraintV| c is Fold
}

pub open spec fn no_kinds() -> spec_fn(ConstraintV) -> bool {
    |c: ConstraintV| false
}

/// The kinds of constraint an instruction may make.
pub open spec fn instr_kinds(i: InstrV) -> spec_fn(ConstraintV) -> bool {
    match i {
        InstrV::Copy(..) | InstrV::StorageLoad(..) | InstrV::StorageStore(..) => subtypes(),
        InstrV::BinaryOp(..) => binary_kinds(),
        InstrV::UnaryOp(..) => unary_kinds(),
        InstrV::Call(..) => call_kinds(),
        InstrV::Fold(..) => fold_kinds(),
        _ => no_kinds(),
    }
}

/// The fact an instruction adds: `dest = source` for a copy,
/// `dest = l ⊗ r` for arithmetic, `dest ⇔ (l rel r)` for a comparison.
pub open spec fn instr_fact(i: InstrV) -> Option<PredV> {
    match i {
        InstrV::Copy(d, src, sr) => Some(PredV::BinRel(RelOp::Eq, var_expr(d.name()), operand_fact_expr(src), syn_id(), sr)),
        InstrV::BinaryOp(d, op, l, r, sr) => match binary_arith(op) {
            Some(a) => Some(PredV::BinRel(
                RelOp::Eq,
                var_expr(d.name()),
                ExprV::BinOp(a, Box::new(operand_fact_expr(l)), Box::new(operand_fact_expr(r)), syn_id(), unknown_ref()),
                syn_id(),
                sr,
            )),
            None => match binary_rel(op) {
                Some(rel) => Some(iff_pred(
                    var_pred(d.name()),
                    PredV::BinRel(rel, operand_fact_expr(l), operand_fact_expr(r), syn_id(), unknown_ref()),
                )),
                None => None,
            },
        },
        _ => None,
    }
}

pub open spec fn unvisited(v: Seq<bool>) -> nat
    decreases v.len(),
{
    if v.len() == 0 {
        0
    } else {
        unvisited(v.drop_last()) + if v.last() { 0nat } else { 1nat }
    }
}

/// Marking more blocks leaves no more unvisited.
pub proof fn lemma_unvisited_monotone(a: Seq<bool>, b: Seq<bool>)
    requires
        a.len() == b.len(),
        forall|i: int| 0 <= i < a.len() && #[trigger] a[i] ==> b[i],
    ensures
        unvisited(b) <= unvisited(a),
    decreases a.len(),
{
    if a.len() > 0 {
        lemma_unvisited_monotone(a.drop_last(), b.drop_last());
    }
}

/// Marking an unvisited block leaves one fewer.
pub proof fn lemma_unvisited_mark(a: Seq<bool>, k: int)
    requires
        0 <= k < a.len(),
        !a[k],
    ensures
        unvisited(a.update(k, true)) < unvisited(a),
    decreases a.len(),
{
    if k < a.len() - 1 {
        assert(a.update(k, true).drop_last() =~= a.drop_last().update(k, true));
        lemma_unvisited_mark(a.drop_last(), k);
    } else {
        assert(a.update(k, true).drop_last() =~= a.drop_last());
    }
}

pub open spec fn grows(a: Seq<bool>, b: Seq<bool>) -> bool {
    a.len() == b.len() && forall|i: int| 0 <= i < a.len() && #[trigger] a[i] ==> b[i]
}

fn clone_storage_regs(v: &Vec<(SymbolId, String)>) -> (r: Vec<(SymbolId, String)>)
    ensures
        regs_view(r@) == regs_view(v@),
{
    let mut out: Vec<(SymbolId, String)> = Vec::new();
    let mut i: usize = 0;
    while i < v.len()
        invariant
            i <= v.len(),
            regs_view(out@) == regs_view(v@).subrange(0, i as int),
        decreases v.len() - i,
    {
        let e = &v[i];
        let ghost before = out@;
        out.push((e.0.clone(), e.1.clone()));
        proof {
            assert(regs_view(out@) =~= regs_view(before).push((v@[i as int].0@, v@[i as int].1@)));
            assert(regs_view(out@) =~= regs_view(v@).subrange(0, i + 1));
        }
        i = i + 1;
    }
    proof {
        assert(regs_view(v@).subrange(0, i as int) =~= regs_view(v@));
    }
    out
}

fn concat_str(a: &str, b: &str) -> (r: String)
    ensures
        r@ == a@ + b@,
{
    String::from_str(a).concat(b)
}

impl<'a> LiquidInferenceEngine<'a> {
    /// Every `requires`/`ensures` predicate must be about storage; one that
    /// only mentions parameters and locals is refused.
    pub fn validate_storage_contracts(&self, predicates: &Vec<Predicate>, clause_kind: &str) -> (r: Result<(), MerakError>)
        ensures
            r is Ok <==> forall|i: int| 0 <= i < predicates.len() ==> about_storage(self.table(), #[trigger] predicates@[i]@),
            r is Err ==> r->Err_0 is SemanticError,
            r is Err ==> exists|i: int| 0 <= i < predicates.len() && !about_storage(self.table(), #[trigger] predicates@[i]@)
                && r->Err_0->SemanticError_0@ == clause_refusal(clause_kind@, predicates@[i]@),
    {
        let table = self.env.symbol_table();
        let mut i: usize = 0;
        while i < predicates.len()
            invariant
                i <= predicates.len(),
                table == self.table(),
                forall|j: int| 0 <= j < i ==> about_storage(self.table(), #[trigger] predicates@[j]@),
            decreases predicates.len() - i,
        {
            let pred = &predicates[i];
            if !pred.contains_old() {
                let free = pred.free_variables();
                let names = free.to_vec();
                let mut found = false;
                let mut k: usize = 0;
                while k < names.len()
                    invariant
                        k <= names.len(),
                        table == self.table(),
                        forall|x: Seq<char>| free@.contains(x) <==> exists|m: int| 0 <= m < names.len() && (#[trigger] names@[m])@ == x,
                        found ==> exists|n: Seq<char>| #[trigger] free@.contains(n) && is_storage_name(self.table(), n),
                        !found ==> forall|m: int| 0 <= m < k ==> !is_storage_name(self.table(), (#[trigger] names@[m])@),
                    decreases names.len() - k,
                {
                    let mut j: usize = 0;
                    while j < table.symbols.len()
                        invariant
                            j <= table.symbols.len(),
                            k < names.len(),
                            table == self.table(),
                            forall|x: Seq<char>| free@.contains(x) <==> exists|m: int| 0 <= m < names.len() && (#[trigger] names@[m])@ == x,
                            found ==> exists|n: Seq<char>| #[trigger] free@.contains(n) && is_storage_name(self.table(), n),
                            !found ==> forall|m: int| 0 <= m < k ==> !is_storage_name(self.table(), (#[trigger] names@[m])@),
                            !found ==> forall|q: int| 0 <= q < j ==> !((#[trigger] table.symbols@[q]).1.is_storage()
                                && table.symbols@[q].1.qualified_name.len() > 0 && table.symbols@[q].1.qualified_name@.last()@ == names@[k as int]@),
                        decreases table.symbols.len() - j,
                    {
                        let info = &table.symbols[j].1;
                        let storage = match info.kind {
                            SymbolKind::StateVar | SymbolKind::StateConst => true,
                            _ => false,
                        };
                        if storage && info.qualified_name.len() > 0 && crate::names::str_eq(info.last_name(), names[k].as_str()) {
                            proof {
                                assert(free@.contains(names@[k as int]@));
                                assert(is_storage_name(self.table(), names@[k as int]@));
                            }
                            found = true;
                        }
                        j = j + 1;
                    }
                    k = k + 1;
                }
                if !found {
                    proof {
                        assert forall|n: Seq<char>| #[trigger] crate::ast::predicate::pred_free_vars(pred@).contains(n) implies !is_storage_name(self.table(), n) by {
                            let m = choose|m: int| 0 <= m < names.len() && (#[trigger] names@[m])@ == n;
                        }
                        assert(!about_storage(self.table(), predicates@[i as int]@));
                    }
                    proof {
                        reveal_strlit(" clause '");
                        reveal_strlit("' only references parameters/locals. Use parameter refinements instead (e.g., x: {x: int | x > 0})");
                    }
                    let msg = concat_str(clause_kind, " clause '").concat(pred.to_string().as_str()).concat(
                        "' only references parameters/locals. Use parameter refinements instead (e.g., x: {x: int | x > 0})",
                    );
                    proof {
                        assert(msg@ =~= clause_refusal(clause_kind@, predicates@[i as int]@));
                    }
                    return Err(MerakError::SemanticError(msg));
                }
            }
            i = i + 1;
        }
        Ok(())
    }

    /// `actual <: expected` for a returned value, against the function's
    /// declared return type.
    fn generate_return_constraint(&mut self, ret_operand: &Operand) -> (r: Result<(), MerakError>)
        ensures
            final(self).current() == old(self).current(),
            final(self).bindings() == old(self).bindings(),
            old(self).next_liquid() <= final(self).next_liquid() <= old(self).next_liquid() + 1,
            r is Ok <==> old(self).current() is Some && declared_function(old(self).table(), old(self).current().unwrap())
                && old(self).next_liquid() < usize::MAX && operand_readable(ret_operand@, old(self).bindings(), old(self).table()),
            r is Ok ==> final(self).cons().last() is Subtype && final(self).cons().last()->Subtype_1 == operand_template(
                ret_operand@,
                old(self).bindings(),
            ) && final(self).cons().last()->Subtype_3 == unknown_ref(),
            grown_by(old(self).cons(), final(self).cons(), subtypes()),
            final(self).bindings() == old(self).bindings(),
            final(self).facts() == old(self).facts(),
            final(self).assumptions() == old(self).assumptions(),
            final(self).table() == old(self).table(),
    {
        proof {
            lemma_grown_refl(self.cons(), subtypes());
        }
        let func_id = match self.env.current_function() {
            Some(f) => f,
            None => return Err(err("no current function")),
        };
        let declared = match self.env.get_symbol(&func_id) {
            Some(info) => match &info.kind {
                SymbolKind::Function { return_type, .. } => return_type.clone(),
                _ => return Err(err("current function is not a function symbol")),
            },
            None => return Err(err("current function is not in the symbol table")),
        };
        if !self.env.can_make_liquid() {
            return Err(err("no liquid variable is left"));
        }
        let mut expected = self.env.template_from_type(&declared);
        let ssa_map = self.env.source_to_ssa_mapping().copy();
        expected.resolve_cross_refs(&ssa_map);
        let ctx = self.env.to_type_context();
        let actual = match self.operand_to_template_with_contract_check(ret_operand, &ctx, SourceRef::unknown()) {
            Ok(t) => t,
            Err(e) => return Err(e),
        };
        self.push_constraint(Constraint::Subtype { context: ctx, sub: actual, sup: expected, location: SourceRef::unknown() }, Ghost(subtypes()));
        Ok(())
    }

    /// Appends a constraint of a kind that `ok` accepts.
    fn push_constraint(&mut self, c: Constraint, Ghost(ok): Ghost<spec_fn(ConstraintV) -> bool>)
        requires
            ok(c@),
        ensures
            final(self).ssa() == old(self).ssa(),
            final(self).current() == old(self).current(),
            final(self).cons() == old(self).cons().push(c@),
            final(self).storage_regs() == old(self).storage_regs(),
            final(self).path_assumptions() == old(self).path_assumptions(),
            final(self).next_liquid() == old(self).next_liquid(),
            grown_by(old(self).cons(), final(self).cons(), ok),
            final(self).bindings() == old(self).bindings(),
            final(self).facts() == old(self).facts(),
            final(self).assumptions() == old(self).assumptions(),
            final(self).table() == old(self).table(),
    {
        let ghost before = self.cons();
        self.constraints.add(c);
        proof {
            lemma_grown_refl(before, ok);
            lemma_grown_push(before, before, c@, ok);
        }
    }

    fn gen_copy(&mut self, dest: &Register, source: &Operand, source_ref: SourceRef, context: TypeContext) -> (r: Result<(), MerakError>)
        ensures
            final(self).current() == old(self).current(),
            r is Ok <==> operand_readable(source@, old(self).bindings(), old(self).table()) && old(self).bindings().dom().contains(dest@.name()),
            r is Ok ==> exists|i: int| old(self).cons().len() <= i < final(self).cons().len() && #[trigger] final(self).cons()[i] == copy_subtype(
                context@,
                dest@,
                source@,
                old(self).bindings(),
                old(self).ssa(),
                source_ref,
            ),
            final(self).bindings() == old(self).bindings(),
            final(self).next_liquid() == old(self).next_liquid(),
            grown_by(old(self).cons(), final(self).cons(), subtypes()),
            final(self).table() == old(self).table(),
            final(self).assumptions() == old(self).assumptions(),
            r is Ok ==> final(self).facts() == old(self).facts().push(
                PredV::BinRel(RelOp::Eq, var_expr(dest@.name()), operand_fact_expr(source@), syn_id(), source_ref),
            ),
            !(r is Ok) ==> final(self).facts() == old(self).facts(),
    {
        let ghost c0 = self.cons();
        let sub = match self.operand_to_template_with_contract_check(source, &context, source_ref) {
            Ok(t) => t,
            Err(e) => return Err(e),
        };
        let ghost c1 = self.cons();
        let dest_name = dest.to_string();
        let mut sup = match self.env.get_local(dest_name.as_str()) {
            Some(t) => t,
            None => return Err(err("copy destination without a template")),
        };
        let ssa_map = self.env.source_to_ssa_mapping().copy();
        sup.resolve_cross_refs(&ssa_map);
        let ghost want = copy_subtype(context@, dest@, source@, old(self).bindings(), old(self).ssa(), source_ref);
        let cc = context.clone();
        let sc = sub.clone();
        proof {
            assert(cc@ == context@);
            assert(sc@ == sub@);
            assert(sup@ == cross_resolved(crate::refinements::templates::rebind(old(self).bindings()[dest@.name()], dest@.name()), old(self).ssa()));
        }
        self.push_constraint(Constraint::Subtype { context: cc, sub: sc, sup, location: source_ref }, Ghost(subtypes()));
        let ghost idx = c1.len() as int;
        proof {
            lemma_grown_trans(c0, c1, self.cons(), subtypes());
            assert(self.cons()[idx] == want);
        }
        let dest_expr = RefinementExpr::Var(dest.to_string(), NodeId::new(0), SourceRef::unknown());
        let source_expr = operand_to_refinement_expr(source);
        self.env.add_local_fact(Predicate::BinRel { op: RelOp::Eq, lhs: dest_expr, rhs: source_expr, id: NodeId::new(0), source_ref });
        if let SymbolId::Named(_, _) = &dest.symbol {
            if let Some(ty) = self.env.get_symbol_type(&dest.symbol) {
                if ty.is_explicit_annotation() && !ty.is_true_literal() {
                    let mut subst: StrMap<String> = StrMap::new();
                    subst.insert(ty.binder.clone(), dest.to_string());
                    let mut user_contract = Template::Concrete {
                        base: ty.base.clone(),
                        binder: dest.to_string(),
                        refinement: ty.constraint.substitute_vars(&subst),
                        source_ref: ty.source_ref,
                    };
                    user_contract.resolve_cross_refs(&ssa_map);
                    let ghost c2 = self.cons();
                    self.push_constraint(Constraint::Subtype { context, sub, sup: user_contract, location: source_ref }, Ghost(subtypes()));
                    proof {
                        lemma_grown_trans(c0, c2, self.cons(), subtypes());
                    }
                }
            }
        }
        proof {
            assert(self.cons()[idx] == want);
            assert(old(self).cons().len() <= idx < self.cons().len());
        }
        Ok(())
    }

    fn gen_binary(
        &mut self,
        dest: &Register,
        op: BinaryOperator,
        left: &Operand,
        right: &Operand,
        source_ref: SourceRef,
        context: TypeContext,
    ) -> (r: Result<(), MerakError>)
        ensures
            final(self).current() == old(self).current(),
            grown_by(old(self).cons(), final(self).cons(), binary_kinds()),
            final(self).table() == old(self).table(),
            final(self).assumptions() == old(self).assumptions(),
            r is Ok ==> final(self).facts() == match instr_fact(InstrV::BinaryOp(dest@, op, left@, right@, source_ref)) {
                Some(f) => old(self).facts().push(f),
                None => old(self).facts(),
            },
            !(r is Ok) ==> final(self).facts() == old(self).facts(),
            r is Ok <==> old(self).bindings().dom().contains(dest@.name()) && operand_readable(left@, old(self).bindings(), old(self).table())
                && operand_readable(right@, old(self).bindings(), old(self).table()),
            final(self).bindings() == old(self).bindings(),
            final(self).next_liquid() == old(self).next_liquid(),
            r is Ok ==> final(self).cons().last() == ConstraintV::BinaryOp(
                context@,
                op,
                operand_template(left@, old(self).bindings()),
                operand_template(right@, old(self).bindings()),
                crate::refinements::templates::rebind(old(self).bindings()[dest@.name()], dest@.name()),
                source_ref,
            ),
            r is Ok ==> exists|i: int| old(self).cons().len() <= i < final(self).cons().len()
                && (#[trigger] final(self).cons()[i]) is BinaryOp && final(self).cons()[i]->BinaryOp_1 == op,
    {
        let ghost c0 = self.cons();
        let dest_name = dest.to_string();
        let dest_tmpl = match self.env.get_local(dest_name.as_str()) {
            Some(t) => t,
            None => {
                proof {
                    lemma_grown_refl(c0, binary_kinds());
                }
                return Err(err("operation result without a template"));
            },
        };
        let left_tmpl = match self.operand_to_template_with_contract_check(left, &context, source_ref) {
            Ok(t) => t,
            Err(e) => {
                proof {
                    lemma_grown_weaken(c0, self.cons(), subtypes(), binary_kinds());
                }
                return Err(e);
            },
        };
        let ghost c1 = self.cons();
        let right_tmpl = match self.operand_to_template_with_contract_check(right, &context, source_ref) {
            Ok(t) => t,
            Err(e) => {
                proof {
                    lemma_grown_trans(c0, c1, self.cons(), subtypes());
                    lemma_grown_weaken(c0, self.cons(), subtypes(), binary_kinds());
                }
                return Err(e);
            },
        };
        proof {
            lemma_grown_trans(c0, c1, self.cons(), subtypes());
            lemma_grown_weaken(c0, self.cons(), subtypes(), binary_kinds());
        }
        let ghost c2 = self.cons();
        self.push_constraint(Constraint::WellFormed { context: context.clone(), template: left_tmpl.clone(), location: source_ref }, Ghost(binary_kinds()));
        let ghost c3 = self.cons();
        self.push_constraint(Constraint::WellFormed { context: context.clone(), template: right_tmpl.clone(), location: source_ref }, Ghost(binary_kinds()));
        let ghost c4 = self.cons();
        self.push_constraint(Constraint::WellFormed { context: context.clone(), template: dest_tmpl.clone(), location: source_ref }, Ghost(binary_kinds()));
        let ghost c5 = self.cons();
        self.push_constraint(
            Constraint::BinaryOp { context: context.clone(), op, left: left_tmpl, right: right_tmpl, result: dest_tmpl, location: source_ref },
            Ghost(binary_kinds()),
        );
        proof {
            lemma_grown_trans(c0, c2, c3, binary_kinds());
            lemma_grown_trans(c0, c3, c4, binary_kinds());
            lemma_grown_trans(c0, c4, c5, binary_kinds());
            lemma_grown_trans(c0, c5, self.cons(), binary_kinds());
            assert(self.cons()[c5.len() as int] is BinaryOp);
        }
        match binary_op_to_arith(op) {
            Some(arith_op) => {
                let dest_expr = RefinementExpr::Var(dest.to_string(), NodeId::new(0), SourceRef::unknown());
                let rhs = RefinementExpr::BinOp {
                    op: arith_op,
                    lhs: Box::new(operand_to_refinement_expr(left)),
                    rhs: Box::new(operand_to_refinement_expr(right)),
                    id: NodeId::new(0),
                    source_ref: SourceRef::unknown(),
                };
                let fact = Predicate::BinRel { op: RelOp::Eq, lhs: dest_expr, rhs, id: NodeId::new(0), source_ref };
                assert(Some(fact@) == instr_fact(InstrV::BinaryOp(dest@, op, left@, right@, source_ref)));
                self.env.add_local_fact(fact);
            },
            None => {},
        }
        match binary_op_to_rel(op) {
            Some(rel_op) => {
                let dest_var = Predicate::Var(dest.to_string(), NodeId::new(0), SourceRef::unknown());
                let comparison = Predicate::BinRel {
                    op: rel_op,
                    lhs: operand_to_refinement_expr(left),
                    rhs: operand_to_refinement_expr(right),
                    id: NodeId::new(0),
                    source_ref: SourceRef::unknown(),
                };
                let forward = Predicate::Implies(Box::new(dest_var.clone()), Box::new(comparison.clone()), NodeId::new(0), SourceRef::unknown());
                let backward = Predicate::Implies(Box::new(comparison), Box::new(dest_var), NodeId::new(0), SourceRef::unknown());
                let fact = Predicate::And(Box::new(forward), Box::new(backward), NodeId::new(0), SourceRef::unknown());
                assert(backward@ == crate::refinements::solver::implies_pred(comparison@, dest_var@));
                assert(fact@ == crate::refinements::solver::and_pred(forward@, backward@));
                assert(fact@ == iff_pred(dest_var@, comparison@));
                assert(Some(fact@) == instr_fact(InstrV::BinaryOp(dest@, op, left@, right@, source_ref)));
                self.env.add_local_fact(fact);
            },
            None => {},
        }
        proof {
            assert(self.cons()[c5.len() as int] is BinaryOp && self.cons()[c5.len() as int]->BinaryOp_1 == op);
        }
        Ok(())
    }

    fn gen_unary(&mut self, dest: &Register, op: UnaryOperator, operand: &Operand, source_ref: SourceRef, context: TypeContext) -> (r: Result<(), MerakError>)
        ensures
            final(self).current() == old(self).current(),
            grown_by(old(self).cons(), final(self).cons(), unary_kinds()),
            final(self).table() == old(self).table(),
            final(self).assumptions() == old(self).assumptions(),
            final(self).facts() == old(self).facts(),
            final(self).bindings() == old(self).bindings(),
            final(self).storage_regs() == old(self).storage_regs(),
            final(self).next_liquid() == old(self).next_liquid(),
            r is Ok <==> old(self).bindings().dom().contains(dest@.name()) && operand_readable(operand@, old(self).bindings(), old(self).table()),
            r is Ok ==> final(self).cons().last() == ConstraintV::UnaryOp(
                context@,
                op,
                operand_template(operand@, old(self).bindings()),
                crate::refinements::templates::rebind(old(self).bindings()[dest@.name()], dest@.name()),
                source_ref,
            ),
    {
        let ghost c0 = self.cons();
        proof {
            lemma_grown_refl(c0, unary_kinds());
        }
        let dest_name = dest.to_string();
        let dest_tmpl = match self.env.get_local(dest_name.as_str()) {
            Some(t) => t,
            None => return Err(err("operation result without a template")),
        };
        let operand_tmpl = match self.operand_to_template_with_contract_check(operand, &context, source_ref) {
            Ok(t) => t,
            Err(e) => {
                proof {
                    lemma_grown_weaken(c0, self.cons(), subtypes(), unary_kinds());
                }
                return Err(e);
            },
        };
        proof {
            lemma_grown_weaken(c0, self.cons(), subtypes(), unary_kinds());
        }
        let ghost c1 = self.cons();
        self.push_constraint(Constraint::WellFormed { context: context.clone(), template: operand_tmpl.clone(), location: source_ref }, Ghost(unary_kinds()));
        let ghost c2 = self.cons();
        self.push_constraint(Constraint::WellFormed { context: context.clone(), template: dest_tmpl.clone(), location: source_ref }, Ghost(unary_kinds()));
        let ghost c3 = self.cons();
        self.push_constraint(Constraint::UnaryOp { context, op, operand: operand_tmpl, result: dest_tmpl, location: source_ref }, Ghost(unary_kinds()));
        proof {
            lemma_grown_trans(c0, c1, c2, unary_kinds());
            lemma_grown_trans(c0, c2, c3, unary_kinds());
            lemma_grown_trans(c0, c3, self.cons(), unary_kinds());
        }
        Ok(())
    }

    fn gen_load(&mut self, dest: &Register, var: &SymbolId, source_ref: SourceRef, context: TypeContext) -> (r: Result<(), MerakError>)
        ensures
            final(self).current() == old(self).current(),
            grown_by(old(self).cons(), final(self).cons(), subtypes()),
            final(self).table() == old(self).table(),
            final(self).facts() == old(self).facts(),
            final(self).bindings() == old(self).bindings(),
            old(self).next_liquid() <= final(self).next_liquid() <= old(self).next_liquid() + 1,
            r is Ok <==> old(self).bindings().dom().contains(dest@.name()) && old(self).next_liquid() < usize::MAX && typed_in(
                old(self).table(),
                var@,
            ),
            r is Ok ==> final(self).cons().last() is Subtype && final(self).cons().last()->Subtype_0 == context@
                && final(self).cons().last()->Subtype_2 == crate::refinements::templates::rebind(
                old(self).bindings()[dest@.name()],
                dest@.name(),
            ) && final(self).cons().last()->Subtype_3 == source_ref,
            r is Ok ==> final(self).storage_regs() == regs_without(old(self).storage_regs(), var@).push((var@, dest@.name())),
            r is Ok ==> final(self).assumptions() == match last_reg(old(self).storage_regs(), var@) {
                Some(prev) => old(self).assumptions().push(
                    PredV::BinRel(RelOp::Eq, var_expr(dest@.name()), var_expr(prev), syn_id(), source_ref),
                ),
                None => old(self).assumptions(),
            },
    {
        proof {
            lemma_grown_refl(self.cons(), subtypes());
        }
        let dest_name = dest.to_string();
        let sup = match self.env.get_local(dest_name.as_str()) {
            Some(t) => t,
            None => return Err(err("load destination without a template")),
        };
        if !self.env.can_make_liquid() {
            return Err(err("no liquid variable is left"));
        }
        let sub = match self.env.get_symbol_template(var) {
            Some(t) => t,
            None => return Err(err("state variable without a type")),
        };
        self.push_constraint(Constraint::Subtype { context, sub, sup, location: source_ref }, Ghost(subtypes()));
        let prev = match self.storage_reg(var) {
            Some(p) => Some(p.clone()),
            None => None,
        };
        if let Some(prev_name) = prev {
            let binrel = Predicate::BinRel {
                op: RelOp::Eq,
                lhs: RefinementExpr::Var(dest.to_string(), NodeId::new(0), SourceRef::unknown()),
                rhs: RefinementExpr::Var(prev_name, NodeId::new(0), SourceRef::unknown()),
                id: NodeId::new(0),
                source_ref,
            };
            self.env.add_assumption(binrel);
        }
        self.set_storage_reg(var, Some(dest.to_string()));
        Ok(())
    }

    fn gen_store(&mut self, var: &SymbolId, value: &Operand, source_ref: SourceRef, context: TypeContext) -> (r: Result<(), MerakError>)
        ensures
            final(self).current() == old(self).current(),
            grown_by(old(self).cons(), final(self).cons(), subtypes()),
            final(self).table() == old(self).table(),
            final(self).facts() == old(self).facts(),
            final(self).assumptions() == old(self).assumptions(),
            final(self).bindings() == old(self).bindings(),
            old(self).next_liquid() <= final(self).next_liquid() <= old(self).next_liquid() + 1,
            r is Ok <==> operand_readable(value@, old(self).bindings(), old(self).table()) && old(self).next_liquid() < usize::MAX
                && typed_in(old(self).table(), var@),
            r is Ok ==> final(self).cons().last() is Subtype && final(self).cons().last()->Subtype_0 == context@
                && final(self).cons().last()->Subtype_1 == operand_template(value@, old(self).bindings())
                && final(self).cons().last()->Subtype_3 == source_ref,
            r is Ok ==> final(self).storage_regs() == match value@ {
                OperandV::Location(reg) => regs_without(old(self).storage_regs(), var@).push((var@, reg.name())),
                OperandV::Constant(_) => regs_without(old(self).storage_regs(), var@),
            },
    {
        let ghost c0 = self.cons();
        let sub = match self.operand_to_template_with_contract_check(value, &context, source_ref) {
            Ok(t) => t,
            Err(e) => return Err(e),
        };
        if !self.env.can_make_liquid() {
            return Err(err("no liquid variable is left"));
        }
        let sup = match self.env.get_symbol_template(var) {
            Some(t) => t,
            None => return Err(err("state variable without a type")),
        };
        let ghost c1 = self.cons();
        self.push_constraint(Constraint::Subtype { context, sub, sup, location: source_ref }, Ghost(subtypes()));
        proof {
            lemma_grown_trans(c0, c1, self.cons(), subtypes());
        }
        match value {
            Operand::Location(reg) => self.set_storage_reg(var, Some(reg.to_string())),
            _ => self.set_storage_reg(var, None),
        }
        Ok(())
    }

    /// The constraints and facts of one instruction.
    fn generate_constraints_instruction(&mut self, instr: &SsaInstruction) -> (r: Result<(), MerakError>)
        requires
            instr_predicates_ok(instr@),
        ensures
            r is Ok && instr@ is Copy ==> exists|ctx: crate::refinements::constraints::TypeContextV, i: int|
                #![trigger context_for(ctx, old(self).bindings(), old(self).assumptions(), old(self).facts(), old(self).ssa()), final(self).cons()[i]]
                context_for(ctx, old(self).bindings(), old(self).assumptions(), old(self).facts(), old(self).ssa())
                && old(self).cons().len() <= i < final(self).cons().len() && final(self).cons()[i] == copy_subtype(
                ctx,
                instr@->Copy_0,
                instr@->Copy_1,
                old(self).bindings(),
                old(self).ssa(),
                instr@->Copy_2,
            ),
            final(self).current() == old(self).current(),
            grown_by(old(self).cons(), final(self).cons(), instr_kinds(instr@)),
            final(self).table() == old(self).table(),
            r is Ok ==> final(self).facts() == match instr_fact(instr@) {
                Some(f) => old(self).facts().push(f),
                None => old(self).facts(),
            },
            !(r is Ok) ==> final(self).facts() == old(self).facts() || instr_fact(instr@) is Some,
            r is Ok && instr@ is BinaryOp ==> exists|i: int| old(self).cons().len() <= i < final(self).cons().len()
                && (#[trigger] final(self).cons()[i]) is BinaryOp && final(self).cons()[i]->BinaryOp_1 == instr@->BinaryOp_1,
            r is Ok && instr@ is Fold ==> final(self).cons().len() == old(self).cons().len() + 1
                && final(self).cons().last() is Fold && final(self).cons().last()->Fold_1 == instr@->Fold_0,
            !(instr@ is StorageLoad || instr@ is Unfold) ==> final(self).assumptions() == old(self).assumptions(),
            r is Ok <==> instr_generable(instr@, old(self).bindings(), old(self).table(), old(self).next_liquid()),
            final(self).bindings().dom() == old(self).bindings().dom(),
            old(self).next_liquid() <= final(self).next_liquid() <= old(self).next_liquid() + 1,
    {
        proof {
            lemma_grown_refl(self.cons(), instr_kinds(instr@));
            match instr@ {
                InstrV::Fold(var, _) => lemma_index_of(self.table(), var),
                InstrV::Unfold(var, _) => lemma_index_of(self.table(), var),
                _ => {},
            }
        }
        let context = self.env.to_type_context();
        match instr {
            SsaInstruction::Copy { dest, source, source_ref } => {
                proof {
                    assert(context_for(context@, self.bindings(), self.assumptions(), self.facts(), self.ssa()));
                }
                self.gen_copy(dest, source, *source_ref, context)
            },
            SsaInstruction::Phi { .. } => Ok(()),
            SsaInstruction::BinaryOp { dest, op, left, right, source_ref } => self.gen_binary(dest, *op, left, right, *source_ref, context),
            SsaInstruction::UnaryOp { dest, op, operand, source_ref } => self.gen_unary(dest, *op, operand, *source_ref, context),
            SsaInstruction::StorageLoad { dest, var, source_ref } => self.gen_load(dest, var, *source_ref, context),
            SsaInstruction::StorageStore { var, value, source_ref } => self.gen_store(var, value, *source_ref, context),
            SsaInstruction::Call { dest, target, args, source_ref } => {
                match target {
                    CallTarget::Internal(fn_id) => self.generate_call_constraints(dest, fn_id, args, &context, *source_ref),
                    CallTarget::External { .. } => Ok(()),
                }
            },
            SsaInstruction::Assert { .. } => Ok(()),
            SsaInstruction::Fold { var, source_ref } => {
                let refinement = match self.env.get_symbol_type(var) {
                    Some(t) => t.constraint.clone(),
                    None => return Err(err("storage variable without a type")),
                };
                self.push_constraint(Constraint::Fold { context, var: var.clone(), refinement, location: *source_ref }, Ghost(fold_kinds()));
                Ok(())
            },
            SsaInstruction::Unfold { var, .. } => {
                let refinement = match self.env.get_symbol_type(var) {
                    Some(t) => t.constraint.clone(),
                    None => return Err(err("storage variable without a type")),
                };
                self.env.add_assumption(refinement);
                Ok(())
            },
        }
    }

    /// An internal call: its result's template with the formal parameters
    /// replaced by the arguments, the callee's `requires` and `ensures` over
    /// the arguments, and each argument against its parameter's type.
    #[verifier::rlimit(40)]
    #[verifier::spinoff_prover]
    fn generate_call_constraints(
        &mut self,
        dest: &Option<Register>,
        fn_id: &SymbolId,
        args: &Vec<Operand>,
        context: &TypeContext,
        source_ref: SourceRef,
    ) -> (r: Result<(), MerakError>)
        ensures
            final(self).current() == old(self).current(),
            grown_by(old(self).cons(), final(self).cons(), call_kinds()),
            final(self).table() == old(self).table(),
            final(self).facts() == old(self).facts(),
            final(self).assumptions() == old(self).assumptions(),
            final(self).bindings().dom() == old(self).bindings().dom(),
            final(self).next_liquid() == old(self).next_liquid(),
            r is Ok <==> call_readable(
                old(self).table(),
                old(self).bindings(),
                match *dest {
                    Some(d) => Some(d@),
                    None => None,
                },
                fn_id@,
                args@.map_values(|o: Operand| o@),
            ),
    {
        let ghost c0 = self.cons();
        let ghost dv = match dest {
            Some(d) => Some(d@),
            None => None::<RegisterV>,
        };
        let ghost av = args@.map_values(|o: Operand| o@);
        proof {
            lemma_index_of(self.table(), fn_id@);
        }
        proof {
            lemma_grown_refl(c0, call_kinds());
        }
        let (parameters, posts, pres) = match self.env.get_symbol(fn_id) {
            Some(info) => match &info.kind {
                SymbolKind::Function { parameters, ensures: post, requires: pre, .. } | SymbolKind::Entrypoint { parameters, ensures: post, requires: pre, .. } => (
                    crate::ast::contract::clone_params(parameters),
                    crate::refinements::constraints::clone_preds(post),
                    crate::refinements::constraints::clone_preds(pre),
                ),
                _ => {
                    proof {
                        assert(callee_arity(self.table(), fn_id@) is None);
                    }
                    return Err(err("called symbol is not a function"));
                },
            },
            None => {
                proof {
                    assert(callee_arity(self.table(), fn_id@) is None);
                }
                return Err(err("called function is not in the symbol table"));
            },
        };
        let ghost arity = callee_arity(self.table(), fn_id@).unwrap();
        proof {
            assert(parameters@.map_values(|p: Param| p@).len() == parameters.len());
            assert(arity == parameters.len());
        }
        let mut subst_map: StrMap<RefinementExpr> = StrMap::new();
        let mut i: usize = 0;
        while i < parameters.len() && i < args.len()
            invariant
                i <= parameters.len(),
            decreases parameters.len() - i,
        {
            subst_map.insert(parameters[i].name.clone(), operand_to_refinement_expr(&args[i]));
            i = i + 1;
        }
        if let Some(dest_reg) = dest {
            let name = dest_reg.to_string();
            let ghost b0 = self.bindings();
            let dest_tmpl = match self.env.get_local(name.as_str()) {
                Some(t) => t,
                None => {
                    proof {
                        assert(dv == Some(dest_reg@));
                        assert(!call_readable(old(self).table(), old(self).bindings(), dv, fn_id@, av));
                    }
                    return Err(err("call result without a template"));
                },
            };
            let substituted = match dest_tmpl {
                Template::Concrete { base, binder, refinement, source_ref: sr } => Template::Concrete {
                    base,
                    binder,
                    refinement: refinement.substitute_exprs(&subst_map),
                    source_ref: sr,
                },
                other => other,
            };
            self.env.bind_local(dest_reg.to_string(), substituted.clone());
            proof {
                assert(self.bindings().dom() =~= b0.dom());
            }
            self.push_constraint(Constraint::WellFormed { context: context.clone(), template: substituted, location: source_ref }, Ghost(call_kinds()));
        }
        let mut k: usize = 0;
        while k < pres.len()
            invariant
                k <= pres.len(),
                self.bindings().dom() == old(self).bindings().dom(),
                self.next_liquid() == old(self).next_liquid(),
                self.current() == old(self).current(),
                grown_by(c0, self.cons(), call_kinds()),
                self.table() == old(self).table(),
                self.facts() == old(self).facts(),
                self.assumptions() == old(self).assumptions(),
            decreases pres.len() - k,
        {
            let substituted = pres[k].substitute_exprs(&subst_map);
            let ghost cb = self.cons();
            self.push_constraint(Constraint::Requires { context: context.clone(), condition: substituted, location: source_ref }, Ghost(call_kinds()));
            proof {
                lemma_grown_trans(c0, cb, self.cons(), call_kinds());
            }
            k = k + 1;
        }
        let mut e: usize = 0;
        while e < posts.len()
            invariant
                e <= posts.len(),
                self.bindings().dom() == old(self).bindings().dom(),
                self.next_liquid() == old(self).next_liquid(),
                self.current() == old(self).current(),
                grown_by(c0, self.cons(), call_kinds()),
                self.table() == old(self).table(),
                self.facts() == old(self).facts(),
                self.assumptions() == old(self).assumptions(),
            decreases posts.len() - e,
        {
            let substituted = posts[e].substitute_exprs(&subst_map);
            let ghost cb = self.cons();
            self.push_constraint(Constraint::Ensures { context: context.clone(), condition: substituted, location: source_ref }, Ghost(call_kinds()));
            proof {
                lemma_grown_trans(c0, cb, self.cons(), call_kinds());
            }
            e = e + 1;
        }
        let mut a: usize = 0;
        while a < parameters.len() && a < args.len()
            invariant
                a <= parameters.len(),
                arity == parameters.len(),
                callee_arity(old(self).table(), fn_id@) == Some(arity),
                dv == (match *dest {
                    Some(d) => Some(d@),
                    None => None::<RegisterV>,
                }),
                (dv matches Some(d) ==> old(self).bindings().dom().contains(d.name())),
                av.len() == args.len(),
                av == args@.map_values(|o: Operand| o@),
                self.bindings().dom() == old(self).bindings().dom(),
                self.next_liquid() == old(self).next_liquid(),
                self.current() == old(self).current(),
                forall|q: int| 0 <= q < a ==> operand_readable(#[trigger] av[q], old(self).bindings(), old(self).table()),
                c0 == old(self).cons(),
                grown_by(c0, self.cons(), call_kinds()),
                self.table() == old(self).table(),
                self.facts() == old(self).facts(),
                self.assumptions() == old(self).assumptions(),
            decreases parameters.len() - a,
        {
            let ghost cb = self.cons();
            proof {
                assert(av[a as int] == args@[a as int]@);
            }
            let sub = match self.operand_to_template_with_contract_check(&args[a], context, source_ref) {
                Ok(t) => t,
                Err(e) => {
                    proof {
                        assert(!operand_readable(av[a as int], old(self).bindings(), old(self).table()));
                        assert(!call_readable(old(self).table(), old(self).bindings(), dv, fn_id@, av));
                        lemma_grown_weaken(cb, self.cons(), subtypes(), call_kinds());
                        lemma_grown_trans(c0, cb, self.cons(), call_kinds());
                    }
                    return Err(e);
                },
            };
            proof {
                lemma_grown_weaken(cb, self.cons(), subtypes(), call_kinds());
                lemma_grown_trans(c0, cb, self.cons(), call_kinds());
            }
            let param_ty = &parameters[a].ty;
            let sup = Template::Concrete {
                base: param_ty.base.clone(),
                binder: param_ty.binder.clone(),
                refinement: param_ty.constraint.clone(),
                source_ref: param_ty.source_ref,
            };
            let ghost cc = self.cons();
            self.push_constraint(Constraint::Subtype { context: context.clone(), sub, sup, location: source_ref }, Ghost(call_kinds()));
            proof {
                lemma_grown_trans(c0, cc, self.cons(), call_kinds());
            }
            a = a + 1;
        }
        proof {
            assert forall|q: int| 0 <= q < av.len() && q < arity implies operand_readable(#[trigger] av[q], old(self).bindings(), old(self).table()) by {
            }
            assert(call_readable(old(self).table(), old(self).bindings(), dv, fn_id@, av));
        }
        Ok(())
    }
}

// ---------------------------------------------------------------------------
// What a walk over the blocks has checked
// ---------------------------------------------------------------------------

/// Whether some constraint from position `lo` on has property `p`.
pub open spec fn appears(s: Seq<ConstraintV>, lo: int, p: spec_fn(ConstraintV) -> bool) -> bool {
    exists|i: int| 0 <= i && lo <= i < s.len() && p(#[trigger] s[i])
}

/// A constraint that was there stays there as constraints are added.
pub proof fn lemma_appears_extend(s1: Seq<ConstraintV>, s2: Seq<ConstraintV>, lo1: int, lo2: int, p: spec_fn(ConstraintV) -> bool)
    requires
        appears(s1, lo1, p),
        s1.is_prefix_of(s2),
        lo2 <= lo1,
    ensures
        appears(s2, lo2, p),
{
    let i = choose|i: int| 0 <= i && lo1 <= i < s1.len() && p(#[trigger] s1[i]);
    assert(s2[i] == s1[i]);
}

pub open spec fn binop_is(op: BinaryOperator) -> spec_fn(ConstraintV) -> bool {
    |c: ConstraintV| c is BinaryOp && c->BinaryOp_1 == op
}

pub open spec fn fold_is(var: SymbolIdV) -> spec_fn(ConstraintV) -> bool {
    |c: ConstraintV| c is Fold && c->Fold_1 == var
}

pub open spec fn ensures_at(loc: SourceRef) -> spec_fn(ConstraintV) -> bool {
    |c: ConstraintV| c is Ensures && c->Ensures_2 == loc
}

pub open spec fn invariant_entry_at(loc: SourceRef) -> spec_fn(ConstraintV) -> bool {
    |c: ConstraintV| c is LoopInvariantEntry && c->LoopInvariantEntry_2 == loc
}

pub open spec fn invariant_kept_at(loc: SourceRef) -> spec_fn(ConstraintV) -> bool {
    |c: ConstraintV| c is LoopInvariantPreservation && c->LoopInvariantPreservation_2 == loc
}

/// An instruction is checked when its operation, or its fold, has a
/// constraint of its own.
pub open spec fn instr_checked(i: InstrV, s: Seq<ConstraintV>, lo: int) -> bool {
    match i {
        InstrV::BinaryOp(_, op, _, _, _) => appears(s, lo, binop_is(op)),
        InstrV::Fold(var, _) => appears(s, lo, fold_is(var)),
        _ => true,
    }
}

/// Whether a branch closes a loop: it carries invariants or variants.
pub open spec fn is_loop(meta: crate::ir::BranchMeta) -> bool {
    meta.loop_invariants.len() > 0 || meta.loop_variants.len() > 0
}

/// An exit is checked when each postcondition has a constraint there; a
/// loop when each invariant is checked on entry and after the body.
pub open spec fn exit_checked(cfg: &SsaCfg, t: Terminator, s: Seq<ConstraintV>, lo: int) -> bool {
    match t {
        Terminator::Return { .. } => forall|j: int|
            0 <= j < cfg.ensures.len() ==> appears(s, lo, ensures_at(crate::ast::predicate::pred_source_ref(#[trigger] cfg.ensures@[j]@))),
        Terminator::Branch { meta, .. } => is_loop(meta) ==> forall|j: int|
            0 <= j < meta.loop_invariants.len() ==> appears(
                s,
                lo,
                invariant_entry_at(crate::ast::predicate::pred_source_ref(#[trigger] meta.loop_invariants@[j]@)),
            ) && appears(s, lo, invariant_kept_at(crate::ast::predicate::pred_source_ref(meta.loop_invariants@[j]@))),
        _ => true,
    }
}

pub open spec fn block_checked(cfg: &SsaCfg, b: int, s: Seq<ConstraintV>, lo: int) -> bool {
    &&& forall|k: int| 0 <= k < cfg.blocks@[b].instructions.len() ==> instr_checked(#[trigger] cfg.blocks@[b].instructions@[k]@, s, lo)
    &&& exit_checked(cfg, cfg.blocks@[b].terminator, s, lo)
}

/// Whether the blocks a terminator leads to are marked.
pub open spec fn successors_marked(t: Terminator, v: Seq<bool>) -> bool {
    match t {
        Terminator::Branch { then_block, else_block, .. } => v[then_block as int] && v[else_block as int],
        Terminator::Jump { target } => v[target as int],
        _ => true,
    }
}

/// Every block marked between `va` and `vb` is checked by the constraints
/// from `lo` on, and the blocks it leads to are marked in `vb`.
pub open spec fn region_checked(cfg: &SsaCfg, va: Seq<bool>, vb: Seq<bool>, s: Seq<ConstraintV>, lo: int) -> bool {
    forall|b: int| 0 <= b < vb.len() && #[trigger] vb[b] && !va[b] ==> block_checked(cfg, b, s, lo) && successors_marked(cfg.blocks@[b].terminator, vb)
}

pub proof fn lemma_instrs_checked_extend(cfg: &SsaCfg, b: int, s1: Seq<ConstraintV>, s2: Seq<ConstraintV>, lo1: int, lo2: int)
    requires
        0 <= b < cfg.blocks.len(),
        forall|k: int| 0 <= k < cfg.blocks@[b].instructions.len() ==> instr_checked(#[trigger] cfg.blocks@[b].instructions@[k]@, s1, lo1),
        s1.is_prefix_of(s2),
        lo2 <= lo1,
    ensures
        forall|k: int| 0 <= k < cfg.blocks@[b].instructions.len() ==> instr_checked(#[trigger] cfg.blocks@[b].instructions@[k]@, s2, lo2),
{
    let blk = cfg.blocks@[b];
    assert forall|k: int| 0 <= k < blk.instructions.len() implies instr_checked(#[trigger] blk.instructions@[k]@, s2, lo2) by {
        assert(instr_checked(cfg.blocks@[b].instructions@[k]@, s1, lo1));
        match blk.instructions@[k]@ {
            InstrV::BinaryOp(_, op, _, _, _) => lemma_appears_extend(s1, s2, lo1, lo2, binop_is(op)),
            InstrV::Fold(var, _) => lemma_appears_extend(s1, s2, lo1, lo2, fold_is(var)),
            _ => {},
        }
    }
}

pub proof fn lemma_exit_checked_extend(cfg: &SsaCfg, t: Terminator, s1: Seq<ConstraintV>, s2: Seq<ConstraintV>, lo1: int, lo2: int)
    requires
        exit_checked(cfg, t, s1, lo1),
        s1.is_prefix_of(s2),
        lo2 <= lo1,
    ensures
        exit_checked(cfg, t, s2, lo2),
{
    match t {
        Terminator::Return { .. } => {
            assert forall|j: int| 0 <= j < cfg.ensures.len() implies appears(
                s2,
                lo2,
                ensures_at(crate::ast::predicate::pred_source_ref(#[trigger] cfg.ensures@[j]@)),
            ) by {
                lemma_appears_extend(s1, s2, lo1, lo2, ensures_at(crate::ast::predicate::pred_source_ref(cfg.ensures@[j]@)));
            }
        },
        Terminator::Branch { meta, .. } => {
            if is_loop(meta) {
                assert forall|j: int| 0 <= j < meta.loop_invariants.len() implies appears(
                    s2,
                    lo2,
                    invariant_entry_at(crate::ast::predicate::pred_source_ref(#[trigger] meta.loop_invariants@[j]@)),
                ) && appears(s2, lo2, invariant_kept_at(crate::ast::predicate::pred_source_ref(meta.loop_invariants@[j]@))) by {
                    let loc = crate::ast::predicate::pred_source_ref(meta.loop_invariants@[j]@);
                    lemma_appears_extend(s1, s2, lo1, lo2, invariant_entry_at(loc));
                    lemma_appears_extend(s1, s2, lo1, lo2, invariant_kept_at(loc));
                }
            }
        },
        _ => {},
    }
}

pub proof fn lemma_block_checked_extend(cfg: &SsaCfg, b: int, s1: Seq<ConstraintV>, s2: Seq<ConstraintV>, lo1: int, lo2: int)
    requires
        0 <= b < cfg.blocks.len(),
        block_checked(cfg, b, s1, lo1),
        s1.is_prefix_of(s2),
        lo2 <= lo1,
    ensures
        block_checked(cfg, b, s2, lo2),
{
    lemma_instrs_checked_extend(cfg, b, s1, s2, lo1, lo2);
    lemma_exit_checked_extend(cfg, cfg.blocks@[b].terminator, s1, s2, lo1, lo2);
}

pub proof fn lemma_grows_trans(a: Seq<bool>, b: Seq<bool>, c: Seq<bool>)
    requires
        grows(a, b),
        grows(b, c),
    ensures
        grows(a, c),
{
    assert forall|i: int| 0 <= i < a.len() && #[trigger] a[i] implies c[i] by {
        assert(b[i]);
    }
}

/// Checks made from a later position hold from an earlier one.
pub proof fn lemma_region_lower(cfg: &SsaCfg, va: Seq<bool>, vb: Seq<bool>, s: Seq<ConstraintV>, lo1: int, lo2: int)
    requires
        vb.len() == cfg.blocks.len(),
        region_checked(cfg, va, vb, s, lo1),
        lo2 <= lo1,
    ensures
        region_checked(cfg, va, vb, s, lo2),
{
    assert forall|b: int| 0 <= b < vb.len() && #[trigger] vb[b] && !va[b] implies block_checked(cfg, b, s, lo2)
        && successors_marked(cfg.blocks@[b].terminator, vb) by {
        lemma_prefix_refl(s);
        lemma_block_checked_extend(cfg, b, s, s, lo1, lo2);
    }
}

/// The block marked first, together with what the walk from it marked.
pub proof fn lemma_region_add_block(cfg: &SsaCfg, v0: Seq<bool>, v1: Seq<bool>, v3: Seq<bool>, s3: Seq<ConstraintV>, lo: int, b: int)
    requires
        v0.len() == cfg.blocks.len(),
        0 <= b < v0.len(),
        v1 == v0.update(b, true),
        grows(v1, v3),
        region_checked(cfg, v1, v3, s3, lo),
        block_checked(cfg, b, s3, lo),
        successors_marked(cfg.blocks@[b].terminator, v3),
    ensures
        region_checked(cfg, v0, v3, s3, lo),
        grows(v0, v3),
{
    assert forall|i: int| 0 <= i < v0.len() && #[trigger] v0[i] implies v3[i] by {
        assert(v1[i]);
    }
    assert forall|x: int| 0 <= x < v3.len() && #[trigger] v3[x] && !v0[x] implies block_checked(cfg, x, s3, lo)
        && successors_marked(cfg.blocks@[x].terminator, v3) by {
        if x != b {
            assert(!v1[x]);
        }
    }
}

/// Two walks one after the other check everything each of them marked.
pub proof fn lemma_region_compose(
    cfg: &SsaCfg,
    va: Seq<bool>,
    vb: Seq<bool>,
    vc: Seq<bool>,
    sb: Seq<ConstraintV>,
    sc: Seq<ConstraintV>,
    lob: int,
    loc: int,
    lo: int,
)
    requires
        vc.len() == cfg.blocks.len(),
        region_checked(cfg, va, vb, sb, lob),
        region_checked(cfg, vb, vc, sc, loc),
        grows(va, vb),
        grows(vb, vc),
        sb.is_prefix_of(sc),
        lo <= lob,
        lo <= loc,
        cfg.well_formed(),
    ensures
        region_checked(cfg, va, vc, sc, lo),
        grows(va, vc),
{
    assert forall|b: int| 0 <= b < vc.len() && #[trigger] vc[b] && !va[b] implies block_checked(cfg, b, sc, lo)
        && successors_marked(cfg.blocks@[b].terminator, vc) by {
        if vb[b] {
            lemma_block_checked_extend(cfg, b, sb, sc, lob, lo);
            assert(cfg.blocks@[b].edges_within(cfg.blocks.len() as nat));
            match cfg.blocks@[b].terminator {
                Terminator::Branch { then_block, else_block, .. } => {
                    assert(vb[then_block as int] && vb[else_block as int]);
                },
                Terminator::Jump { target } => {
                    assert(vb[target as int]);
                },
                _ => {},
            }
        } else {
            lemma_block_checked_extend(cfg, b, sc, sc, loc, lo);
        }
    }
    assert forall|i: int| 0 <= i < va.len() && #[trigger] va[i] implies vc[i] by {
        assert(vb[i]);
    }
}

pub proof fn lemma_prefix_trans(a: Seq<ConstraintV>, b: Seq<ConstraintV>, c: Seq<ConstraintV>)
    requires
        a.is_prefix_of(b),
        b.is_prefix_of(c),
    ensures
        a.is_prefix_of(c),
{
    assert(a =~= c.subrange(0, a.len() as int)) by {
        assert forall|i: int| 0 <= i < a.len() implies a[i] == c[i] by {
            assert(a[i] == b[i]);
            assert(b[i] == c[i]);
        }
    }
}

pub proof fn lemma_prefix_refl(a: Seq<ConstraintV>)
    ensures
        a.is_prefix_of(a),
{
    assert(a =~= a.subrange(0, a.len() as int));
}

impl<'a> LiquidInferenceEngine<'a> {
    /// The constraints of a block's instructions; each named register
    /// becomes the current holder of its variable before its instruction.
    fn gen_block_instructions(&mut self, cfg: &SsaCfg, b: usize) -> (r: Result<(), MerakError>)
        requires
            cfg_ok(cfg),
            b < cfg.blocks.len(),
        ensures
            final(self).current() == old(self).current(),
            old(self).cons().is_prefix_of(final(self).cons()),
            final(self).table() == old(self).table(),
            r is Ok ==> forall|k: int| 0 <= k < cfg.blocks@[b as int].instructions.len()
                ==> instr_checked(#[trigger] cfg.blocks@[b as int].instructions@[k]@, final(self).cons(), old(self).cons().len() as int),
            final(self).bindings().dom() == old(self).bindings().dom(),
            old(self).next_liquid() <= final(self).next_liquid() <= old(self).next_liquid() + cfg.blocks@[b as int].instructions.len(),
            (forall|k: int| 0 <= k < cfg.blocks@[b as int].instructions.len() ==> instr_generable(
                #[trigger] cfg.blocks@[b as int].instructions@[k]@,
                old(self).bindings(),
                old(self).table(),
                old(self).next_liquid() + k as nat,
            )) ==> r is Ok,
            r is Err ==> exists|k: int, n: nat| 0 <= k < cfg.blocks@[b as int].instructions.len() && old(self).next_liquid() <= n
                <= old(self).next_liquid() + k && !#[trigger] instr_generable(
                cfg.blocks@[b as int].instructions@[k]@,
                old(self).bindings(),
                old(self).table(),
                n,
            ),
    {
        let ghost s0 = self.cons();
        proof {
            lemma_prefix_refl(s0);
        }
        let block = &cfg.blocks[b];
        let mut k: usize = 0;
        while k < block.instructions.len()
            invariant
                k <= block.instructions.len(),
                cfg_ok(cfg),
                b < cfg.blocks.len(),
                *block == cfg.blocks@[b as int],
                s0 == old(self).cons(),
                s0.is_prefix_of(self.cons()),
                self.table() == old(self).table(),
                forall|kk: int| 0 <= kk < k ==> instr_checked(#[trigger] block.instructions@[kk]@, self.cons(), s0.len() as int),
                self.bindings().dom() == old(self).bindings().dom(),
                old(self).next_liquid() <= self.next_liquid() <= old(self).next_liquid() + k,
                self.current() == old(self).current(),
            decreases block.instructions.len() - k,
        {
            let instr = &block.instructions[k];
            let ghost cur_b = self.bindings();
            let ghost cur_n = self.next_liquid();
            proof {
                assert(instr_predicates_ok(cfg.blocks@[b as int].instructions@[k as int]@));
            }
            if let Some(dest) = instr.dest_register() {
                if let SymbolId::Named(name, _) = &dest.symbol {
                    self.env.track_source_ssa(name.clone(), dest.to_string());
                }
            }
            let ghost before = self.cons();
            proof {
                assert(instr@ == cfg.blocks@[b as int].instructions@[k as int]@);
                assert(self.bindings().dom() == cur_b.dom());
                if instr_generable(instr@, old(self).bindings(), old(self).table(), old(self).next_liquid() + k as nat) {
                    lemma_generable_mono(instr@, old(self).bindings(), self.bindings(), self.table(), old(self).next_liquid() + k as nat, self.next_liquid());
                }
            }
            let ghost mid_b = self.bindings();
            let ghost mid_n = self.next_liquid();
            match self.generate_constraints_instruction(instr) {
                Ok(()) => {},
                Err(e) => {
                    proof {
                        lemma_prefix_trans(s0, before, self.cons());
                        if instr_generable(instr@, old(self).bindings(), old(self).table(), mid_n) {
                            lemma_generable_mono(instr@, old(self).bindings(), mid_b, self.table(), mid_n, mid_n);
                        }
                        assert(!instr_generable(cfg.blocks@[b as int].instructions@[k as int]@, old(self).bindings(), old(self).table(), mid_n));
                    }
                    return Err(e);
                },
            }
            proof {
                lemma_prefix_trans(s0, before, self.cons());
                assert forall|kk: int| 0 <= kk < k + 1 implies instr_checked(#[trigger] block.instructions@[kk]@, self.cons(), s0.len() as int) by {
                    if kk < k {
                        match block.instructions@[kk]@ {
                            InstrV::BinaryOp(_, op, _, _, _) => lemma_appears_extend(before, self.cons(), s0.len() as int, s0.len() as int, binop_is(op)),
                            InstrV::Fold(var, _) => lemma_appears_extend(before, self.cons(), s0.len() as int, s0.len() as int, fold_is(var)),
                            _ => {},
                        }
                    } else {
                        match instr@ {
                            InstrV::BinaryOp(_, op, _, _, _) => {
                                let i = choose|i: int| before.len() <= i < self.cons().len()
                                    && (#[trigger] self.cons()[i]) is BinaryOp && self.cons()[i]->BinaryOp_1 == op;
                                assert(binop_is(op)(self.cons()[i]));
                            },
                            InstrV::Fold(var, _) => {
                                let i = self.cons().len() - 1;
                                assert(fold_is(var)(self.cons()[i]));
                            },
                            _ => {},
                        }
                    }
                }
            }
            k = k + 1;
        }
        Ok(())
    }

    /// At a return: the returned value against the declared return type,
    /// then each postcondition with the current registers of its variables.
    fn gen_return(&mut self, cfg: &SsaCfg, value: &Option<Operand>) -> (r: Result<(), MerakError>)
        ensures
            final(self).current() == old(self).current(),
            final(self).bindings() == old(self).bindings(),
            old(self).next_liquid() <= final(self).next_liquid() <= old(self).next_liquid() + 1,
            r is Ok <==> match *value {
                Some(o) => old(self).current() is Some && declared_function(old(self).table(), old(self).current().unwrap())
                    && old(self).next_liquid() < usize::MAX && operand_readable(o@, old(self).bindings(), old(self).table()),
                None => true,
            },
            old(self).cons().is_prefix_of(final(self).cons()),
            final(self).table() == old(self).table(),
            r is Ok ==> forall|j: int| 0 <= j < cfg.ensures.len() ==> appears(
                final(self).cons(),
                old(self).cons().len() as int,
                ensures_at(crate::ast::predicate::pred_source_ref(#[trigger] cfg.ensures@[j]@)),
            ),
    {
        let ghost s0 = self.cons();
        proof {
            lemma_prefix_refl(s0);
        }
        if let Some(operand) = value {
            match self.generate_return_constraint(operand) {
                Ok(()) => {},
                Err(e) => return Err(e),
            }
        }
        let mut j: usize = 0;
        while j < cfg.ensures.len()
            invariant
                j <= cfg.ensures.len(),
                s0 == old(self).cons(),
                s0.is_prefix_of(self.cons()),
                self.table() == old(self).table(),
                self.current() == old(self).current(),
                self.bindings() == old(self).bindings(),
                old(self).next_liquid() <= self.next_liquid() <= old(self).next_liquid() + 1,
                forall|jj: int| 0 <= jj < j ==> appears(
                    self.cons(),
                    s0.len() as int,
                    ensures_at(crate::ast::predicate::pred_source_ref(#[trigger] cfg.ensures@[jj]@)),
                ),
            decreases cfg.ensures.len() - j,
        {
            let postcond = &cfg.ensures[j];
            let ctx = self.env.to_type_context();
            let ssa_map = self.env.source_to_ssa_mapping().copy();
            let resolved = postcond.substitute_vars(&ssa_map);
            let ghost before = self.cons();
            let loc = *postcond.source_ref();
            self.push_constraint(Constraint::Ensures { context: ctx, condition: resolved, location: loc }, Ghost(ensures_at(loc)));
            proof {
                lemma_prefix_trans(s0, before, self.cons());
                assert(ensures_at(loc)(self.cons()[before.len() as int]));
                assert forall|jj: int| 0 <= jj < j + 1 implies appears(
                    self.cons(),
                    s0.len() as int,
                    ensures_at(crate::ast::predicate::pred_source_ref(#[trigger] cfg.ensures@[jj]@)),
                ) by {
                    if jj < j {
                        lemma_appears_extend(before, self.cons(), s0.len() as int, s0.len() as int,
                            ensures_at(crate::ast::predicate::pred_source_ref(cfg.ensures@[jj]@)));
                    }
                }
            }
            j = j + 1;
        }
        Ok(())
    }

    /// On entering a loop: each invariant and each variant's
    /// non-negativity, over the registers that held the variables before
    /// the loop header.
    fn gen_loop_entry(&mut self, meta: &crate::ir::BranchMeta, pre: &StrMap<String>, ctx: &TypeContext)
        ensures
            final(self).current() == old(self).current(),
            final(self).bindings() == old(self).bindings(),
            final(self).next_liquid() == old(self).next_liquid(),
            old(self).cons().is_prefix_of(final(self).cons()),
            final(self).table() == old(self).table(),
            final(self).assumptions() == old(self).assumptions(),
            forall|j: int| 0 <= j < meta.loop_invariants.len() ==> appears(
                final(self).cons(),
                old(self).cons().len() as int,
                invariant_entry_at(crate::ast::predicate::pred_source_ref(#[trigger] meta.loop_invariants@[j]@)),
            ),
    {
        let ghost s0 = self.cons();
        proof {
            lemma_prefix_refl(s0);
        }
        let mut j: usize = 0;
        while j < meta.loop_invariants.len()
            invariant
                j <= meta.loop_invariants.len(),
                s0 == old(self).cons(),
                s0.is_prefix_of(self.cons()),
                self.table() == old(self).table(),
                self.assumptions() == old(self).assumptions(),
                self.current() == old(self).current(),
                self.bindings() == old(self).bindings(),
                self.next_liquid() == old(self).next_liquid(),
                forall|jj: int| 0 <= jj < j ==> appears(
                    self.cons(),
                    s0.len() as int,
                    invariant_entry_at(crate::ast::predicate::pred_source_ref(#[trigger] meta.loop_invariants@[jj]@)),
                ),
            decreases meta.loop_invariants.len() - j,
        {
            let inv = &meta.loop_invariants[j];
            let loc = *inv.source_ref();
            let ghost before = self.cons();
            self.push_constraint(
                Constraint::LoopInvariantEntry { context: ctx.clone(), loop_invariant: inv.substitute_vars(pre), location: loc },
                Ghost(invariant_entry_at(loc)),
            );
            proof {
                lemma_prefix_trans(s0, before, self.cons());
                assert(invariant_entry_at(loc)(self.cons()[before.len() as int]));
                assert forall|jj: int| 0 <= jj < j + 1 implies appears(
                    self.cons(),
                    s0.len() as int,
                    invariant_entry_at(crate::ast::predicate::pred_source_ref(#[trigger] meta.loop_invariants@[jj]@)),
                ) by {
                    if jj < j {
                        lemma_appears_extend(before, self.cons(), s0.len() as int, s0.len() as int,
                            invariant_entry_at(crate::ast::predicate::pred_source_ref(meta.loop_invariants@[jj]@)));
                    }
                }
            }
            j = j + 1;
        }
        let ghost s1 = self.cons();
        let mut v: usize = 0;
        while v < meta.loop_variants.len()
            invariant
                v <= meta.loop_variants.len(),
                s0 == old(self).cons(),
                s1.is_prefix_of(self.cons()),
                s0.is_prefix_of(s1),
                self.table() == old(self).table(),
                self.current() == old(self).current(),
                self.bindings() == old(self).bindings(),
                self.next_liquid() == old(self).next_liquid(),
                self.assumptions() == old(self).assumptions(),
            decreases meta.loop_variants.len() - v,
        {
            let var = &meta.loop_variants[v];
            let ghost before = self.cons();
            self.push_constraint(
                Constraint::LoopVariantNonNegative { context: ctx.clone(), variant: var.substitute_vars(pre), location: *var.source_ref() },
                Ghost(|c: ConstraintV| c is LoopVariantNonNegative),
            );
            proof {
                lemma_prefix_trans(s1, before, self.cons());
            }
            v = v + 1;
        }
        proof {
            lemma_prefix_trans(s0, s1, self.cons());
            assert forall|jj: int| 0 <= jj < meta.loop_invariants.len() implies appears(
                self.cons(),
                s0.len() as int,
                invariant_entry_at(crate::ast::predicate::pred_source_ref(#[trigger] meta.loop_invariants@[jj]@)),
            ) by {
                lemma_appears_extend(s1, self.cons(), s0.len() as int, s0.len() as int,
                    invariant_entry_at(crate::ast::predicate::pred_source_ref(meta.loop_invariants@[jj]@)));
            }
        }
    }

    /// After a loop body: each invariant over the registers at the end of
    /// the body, and each variant smaller than at the loop header.
    fn gen_loop_preservation(&mut self, meta: &crate::ir::BranchMeta, header: &StrMap<String>, after: &StrMap<String>, ctx: &TypeContext)
        ensures
            final(self).current() == old(self).current(),
            final(self).bindings() == old(self).bindings(),
            final(self).next_liquid() == old(self).next_liquid(),
            old(self).cons().is_prefix_of(final(self).cons()),
            final(self).table() == old(self).table(),
            final(self).assumptions() == old(self).assumptions(),
            forall|j: int| 0 <= j < meta.loop_invariants.len() ==> appears(
                final(self).cons(),
                old(self).cons().len() as int,
                invariant_kept_at(crate::ast::predicate::pred_source_ref(#[trigger] meta.loop_invariants@[j]@)),
            ),
    {
        let ghost s0 = self.cons();
        proof {
            lemma_prefix_refl(s0);
        }
        let mut j: usize = 0;
        while j < meta.loop_invariants.len()
            invariant
                j <= meta.loop_invariants.len(),
                s0 == old(self).cons(),
                s0.is_prefix_of(self.cons()),
                self.table() == old(self).table(),
                self.assumptions() == old(self).assumptions(),
                self.current() == old(self).current(),
                self.bindings() == old(self).bindings(),
                self.next_liquid() == old(self).next_liquid(),
                forall|jj: int| 0 <= jj < j ==> appears(
                    self.cons(),
                    s0.len() as int,
                    invariant_kept_at(crate::ast::predicate::pred_source_ref(#[trigger] meta.loop_invariants@[jj]@)),
                ),
            decreases meta.loop_invariants.len() - j,
        {
            let inv = &meta.loop_invariants[j];
            let loc = *inv.source_ref();
            let ghost before = self.cons();
            self.push_constraint(
                Constraint::LoopInvariantPreservation { context: ctx.clone(), loop_invariant: inv.substitute_vars(after), location: loc },
                Ghost(invariant_kept_at(loc)),
            );
            proof {
                lemma_prefix_trans(s0, before, self.cons());
                assert(invariant_kept_at(loc)(self.cons()[before.len() as int]));
                assert forall|jj: int| 0 <= jj < j + 1 implies appears(
                    self.cons(),
                    s0.len() as int,
                    invariant_kept_at(crate::ast::predicate::pred_source_ref(#[trigger] meta.loop_invariants@[jj]@)),
                ) by {
                    if jj < j {
                        lemma_appears_extend(before, self.cons(), s0.len() as int, s0.len() as int,
                            invariant_kept_at(crate::ast::predicate::pred_source_ref(meta.loop_invariants@[jj]@)));
                    }
                }
            }
            j = j + 1;
        }
        let ghost s1 = self.cons();
        let mut v: usize = 0;
        while v < meta.loop_variants.len()
            invariant
                v <= meta.loop_variants.len(),
                s0 == old(self).cons(),
                s1.is_prefix_of(self.cons()),
                s0.is_prefix_of(s1),
                self.table() == old(self).table(),
                self.current() == old(self).current(),
                self.bindings() == old(self).bindings(),
                self.next_liquid() == old(self).next_liquid(),
                self.assumptions() == old(self).assumptions(),
            decreases meta.loop_variants.len() - v,
        {
            let var = &meta.loop_variants[v];
            let ghost before = self.cons();
            self.push_constraint(
                Constraint::LoopVariantDecreases {
                    context: ctx.clone(),
                    variant_before: var.substitute_vars(header),
                    variant_after: var.substitute_vars(after),
                    location: *var.source_ref(),
                },
                Ghost(|c: ConstraintV| c is LoopVariantDecreases),
            );
            proof {
                lemma_prefix_trans(s1, before, self.cons());
            }
            v = v + 1;
        }
        proof {
            lemma_prefix_trans(s0, s1, self.cons());
            assert forall|jj: int| 0 <= jj < meta.loop_invariants.len() implies appears(
                self.cons(),
                s0.len() as int,
                invariant_kept_at(crate::ast::predicate::pred_source_ref(#[trigger] meta.loop_invariants@[jj]@)),
            ) by {
                lemma_appears_extend(s1, self.cons(), s0.len() as int, s0.len() as int,
                    invariant_kept_at(crate::ast::predicate::pred_source_ref(meta.loop_invariants@[jj]@)));
            }
        }
    }
}

impl<'a> LiquidInferenceEngine<'a> {
    /// Walks the blocks from `block_id`, each once: its instructions, then
    /// its exit. A branch assumes its condition on the then side and its
    /// negation on the else side; a loop checks its invariants on entry
    /// and after the body; a return checks the result and postconditions.
    fn generate_constraints_from_block(&mut self, block_id: usize, cfg: &SsaCfg, visited: &mut Vec<bool>) -> (r: Result<(), MerakError>)
        requires
            cfg_ok(cfg),
            block_id < cfg.blocks.len(),
            old(visited).len() == cfg.blocks.len(),
        ensures
            final(self).bindings().dom() == old(self).bindings().dom(),
            final(self).current() == old(self).current(),
            final(self).next_liquid() + walk_budget(cfg, final(visited)@) <= old(self).next_liquid() + walk_budget(cfg, old(visited)@),
            walk_sound(cfg, old(self).bindings(), old(self).table(), old(self).current(), old(self).next_liquid() + walk_budget(cfg, old(visited)@)) ==> r is Ok,
            old(self).cons().is_prefix_of(final(self).cons()),
            final(self).table() == old(self).table(),
            final(visited).len() == old(visited).len(),
            grows(old(visited)@, final(visited)@),
            r is Ok ==> final(visited)@[block_id as int],
            r is Ok ==> region_checked(cfg, old(visited)@, final(visited)@, final(self).cons(), old(self).cons().len() as int),
        decreases unvisited(old(visited)@), 1nat,
    {
        let ghost v0 = visited@;
        let ghost s0 = self.cons();
        proof {
            lemma_prefix_refl(s0);
        }
        if visited[block_id] {
            return Ok(());
        }
        let pre_phi = self.env.source_to_ssa_mapping().copy();
        visited.set(block_id, true);
        let ghost v1 = visited@;
        let ghost n0 = self.next_liquid();
        let ghost budget0 = self.next_liquid() + walk_budget(cfg, v0);
        let ghost sound = walk_sound(cfg, self.bindings(), self.table(), self.current(), budget0);
        proof {
            assert(v1 == v0.update(block_id as int, true));
            lemma_unvisited_weight_mark(cfg, v0, block_id as int, cfg.blocks.len() as nat);
            assert(walk_budget(cfg, v1) + cfg.blocks@[block_id as int].instructions.len() + 1 == walk_budget(cfg, v0));
            if sound {
                assert forall|k: int| 0 <= k < cfg.blocks@[block_id as int].instructions.len() implies instr_generable(
                    #[trigger] cfg.blocks@[block_id as int].instructions@[k]@,
                    old(self).bindings(),
                    old(self).table(),
                    n0 + k as nat,
                ) by {
                    lemma_generable_mono(cfg.blocks@[block_id as int].instructions@[k]@, old(self).bindings(), old(self).bindings(), old(self).table(), budget0, n0 + k as nat);
                }
            }
            lemma_unvisited_mark(v0, block_id as int);
            assert(grows(v0, v1));
            assert(cfg.blocks@[block_id as int].edges_within(cfg.blocks.len() as nat));
        }
        match self.gen_block_instructions(cfg, block_id) {
            Ok(()) => {},
            Err(e) => return Err(e),
        }
        let ghost s1 = self.cons();
        let ghost term = cfg.blocks@[block_id as int].terminator;
        proof {
            if sound {
                lemma_walk_sound_mono(cfg, old(self).bindings(), self.bindings(), self.table(), self.current(), budget0, self.next_liquid() + walk_budget(cfg, v1));
                assert(branch_readable(term, old(self).bindings(), old(self).table(), old(self).current(), budget0));
            }
        }
        match &cfg.blocks[block_id].terminator {
            Terminator::Branch { meta, .. } => {
                if meta.loop_invariants.len() == 0 && meta.loop_variants.len() == 0 {
                    match self.gen_if_branch(cfg, block_id, visited) {
                        Ok(()) => {},
                        Err(e) => {
                            proof {
                                lemma_prefix_trans(s0, s1, self.cons());
                                lemma_grows_trans(v0, v1, visited@);
                            }
                            return Err(e);
                        },
                    }
                } else {
                    match self.gen_loop_branch(cfg, block_id, &pre_phi, visited) {
                        Ok(()) => {},
                        Err(e) => {
                            proof {
                                lemma_prefix_trans(s0, s1, self.cons());
                                lemma_grows_trans(v0, v1, visited@);
                            }
                            return Err(e);
                        },
                    }
                }
            },
            Terminator::Jump { target } => {
                proof {
                    lemma_unvisited_monotone(v0, v1);
                }
                match self.generate_constraints_from_block(*target, cfg, visited) {
                    Ok(()) => {},
                    Err(e) => {
                        proof {
                            lemma_prefix_trans(s0, s1, self.cons());
                            lemma_grows_trans(v0, v1, visited@);
                        }
                        return Err(e);
                    },
                }
            },
            Terminator::Return { value } => {
                match self.gen_return(cfg, value) {
                    Ok(()) => {},
                    Err(e) => {
                        proof {
                            lemma_prefix_trans(s0, s1, self.cons());
                        }
                        return Err(e);
                    },
                }
                proof {
                    lemma_exit_checked_extend(cfg, term, self.cons(), self.cons(), s1.len() as int, s0.len() as int);
                }
            },
            Terminator::Unreachable => {},
        }
        proof {
            lemma_prefix_trans(s0, s1, self.cons());
            lemma_instrs_checked_extend(cfg, block_id as int, s1, self.cons(), s0.len() as int, s0.len() as int);
            lemma_region_lower(cfg, v1, visited@, self.cons(), s1.len() as int, s0.len() as int);
            lemma_region_add_block(cfg, v0, v1, visited@, self.cons(), s0.len() as int, block_id as int);
            assert(v1[block_id as int]);
        }
        Ok(())
    }

    /// A two-way branch: the then side under the condition, the else side
    /// under its negation, each remembered for the join's phis, with the
    /// storage registers of the then side forgotten on the else side.
    fn gen_if_branch(&mut self, cfg: &SsaCfg, block_id: usize, visited: &mut Vec<bool>) -> (r: Result<(), MerakError>)
        requires
            cfg_ok(cfg),
            block_id < cfg.blocks.len(),
            old(visited).len() == cfg.blocks.len(),
            old(visited)@[block_id as int],
            cfg.blocks@[block_id as int].terminator is Branch,
            !is_loop(cfg.blocks@[block_id as int].terminator->meta),
        ensures
            final(self).bindings().dom() == old(self).bindings().dom(),
            final(self).current() == old(self).current(),
            final(self).next_liquid() + walk_budget(cfg, final(visited)@) <= old(self).next_liquid() + walk_budget(cfg, old(visited)@),
            walk_sound(cfg, old(self).bindings(), old(self).table(), old(self).current(), old(self).next_liquid() + walk_budget(cfg, old(visited)@)) ==> r is Ok,
            old(self).cons().is_prefix_of(final(self).cons()),
            final(self).table() == old(self).table(),
            final(visited).len() == old(visited).len(),
            grows(old(visited)@, final(visited)@),
            r is Ok ==> successors_marked(cfg.blocks@[block_id as int].terminator, final(visited)@),
            r is Ok ==> exit_checked(cfg, cfg.blocks@[block_id as int].terminator, final(self).cons(), old(self).cons().len() as int),
            r is Ok ==> region_checked(cfg, old(visited)@, final(visited)@, final(self).cons(), old(self).cons().len() as int),
        decreases unvisited(old(visited)@), 2nat,
    {
        let ghost v0 = visited@;
        let ghost s0 = self.cons();
        proof {
            lemma_prefix_refl(s0);
            assert(cfg.blocks@[block_id as int].edges_within(cfg.blocks.len() as nat));
            assert(branch_predicate_ok(cfg.blocks@[block_id as int].terminator));
        }
        let (condition, then_block, else_block, meta) = match &cfg.blocks[block_id].terminator {
            Terminator::Branch { condition, then_block, else_block, meta } => (condition, *then_block, *else_block, meta),
            _ => return Ok(()),
        };
        let context = self.env.to_type_context();
        let cond_temp = match self.operand_to_template_with_contract_check(condition, &context, meta.source_ref) {
            Ok(t) => t,
            Err(e) => return Err(e),
        };
        let ghost s1 = self.cons();
        let cond_pred = match cond_temp.refinement() {
            Some(refinement) => refinement.clone(),
            None => operand_to_predicate(condition),
        };
        let saved_storage = clone_storage_regs(&self.storage_load_regs);
        self.env.add_assumption(cond_pred.clone());
        self.record_path_assumption(then_block, cond_pred.clone());
        proof {
            lemma_unvisited_monotone(v0, visited@);
        }
        let then_result = self.generate_constraints_from_block(then_block, cfg, visited);
        let _ = self.env.pop_assumption();
        let ghost v2 = visited@;
        let ghost s2 = self.cons();
        match then_result {
            Ok(()) => {},
            Err(e) => {
                proof {
                    lemma_prefix_trans(s0, s1, s2);
                }
                return Err(e);
            },
        }
        self.storage_load_regs = saved_storage;
        let negated = cond_pred.negate();
        self.env.add_assumption(negated.clone());
        self.record_path_assumption(else_block, negated);
        proof {
            lemma_unvisited_monotone(v0, v2);
        }
        let else_result = self.generate_constraints_from_block(else_block, cfg, visited);
        let _ = self.env.pop_assumption();
        proof {
            lemma_prefix_trans(s0, s1, s2);
            lemma_prefix_trans(s0, s2, self.cons());
            lemma_grows_trans(v0, v2, visited@);
        }
        match else_result {
            Ok(()) => {},
            Err(e) => return Err(e),
        }
        proof {
            lemma_region_compose(cfg, v0, v2, visited@, s2, self.cons(), s1.len() as int, s2.len() as int, s0.len() as int);
        }
        Ok(())
    }

    /// A loop header: its invariants on entry, then the body under the
    /// invariants and the condition, the invariants again after the body,
    /// then the exit under the negated condition.
    fn gen_loop_branch(&mut self, cfg: &SsaCfg, block_id: usize, pre_phi: &StrMap<String>, visited: &mut Vec<bool>) -> (r: Result<(), MerakError>)
        requires
            cfg_ok(cfg),
            block_id < cfg.blocks.len(),
            old(visited).len() == cfg.blocks.len(),
            old(visited)@[block_id as int],
            cfg.blocks@[block_id as int].terminator is Branch,
            is_loop(cfg.blocks@[block_id as int].terminator->meta),
        ensures
            final(self).bindings().dom() == old(self).bindings().dom(),
            final(self).current() == old(self).current(),
            final(self).next_liquid() + walk_budget(cfg, final(visited)@) <= old(self).next_liquid() + walk_budget(cfg, old(visited)@),
            walk_sound(cfg, old(self).bindings(), old(self).table(), old(self).current(), old(self).next_liquid() + walk_budget(cfg, old(visited)@)) ==> r is Ok,
            old(self).cons().is_prefix_of(final(self).cons()),
            final(self).table() == old(self).table(),
            final(visited).len() == old(visited).len(),
            grows(old(visited)@, final(visited)@),
            r is Ok ==> successors_marked(cfg.blocks@[block_id as int].terminator, final(visited)@),
            r is Ok ==> exit_checked(cfg, cfg.blocks@[block_id as int].terminator, final(self).cons(), old(self).cons().len() as int),
            r is Ok ==> region_checked(cfg, old(visited)@, final(visited)@, final(self).cons(), old(self).cons().len() as int),
        decreases unvisited(old(visited)@), 2nat,
    {
        let ghost v0 = visited@;
        let ghost s0 = self.cons();
        proof {
            lemma_prefix_refl(s0);
            assert(cfg.blocks@[block_id as int].edges_within(cfg.blocks.len() as nat));
            assert(branch_predicate_ok(cfg.blocks@[block_id as int].terminator));
        }
        let (condition, then_block, else_block, meta) = match &cfg.blocks[block_id].terminator {
            Terminator::Branch { condition, then_block, else_block, meta } => (condition, *then_block, *else_block, meta),
            _ => return Ok(()),
        };
        let post_phi = self.env.source_to_ssa_mapping().copy();
        let entry_ctx = self.env.to_type_context();
        self.gen_loop_entry(meta, pre_phi, &entry_ctx);
        let ghost s1 = self.cons();
        let mut j: usize = 0;
        while j < meta.loop_invariants.len()
            invariant
                j <= meta.loop_invariants.len(),
                self.cons() == s1,
                self.table() == old(self).table(),
                self.current() == old(self).current(),
                self.bindings() == old(self).bindings(),
                self.next_liquid() == old(self).next_liquid(),
            decreases meta.loop_invariants.len() - j,
        {
            self.env.add_assumption(meta.loop_invariants[j].substitute_vars(&post_phi));
            j = j + 1;
        }
        match self.operand_to_template_with_contract_check(condition, &entry_ctx, meta.source_ref) {
            Ok(_) => {},
            Err(e) => {
                proof {
                    lemma_prefix_trans(s0, s1, self.cons());
                }
                return Err(e);
            },
        }
        let ghost s2 = self.cons();
        let cond_pred = operand_to_predicate(condition);
        let saved_storage = clone_storage_regs(&self.storage_load_regs);
        self.env.add_assumption(cond_pred.clone());
        proof {
            lemma_unvisited_monotone(v0, visited@);
        }
        let then_result = self.generate_constraints_from_block(then_block, cfg, visited);
        let ghost v2 = visited@;
        let ghost s3 = self.cons();
        let preservation_map = self.env.source_to_ssa_mapping().copy();
        let preservation_ctx = self.env.to_type_context();
        self.gen_loop_preservation(meta, &post_phi, &preservation_map, &preservation_ctx);
        let ghost s4 = self.cons();
        let _ = self.env.pop_assumption();
        let ghost b4 = self.bindings();
        let ghost n4 = self.next_liquid();
        let mut k: usize = 0;
        while k < meta.loop_invariants.len()
            invariant
                k <= meta.loop_invariants.len(),
                self.cons() == s4,
                self.table() == old(self).table(),
                self.current() == old(self).current(),
                self.bindings() == b4,
                self.next_liquid() == n4,
            decreases meta.loop_invariants.len() - k,
        {
            let _ = self.env.pop_assumption();
            k = k + 1;
        }
        proof {
            lemma_prefix_trans(s0, s1, s2);
            lemma_prefix_trans(s0, s2, s3);
            lemma_prefix_trans(s0, s3, s4);
        }
        match then_result {
            Ok(()) => {},
            Err(e) => return Err(e),
        }
        self.storage_load_regs = saved_storage;
        self.env.add_assumption(cond_pred.negate());
        proof {
            lemma_unvisited_monotone(v0, v2);
        }
        let else_result = self.generate_constraints_from_block(else_block, cfg, visited);
        proof {
            lemma_prefix_trans(s0, s4, self.cons());
            lemma_grows_trans(v0, v2, visited@);
        }
        match else_result {
            Ok(()) => {},
            Err(e) => return Err(e),
        }
        proof {
            lemma_prefix_trans(s2, s3, s4);
            lemma_region_compose(cfg, v0, v2, visited@, s3, self.cons(), s2.len() as int, s4.len() as int, s0.len() as int);
            lemma_prefix_trans(s1, s3, s4);
            lemma_prefix_trans(s1, s4, self.cons());
            lemma_prefix_trans(s3, s4, self.cons());
            let t = cfg.blocks@[block_id as int].terminator;
            assert forall|jj: int| 0 <= jj < meta.loop_invariants.len() implies appears(
                self.cons(),
                s0.len() as int,
                invariant_entry_at(crate::ast::predicate::pred_source_ref(#[trigger] meta.loop_invariants@[jj]@)),
            ) && appears(self.cons(), s0.len() as int, invariant_kept_at(crate::ast::predicate::pred_source_ref(meta.loop_invariants@[jj]@))) by {
                let loc = crate::ast::predicate::pred_source_ref(meta.loop_invariants@[jj]@);
                lemma_appears_extend(s1, self.cons(), s0.len() as int, s0.len() as int, invariant_entry_at(loc));
                lemma_appears_extend(s4, self.cons(), s3.len() as int, s0.len() as int, invariant_kept_at(loc));
            }
        }
        Ok(())
    }
}

/// A subtyping from a phi source's template to the phi's own.
pub open spec fn phi_edge(bindings: Map<Seq<char>, TemplateV>, src: Seq<char>, dest: Seq<char>) -> spec_fn(ConstraintV) -> bool {
    |c: ConstraintV| c is Subtype && c->Subtype_1 == crate::refinements::templates::rebind(bindings[src], src)
        && c->Subtype_2 == crate::refinements::templates::rebind(bindings[dest], dest)
}

/// A phi is checked when each of its sources flows into it.
pub open spec fn phi_checked(i: InstrV, bindings: Map<Seq<char>, TemplateV>, s: Seq<ConstraintV>, lo: int) -> bool {
    match i {
        InstrV::Phi(d, srcs) => forall|j: int| 0 <= j < srcs.len() ==> appears(s, lo, phi_edge(bindings, (#[trigger] srcs[j]).1.name(), d.name())),
        _ => true,
    }
}

pub proof fn lemma_phi_checked_extend(i: InstrV, bindings: Map<Seq<char>, TemplateV>, s1: Seq<ConstraintV>, s2: Seq<ConstraintV>, lo: int)
    requires
        phi_checked(i, bindings, s1, lo),
        s1.is_prefix_of(s2),
    ensures
        phi_checked(i, bindings, s2, lo),
{
    lemma_phi_checked_lower(i, bindings, s1, s2, lo, lo);
}

pub proof fn lemma_phi_checked_lower(i: InstrV, bindings: Map<Seq<char>, TemplateV>, s1: Seq<ConstraintV>, s2: Seq<ConstraintV>, lo1: int, lo2: int)
    requires
        phi_checked(i, bindings, s1, lo1),
        s1.is_prefix_of(s2),
        lo2 <= lo1,
    ensures
        phi_checked(i, bindings, s2, lo2),
{
    match i {
        InstrV::Phi(d, srcs) => {
            assert forall|j: int| 0 <= j < srcs.len() implies appears(s2, lo2, phi_edge(bindings, (#[trigger] srcs[j]).1.name(), d.name())) by {
                lemma_appears_extend(s1, s2, lo1, lo2, phi_edge(bindings, srcs[j].1.name(), d.name()));
            }
        },
        _ => {},
    }
}

impl<'a> LiquidInferenceEngine<'a> {
    /// Each phi source flows into the phi's register, under the condition
    /// that was assumed on entering the block it comes from.
    #[verifier::loop_isolation(false)]
    fn generate_phi_constraints(&mut self, cfg: &SsaCfg) -> (r: Result<(), MerakError>)
        ensures
            grown_by(old(self).cons(), final(self).cons(), subtypes()),
            final(self).table() == old(self).table(),
            final(self).bindings() == old(self).bindings(),
            r is Ok ==> forall|b: int, k: int| 0 <= b < cfg.blocks.len() && 0 <= k < cfg.blocks@[b].instructions.len()
                ==> phi_checked(#[trigger] cfg.blocks@[b].instructions@[k]@, final(self).bindings(), final(self).cons(), old(self).cons().len() as int),
            r is Ok <==> phis_bound(cfg, old(self).bindings()),
    {
        let context = self.env.to_type_context();
        let ghost s0 = self.cons();
        proof {
            lemma_grown_refl(s0, subtypes());
        }
        let mut b: usize = 0;
        while b < cfg.blocks.len()
            invariant
                b <= cfg.blocks.len(),
                grown_by(s0, self.cons(), subtypes()),
                self.table() == old(self).table(),
                self.bindings() == old(self).bindings(),
                forall|bb: int, k: int| 0 <= bb < b && 0 <= k < cfg.blocks@[bb].instructions.len()
                    ==> phi_checked(#[trigger] cfg.blocks@[bb].instructions@[k]@, self.bindings(), self.cons(), s0.len() as int),
                forall|bb: int, k: int| 0 <= bb < b && 0 <= k < cfg.blocks@[bb].instructions.len()
                    ==> phi_bound(#[trigger] cfg.blocks@[bb].instructions@[k]@, self.bindings()),
            decreases cfg.blocks.len() - b,
        {
            let block = &cfg.blocks[b];
            let ghost sb = self.cons();
            let mut k: usize = 0;
            while k < block.instructions.len()
                invariant
                    k <= block.instructions.len(),
                    b < cfg.blocks.len(),
                    *block == cfg.blocks@[b as int],
                    grown_by(s0, self.cons(), subtypes()),
                    sb.is_prefix_of(self.cons()),
                    self.table() == old(self).table(),
                    self.bindings() == old(self).bindings(),
                    forall|bb: int, kk: int| 0 <= bb < b && 0 <= kk < cfg.blocks@[bb].instructions.len()
                        ==> phi_checked(#[trigger] cfg.blocks@[bb].instructions@[kk]@, self.bindings(), sb, s0.len() as int),
                    forall|kk: int| 0 <= kk < k ==> phi_checked(#[trigger] block.instructions@[kk]@, self.bindings(), self.cons(), s0.len() as int),
                    forall|bb: int, kk: int| 0 <= bb < b && 0 <= kk < cfg.blocks@[bb].instructions.len()
                        ==> phi_bound(#[trigger] cfg.blocks@[bb].instructions@[kk]@, self.bindings()),
                    forall|kk: int| 0 <= kk < k ==> phi_bound(#[trigger] block.instructions@[kk]@, self.bindings()),
                decreases block.instructions.len() - k,
            {
                let ghost sk = self.cons();
                if let SsaInstruction::Phi { dest, sources } = &block.instructions[k] {
                    let dest_name = dest.to_string();
                    let sup = match self.env.get_local(dest_name.as_str()) {
                        Some(t) => t,
                        None => {
                            proof {
                                assert(!phi_bound(cfg.blocks@[b as int].instructions@[k as int]@, old(self).bindings()));
                            }
                            return Err(err("phi destination without a template"));
                        },
                    };
                    let mut j: usize = 0;
                    while j < sources.len()
                        invariant
                            j <= sources.len(),
                            grown_by(s0, self.cons(), subtypes()),
                            sk.is_prefix_of(self.cons()),
                            self.table() == old(self).table(),
                            self.bindings() == old(self).bindings(),
                            sup@ == crate::refinements::templates::rebind(self.bindings()[dest@.name()], dest@.name()),
                            self.bindings().dom().contains(dest@.name()),
                            forall|jj: int| 0 <= jj < j ==> self.bindings().dom().contains((#[trigger] sources@[jj]).1@.name()),
                            forall|jj: int| 0 <= jj < j ==> appears(
                                self.cons(),
                                s0.len() as int,
                                phi_edge(self.bindings(), (#[trigger] sources@[jj]).1@.name(), dest@.name()),
                            ),
                        decreases sources.len() - j,
                    {
                        let pred_block = sources[j].0;
                        let src_name = sources[j].1.to_string();
                        let sub = match self.env.get_local(src_name.as_str()) {
                            Some(t) => t,
                            None => {
                                proof {
                                    let iv = cfg.blocks@[b as int].instructions@[k as int]@;
                                    assert(iv->Phi_1 =~= sources@.map_values(|p: (usize, Register)| (p.0, p.1@)));
                                    assert(iv->Phi_1[j as int].1 == sources@[j as int].1@);
                                    assert(!phi_bound(iv, old(self).bindings()));
                                }
                                return Err(err("phi source without a template"));
                            },
                        };
                        let mut path_context = context.clone();
                        if let Some(assumption) = self.path_assumption(pred_block) {
                            path_context.assume_fact(assumption.clone());
                        }
                        let ghost before = self.cons();
                        let ghost src = sources@[j as int].1@.name();
                        self.push_constraint(
                            Constraint::Subtype { context: path_context, sub, sup: sup.clone(), location: SourceRef::unknown() },
                            Ghost(subtypes()),
                        );
                        proof {
                            lemma_grown_trans(s0, before, self.cons(), subtypes());
                            lemma_prefix_trans(sk, before, self.cons());
                            assert(phi_edge(self.bindings(), src, dest@.name())(self.cons()[before.len() as int]));
                            assert forall|jj: int| 0 <= jj < j + 1 implies appears(
                                self.cons(),
                                s0.len() as int,
                                phi_edge(self.bindings(), (#[trigger] sources@[jj]).1@.name(), dest@.name()),
                            ) by {
                                if jj < j {
                                    lemma_appears_extend(before, self.cons(), s0.len() as int, s0.len() as int,
                                        phi_edge(self.bindings(), sources@[jj].1@.name(), dest@.name()));
                                }
                            }
                        }
                        j = j + 1;
                    }
                    proof {
                        let iv = block.instructions@[k as int]@;
                        assert(iv->Phi_1 =~= sources@.map_values(|p: (usize, Register)| (p.0, p.1@)));
                        assert forall|jj: int| 0 <= jj < iv->Phi_1.len() implies self.bindings().dom().contains(
                            (#[trigger] iv->Phi_1[jj]).1.name(),
                        ) by {
                            assert(iv->Phi_1[jj].1 == sources@[jj].1@);
                        }
                        assert(phi_bound(iv, self.bindings()));
                        assert forall|jj: int| 0 <= jj < iv->Phi_1.len() implies appears(
                            self.cons(),
                            s0.len() as int,
                            phi_edge(self.bindings(), (#[trigger] iv->Phi_1[jj]).1.name(), iv->Phi_0.name()),
                        ) by {
                            assert(iv->Phi_1[jj].1 == sources@[jj].1@);
                        }
                    }
                }
                proof {
                    assert(phi_bound(block.instructions@[k as int]@, self.bindings()));
                    assert forall|kk: int| 0 <= kk < k + 1 implies phi_checked(#[trigger] block.instructions@[kk]@, self.bindings(), self.cons(), s0.len() as int) by {
                        if kk < k {
                            lemma_phi_checked_extend(block.instructions@[kk]@, self.bindings(), sk, self.cons(), s0.len() as int);
                        }
                    }
                    lemma_prefix_trans(sb, sk, self.cons());
                }
                k = k + 1;
            }
            proof {
                assert forall|bb: int, kk: int| 0 <= bb < b + 1 && 0 <= kk < cfg.blocks@[bb].instructions.len()
                    implies phi_checked(#[trigger] cfg.blocks@[bb].instructions@[kk]@, self.bindings(), self.cons(), s0.len() as int) by {
                    if bb < b {
                        lemma_phi_checked_extend(cfg.blocks@[bb].instructions@[kk]@, self.bindings(), sb, self.cons(), s0.len() as int);
                    }
                }
            }
            b = b + 1;
        }
        Ok(())
    }
}

/// Whether every `requires` and `ensures` of a function is about storage.
/// The message that refuses a contract clause naming no storage: the
/// clause's kind, the predicate, and the advice to use a parameter's
/// refinement.
pub open spec fn clause_refusal(kind: Seq<char>, p: PredV) -> Seq<char> {
    kind + " clause '"@ + crate::ast::predicate::pred_text(p)
        + "' only references parameters/locals. Use parameter refinements instead (e.g., x: {x: int | x > 0})"@
}

/// Whether a message refuses one of a function's requires or ensures
/// clauses for naming no storage.
pub open spec fn refuses_a_clause(t: &SymbolTable, cfg: &SsaCfg, msg: Seq<char>) -> bool {
    ||| exists|i: int| 0 <= i < cfg.requires.len() && !about_storage(t, #[trigger] cfg.requires@[i]@) && msg == clause_refusal(
        "requires"@,
        cfg.requires@[i]@,
    )
    ||| exists|i: int| 0 <= i < cfg.ensures.len() && !about_storage(t, #[trigger] cfg.ensures@[i]@) && msg == clause_refusal(
        "ensures"@,
        cfg.ensures@[i]@,
    )
}

pub open spec fn contracts_about_storage(t: &SymbolTable, cfg: &SsaCfg) -> bool {
    &&& forall|i: int| 0 <= i < cfg.requires.len() ==> about_storage(t, #[trigger] cfg.requires@[i]@)
    &&& forall|i: int| 0 <= i < cfg.ensures.len() ==> about_storage(t, #[trigger] cfg.ensures@[i]@)
}

pub open spec fn none_marked(n: nat) -> Seq<bool> {
    Seq::new(n, |i: int| false)
}

/// Some set of blocks holds the entry and every block that one of them
/// leads to, and each of its blocks was checked by the constraints from
/// position `lo` on.
pub open spec fn walk_checked(cfg: &SsaCfg, s: Seq<ConstraintV>, lo: int) -> bool {
    exists|v: Seq<bool>| v.len() == cfg.blocks.len() && v[cfg.entry as int] && #[trigger] region_checked(
        cfg,
        none_marked(cfg.blocks.len() as nat),
        v,
        s,
        lo,
    )
}

/// Every phi of the function is checked.
pub open spec fn phis_checked(cfg: &SsaCfg, bindings: Map<Seq<char>, TemplateV>, s: Seq<ConstraintV>, lo: int) -> bool {
    forall|b: int, k: int| 0 <= b < cfg.blocks.len() && 0 <= k < cfg.blocks@[b].instructions.len()
        ==> phi_checked(#[trigger] cfg.blocks@[b].instructions@[k]@, bindings, s, lo)
}

impl<'a> LiquidInferenceEngine<'a> {
    /// Generates the function's constraints, once its templates are
    /// assigned: the parameters' names are seeded, the contracts are
    /// checked to be about storage, the preconditions and the parameters'
    /// written refinements are assumed, the blocks are walked from the
    /// entry, and the phis are checked last.
    pub fn generate_constraints(&mut self, cfg: &SsaCfg) -> (r: Result<(), MerakError>)
        requires
            cfg_ok(cfg),
        ensures
            old(self).cons().is_prefix_of(final(self).cons()),
            final(self).table() == old(self).table(),
            !contracts_about_storage(old(self).table(), cfg) ==> r is Err && r->Err_0 is SemanticError && refuses_a_clause(
                old(self).table(),
                cfg,
                r->Err_0->SemanticError_0@,
            ),
            r is Ok ==> contracts_about_storage(old(self).table(), cfg),
            r is Ok ==> walk_checked(cfg, final(self).cons(), old(self).cons().len() as int),
            r is Ok ==> phis_checked(cfg, final(self).bindings(), final(self).cons(), old(self).cons().len() as int),
            contracts_about_storage(old(self).table(), cfg) && walk_sound(
                cfg,
                old(self).bindings(),
                old(self).table(),
                old(self).current(),
                old(self).next_liquid() + walk_budget(cfg, none_marked(cfg.blocks.len() as nat)),
            ) && phis_bound(cfg, old(self).bindings()) ==> r is Ok,
    {
        let ghost s0 = self.cons();
        proof {
            lemma_prefix_refl(s0);
        }
        let mut p: usize = 0;
        while p < cfg.parameters.len()
            invariant
                p <= cfg.parameters.len(),
                self.cons() == s0,
                self.table() == old(self).table(),
                self.current() == old(self).current(),
                self.bindings() == old(self).bindings(),
                self.next_liquid() == old(self).next_liquid(),
            decreases cfg.parameters.len() - p,
        {
            let param = &cfg.parameters[p];
            if let SymbolId::Named(name, _) = param {
                let reg = Register { symbol: param.clone(), version: 0 };
                self.env.track_source_ssa(name.clone(), reg.to_string());
            }
            p = p + 1;
        }
        proof {
            reveal_strlit("requires");
            reveal_strlit("ensures");
        }
        match self.validate_storage_contracts(&cfg.requires, "requires") {
            Ok(()) => {},
            Err(e) => return Err(e),
        }
        match self.validate_storage_contracts(&cfg.ensures, "ensures") {
            Ok(()) => {},
            Err(e) => return Err(e),
        }
        let mut q: usize = 0;
        while q < cfg.requires.len()
            invariant
                q <= cfg.requires.len(),
                self.cons() == s0,
                self.table() == old(self).table(),
                self.current() == old(self).current(),
                self.bindings() == old(self).bindings(),
                self.next_liquid() == old(self).next_liquid(),
            decreases cfg.requires.len() - q,
        {
            let resolved = cfg.requires[q].substitute_vars(self.env.source_to_ssa_mapping());
            self.env.add_assumption(resolved);
            q = q + 1;
        }
        let mut a: usize = 0;
        while a < cfg.parameters.len()
            invariant
                a <= cfg.parameters.len(),
                self.cons() == s0,
                self.table() == old(self).table(),
                self.current() == old(self).current(),
                self.bindings() == old(self).bindings(),
                self.next_liquid() == old(self).next_liquid(),
            decreases cfg.parameters.len() - a,
        {
            let param = &cfg.parameters[a];
            let contract = match self.env.get_symbol_type(param) {
                Some(ty) => if ty.is_explicit_annotation() && !ty.is_true_literal() {
                    let param_name = match self.env.get_symbol(param) {
                        Some(info) => info.last_name(),
                        None => return Err(err("parameter missing from the symbol table")),
                    };
                    let versioned = param_name.to_string().concat("_0");
                    let mut subst = self.env.source_to_ssa_mapping().copy();
                    subst.insert(ty.binder.clone(), versioned);
                    Some(ty.constraint.substitute_vars(&subst))
                } else {
                    None
                },
                None => None,
            };
            if let Some(c) = contract {
                self.env.add_assumption(c);
            }
            a = a + 1;
        }
        let mut visited: Vec<bool> = Vec::new();
        let mut i: usize = 0;
        while i < cfg.blocks.len()
            invariant
                i <= cfg.blocks.len(),
                visited@ == none_marked(i as nat),
            decreases cfg.blocks.len() - i,
        {
            visited.push(false);
            proof {
                assert(visited@ =~= none_marked((i + 1) as nat));
            }
            i = i + 1;
        }
        let ghost v0 = visited@;
        match self.generate_constraints_from_block(cfg.entry, cfg, &mut visited) {
            Ok(()) => {},
            Err(e) => return Err(e),
        }
        let ghost s1 = self.cons();
        proof {
            assert forall|b: int, k: int| 0 <= b < cfg.blocks.len() && 0 <= k < cfg.blocks@[b].instructions.len() && phis_bound(
                cfg,
                old(self).bindings(),
            ) implies phi_bound(#[trigger] cfg.blocks@[b].instructions@[k]@, self.bindings()) by {
                assert(phi_bound(cfg.blocks@[b].instructions@[k]@, old(self).bindings()));
            }
        }
        match self.generate_phi_constraints(cfg) {
            Ok(()) => {},
            Err(e) => {
                proof {
                    lemma_prefix_trans(s0, s1, self.cons());
                }
                return Err(e);
            },
        }
        proof {
            lemma_prefix_trans(s0, s1, self.cons());
            assert forall|b: int| 0 <= b < visited@.len() && #[trigger] visited@[b] && !v0[b] implies block_checked(cfg, b, self.cons(), s0.len() as int)
                && successors_marked(cfg.blocks@[b].terminator, visited@) by {
                lemma_block_checked_extend(cfg, b, s1, self.cons(), s0.len() as int, s0.len() as int);
            }
            assert(region_checked(cfg, none_marked(cfg.blocks.len() as nat), visited@, self.cons(), s0.len() as int));
            assert forall|b: int, k: int| 0 <= b < cfg.blocks.len() && 0 <= k < cfg.blocks@[b].instructions.len()
                implies phi_checked(#[trigger] cfg.blocks@[b].instructions@[k]@, self.bindings(), self.cons(), s0.len() as int) by {
                lemma_phi_checked_lower(cfg.blocks@[b].instructions@[k]@, self.bindings(), self.cons(), self.cons(), s1.len() as int, s0.len() as int);
            }
        }
        Ok(())
    }
}

/// What a failed solve reports: an internal failure, or a constraint that
/// no assignment satisfies, which needs a constraint whose failure cannot be
/// passed back to a liquid variable.
pub open spec fn solve_failure(message: Seq<char>, cons: Seq<ConstraintV>) -> bool {
    ||| "Internal solver error: "@.is_prefix_of(message)
    ||| ("Type mismatch: "@.is_prefix_of(message) || "Unsatisfiable constraint: "@.is_prefix_of(message))
        && exists|i: int| 0 <= i < cons.len() && crate::refinements::solver::unrepairable(#[trigger] cons[i])
}

impl<'a> LiquidInferenceEngine<'a> {
    /// Hands the constraints gathered so far to the solver.
    fn solve_constraints(&mut self) -> (r: Result<(), MerakError>)
        ensures
            final(self).cons() == old(self).cons(),
            final(self).table() == old(self).table(),
            final(self).bindings() == old(self).bindings(),
            r is Err ==> r->Err_0 is ConstraintSolvingFailed && solve_failure(r->Err_0->ConstraintSolvingFailed_message@, old(self).cons()),
            old(self).cons().len() == 0 ==> r is Ok,
            r is Ok ==> crate::refinements::solver::solvable(old(self).cons()),
    {
        let config = z3_config_new();
        let context = z3_context_new(&config);
        let solver = ConstraintSolver::new(self.constraints.clone(), &context);
        match solver.solve() {
            Ok(a) => {
                proof {
                    assert(a@.dom() == crate::refinements::solver::all_lvars(self.cons()));
                }
                Ok(())
            },
            Err(e) => {
                let message = e.to_string();
                proof {
                    reveal_strlit("Internal solver error: ");
                    reveal_strlit("Type mismatch: ");
                    reveal_strlit("Unsatisfiable constraint: ");
                    match e {
                        crate::refinements::solver::SolverError::InternalError { message: m } => {
                            assert("Internal solver error: "@ =~= message@.subrange(0, "Internal solver error: "@.len() as int));
                        },
                        crate::refinements::solver::SolverError::TypeMismatch { message: m } => {
                            assert("Type mismatch: "@ =~= message@.subrange(0, "Type mismatch: "@.len() as int));
                        },
                        crate::refinements::solver::SolverError::UnsatisfiableConstraint { constraint: c, reason: w } => {
                            assert("Unsatisfiable constraint: "@ =~= message@.subrange(0, "Unsatisfiable constraint: "@.len() as int));
                        },
                        _ => {},
                    }
                }
                Err(MerakError::ConstraintSolvingFailed { message })
            },
        }
    }

    /// Runs template assignment and constraint generation for a function,
    /// without solving, and gives the constraints.
    pub fn generate_constraints_only(&mut self, cfg: &SsaCfg) -> (r: Result<ConstraintSet, MerakError>)
        requires
            cfg_ok(cfg),
        ensures
            final(self).table() == old(self).table(),
            r is Ok ==> contracts_about_storage(old(self).table(), cfg),
            r is Ok ==> walk_checked(cfg, r->Ok_0@, 0),
            r is Ok ==> r->Ok_0@ == final(self).cons(),
            r is Ok ==> final(self).bindings() == Map::<Seq<char>, TemplateV>::empty(),
            function_generable(cfg, old(self).table(), old(self).next_liquid()) ==> r is Ok,
            templates_assignable(cfg, old(self).table()) && old(self).next_liquid() + blocks_size(cfg, cfg.blocks.len() as nat) < usize::MAX
                && !contracts_about_storage(old(self).table(), cfg) ==> r is Err && r->Err_0 is SemanticError && refuses_a_clause(
                old(self).table(),
                cfg,
                r->Err_0->SemanticError_0@,
            ),
    {
        self.env.enter_function(cfg.function_id.clone());
        self.storage_load_regs = Vec::new();
        self.constraints = ConstraintSet::new();
        match self.assign_templates(cfg) {
            Ok(()) => {},
            Err(e) => return Err(e),
        }
        proof {
            if function_generable(cfg, old(self).table(), old(self).next_liquid()) {
                lemma_registers_bound(cfg, self.bindings());
                lemma_walk_sound_mono(
                    cfg,
                    registers_map(cfg),
                    self.bindings(),
                    self.table(),
                    self.current(),
                    old(self).next_liquid() + blocks_size(cfg, cfg.blocks.len() as nat) + walk_budget(cfg, none_marked(cfg.blocks.len() as nat)),
                    self.next_liquid() + walk_budget(cfg, none_marked(cfg.blocks.len() as nat)),
                );
                assert forall|b: int, k: int| 0 <= b < cfg.blocks.len() && 0 <= k < cfg.blocks@[b].instructions.len() implies phi_bound(
                    #[trigger] cfg.blocks@[b].instructions@[k]@,
                    self.bindings(),
                ) by {
                    assert(phi_bound(cfg.blocks@[b].instructions@[k]@, registers_map(cfg)));
                }
            }
        }
        match self.generate_constraints(cfg) {
            Ok(()) => {},
            Err(e) => return Err(e),
        }
        let result = self.constraints.clone();
        self.env.exit_function();
        Ok(result)
    }

    /// Infers a function's refinements: the integer constants of the
    /// function become qualifiers, then templates are assigned, constraints
    /// generated and solved. Constraints of earlier functions stay and are
    /// solved again with this one's.
    pub fn infer_function(&mut self, cfg: &SsaCfg) -> (r: Result<(), MerakError>)
        requires
            cfg_ok(cfg),
        ensures
            final(self).table() == old(self).table(),
            old(self).cons().is_prefix_of(final(self).cons()),
            r is Ok ==> contracts_about_storage(old(self).table(), cfg),
            r is Ok ==> walk_checked(cfg, final(self).cons(), old(self).cons().len() as int),
            r is Ok ==> final(self).bindings() == Map::<Seq<char>, TemplateV>::empty(),
            function_generable(cfg, old(self).table(), old(self).next_liquid()) && r is Err ==> r->Err_0 is ConstraintSolvingFailed,
            templates_assignable(cfg, old(self).table()) && old(self).next_liquid() + blocks_size(cfg, cfg.blocks.len() as nat) < usize::MAX
                && !contracts_about_storage(old(self).table(), cfg) ==> r is Err && r->Err_0 is SemanticError && refuses_a_clause(
                old(self).table(),
                cfg,
                r->Err_0->SemanticError_0@,
            ),
            r is Ok ==> crate::refinements::solver::solvable(final(self).cons()),
            function_generable(cfg, old(self).table(), old(self).next_liquid()) && final(self).cons().len() == 0 ==> r is Ok,
    {
        let ghost s0 = self.cons();
        proof {
            lemma_prefix_refl(s0);
        }
        self.env.enter_function(cfg.function_id.clone());
        self.storage_load_regs = Vec::new();
        let program_constants = extract_constants_from_cfg(cfg);
        self.qualifiers = QualifierSet::with_constants(program_constants);
        match self.assign_templates(cfg) {
            Ok(()) => {},
            Err(e) => return Err(e),
        }
        proof {
            if function_generable(cfg, old(self).table(), old(self).next_liquid()) {
                lemma_registers_bound(cfg, self.bindings());
                lemma_walk_sound_mono(
                    cfg,
                    registers_map(cfg),
                    self.bindings(),
                    self.table(),
                    self.current(),
                    old(self).next_liquid() + blocks_size(cfg, cfg.blocks.len() as nat) + walk_budget(cfg, none_marked(cfg.blocks.len() as nat)),
                    self.next_liquid() + walk_budget(cfg, none_marked(cfg.blocks.len() as nat)),
                );
                assert forall|b: int, k: int| 0 <= b < cfg.blocks.len() && 0 <= k < cfg.blocks@[b].instructions.len() implies phi_bound(
                    #[trigger] cfg.blocks@[b].instructions@[k]@,
                    self.bindings(),
                ) by {
                    assert(phi_bound(cfg.blocks@[b].instructions@[k]@, registers_map(cfg)));
                }
            }
        }
        match self.generate_constraints(cfg) {
            Ok(()) => {},
            Err(e) => return Err(e),
        }
        match self.solve_constraints() {
            Ok(()) => {},
            Err(e) => return Err(e),
        }
        self.env.exit_function();
        Ok(())
    }
}

/// A copy of a map of templates.
pub fn copy_templates(m: &StrMap<Template>) -> (r: StrMap<Template>)
    ensures
        r@ == m@,
{
    let entries = m.entries();
    let mut out: StrMap<Template> = StrMap::new();
    let mut i: usize = 0;
    while i < entries.len()
        invariant
            i <= entries.len(),
            crate::names::entries_view(entries@) == m@,
            out@ == crate::names::entries_view(entries@.subrange(0, i as int)),
        decreases entries.len() - i,
    {
        let e = &entries[i];
        out.insert(e.0.clone(), e.1.clone());
        proof {
            assert(entries@.subrange(0, i + 1).drop_last() =~= entries@.subrange(0, i as int));
        }
        i = i + 1;
    }
    proof {
        assert(entries@.subrange(0, entries.len() as int) =~= entries@);
    }
    out
}

} // verus!
