use vstd::prelude::*;

use crate::ast::meta::SourceRef;
use crate::ast::node_id::NodeId;
use crate::names::{StrMap, StrSet, str_eq, signed_decimal, i64_to_string, bool_text, bool_to_string, join_comma};
use vstd::string::StringExecFns;

verus! {

/// A logical formula over refinement expressions.
#[derive(Debug, PartialEq, Eq, Hash)]
pub enum Predicate {
    True(NodeId, SourceRef),
    False(NodeId, SourceRef),
    Var(String, NodeId, SourceRef),
    UninterpFnCall { name: String, args: Vec<RefinementExpr>, id: NodeId, source_ref: SourceRef },
    BinRel { op: RelOp, lhs: RefinementExpr, rhs: RefinementExpr, id: NodeId, source_ref: SourceRef },
    And(Box<Predicate>, Box<Predicate>, NodeId, SourceRef),
    Or(Box<Predicate>, Box<Predicate>, NodeId, SourceRef),
    Not(Box<Predicate>, NodeId, SourceRef),
    Implies(Box<Predicate>, Box<Predicate>, NodeId, SourceRef),
}

#[derive(Debug, Clone, Copy, PartialEq, Eq, Hash)]
pub enum RelOp {
    Eq,
    Neq,
    Lt,
    Leq,
    Gt,
    Geq,
}

/// A value-level expression inside a refinement.
#[derive(Debug, PartialEq, Eq, Hash)]
#[allow(inconsistent_fields)]
pub enum RefinementExpr {
    Var(String, NodeId, SourceRef),
    IntLit(i64, NodeId, SourceRef),
    AddressLit(String, NodeId, SourceRef),
    BoolLit(bool, NodeId, SourceRef),
    MsgSender(NodeId, SourceRef),
    MsgValue(NodeId, SourceRef),
    BlockTimestamp(NodeId, SourceRef),
    BinOp { op: ArithOp, lhs: Box<RefinementExpr>, rhs: Box<RefinementExpr>, id: NodeId, source_ref: SourceRef },
    UnaryOp { op: UnaryOp, expr: Box<RefinementExpr>, id: NodeId, source_ref: SourceRef },
    UninterpFn { name: String, args: Vec<RefinementExpr>, id: NodeId, source_ref: SourceRef },
    Old { expr: Box<RefinementExpr>, id: NodeId, source_ref: SourceRef },
}

#[derive(Debug, Clone, Copy, PartialEq, Eq, Hash)]
pub enum ArithOp {
    Add,
    Sub,
    Mul,
    Div,
    Mod,
}

#[derive(Debug, Clone, Copy, PartialEq, Eq, Hash)]
pub enum UnaryOp {
    Negate,
}

// ---------------------------------------------------------------------------
// Mathematical model
// ---------------------------------------------------------------------------

/// The model of a refinement expression: names as character sequences,
/// argument lists as sequences.
pub enum ExprV {
    Var(Seq<char>, NodeId, SourceRef),
    IntLit(i64, NodeId, SourceRef),
    AddressLit(Seq<char>, NodeId, SourceRef),
    BoolLit(bool, NodeId, SourceRef),
    MsgSender(NodeId, SourceRef),
    MsgValue(NodeId, SourceRef),
    BlockTimestamp(NodeId, SourceRef),
    BinOp(ArithOp, Box<ExprV>, Box<ExprV>, NodeId, SourceRef),
    UnaryOp(UnaryOp, Box<ExprV>, NodeId, SourceRef),
    UninterpFn(Seq<char>, Seq<ExprV>, NodeId, SourceRef),
    Old(Box<ExprV>, NodeId, SourceRef),
}

/// The model of a predicate.
pub enum PredV {
    True(NodeId, SourceRef),
    False(NodeId, SourceRef),
    Var(Seq<char>, NodeId, SourceRef),
    UninterpFnCall(Seq<char>, Seq<ExprV>, NodeId, SourceRef),
    BinRel(RelOp, ExprV, ExprV, NodeId, SourceRef),
    And(Box<PredV>, Box<PredV>, NodeId, SourceRef),
    Or(Box<PredV>, Box<PredV>, NodeId, SourceRef),
    Not(Box<PredV>, NodeId, SourceRef),
    Implies(Box<PredV>, Box<PredV>, NodeId, SourceRef),
}

pub open spec fn filler_expr() -> ExprV {
    ExprV::MsgSender(NodeId(0), SourceRef { start: 0, end: 0 })
}

pub open spec fn expr_view(e: RefinementExpr) -> ExprV
    decreases e,
{
    match e {
        RefinementExpr::Var(n, id, sr) => ExprV::Var(n@, id, sr),
        RefinementExpr::IntLit(v, id, sr) => ExprV::IntLit(v, id, sr),
        RefinementExpr::AddressLit(a, id, sr) => ExprV::AddressLit(a@, id, sr),
        RefinementExpr::BoolLit(b, id, sr) => ExprV::BoolLit(b, id, sr),
        RefinementExpr::MsgSender(id, sr) => ExprV::MsgSender(id, sr),
        RefinementExpr::MsgValue(id, sr) => ExprV::MsgValue(id, sr),
        RefinementExpr::BlockTimestamp(id, sr) => ExprV::BlockTimestamp(id, sr),
        RefinementExpr::BinOp { op, lhs, rhs, id, source_ref } => ExprV::BinOp(
            op,
            Box::new(expr_view(*lhs)),
            Box::new(expr_view(*rhs)),
            id,
            source_ref,
        ),
        RefinementExpr::UnaryOp { op, expr, id, source_ref } => ExprV::UnaryOp(op, Box::new(expr_view(*expr)), id, source_ref),
        RefinementExpr::UninterpFn { name, args, id, source_ref } => ExprV::UninterpFn(
            name@,
            Seq::new(args.len() as nat, |i: int| if 0 <= i < args.len() { expr_view(args@[i]) } else { filler_expr() }),
            id,
            source_ref,
        ),
        RefinementExpr::Old { expr, id, source_ref } => ExprV::Old(Box::new(expr_view(*expr)), id, source_ref),
    }
}

/// The models of a list of expressions.
pub open spec fn exprs_view(s: Seq<RefinementExpr>) -> Seq<ExprV> {
    Seq::new(s.len(), |i: int| expr_view(s[i]))
}

pub open spec fn pred_view(p: Predicate) -> PredV
    decreases p,
{
    match p {
        Predicate::True(id, sr) => PredV::True(id, sr),
        Predicate::False(id, sr) => PredV::False(id, sr),
        Predicate::Var(n, id, sr) => PredV::Var(n@, id, sr),
        Predicate::UninterpFnCall { name, args, id, source_ref } => PredV::UninterpFnCall(
            name@,
            Seq::new(args.len() as nat, |i: int| if 0 <= i < args.len() { expr_view(args@[i]) } else { filler_expr() }),
            id,
            source_ref,
        ),
        Predicate::BinRel { op, lhs, rhs, id, source_ref } => PredV::BinRel(op, expr_view(lhs), expr_view(rhs), id, source_ref),
        Predicate::And(l, r, id, sr) => PredV::And(Box::new(pred_view(*l)), Box::new(pred_view(*r)), id, sr),
        Predicate::Or(l, r, id, sr) => PredV::Or(Box::new(pred_view(*l)), Box::new(pred_view(*r)), id, sr),
        Predicate::Not(q, id, sr) => PredV::Not(Box::new(pred_view(*q)), id, sr),
        Predicate::Implies(l, r, id, sr) => PredV::Implies(Box::new(pred_view(*l)), Box::new(pred_view(*r)), id, sr),
    }
}

impl View for RefinementExpr {
    type V = ExprV;

    open spec fn view(&self) -> ExprV {
        expr_view(*self)
    }
}

impl View for Predicate {
    type V = PredV;

    open spec fn view(&self) -> PredV {
        pred_view(*self)
    }
}

pub proof fn lemma_args_view(args: Vec<RefinementExpr>)
    ensures
        exprs_view(args@) == Seq::new(args.len() as nat, |i: int| if 0 <= i < args.len() { expr_view(args@[i]) } else { filler_expr() }),
{
    assert(exprs_view(args@) =~= Seq::new(args.len() as nat, |i: int| if 0 <= i < args.len() { expr_view(args@[i]) } else { filler_expr() }));
}

// ----- identity and position -----

pub open spec fn expr_id(e: ExprV) -> NodeId {
    match e {
        ExprV::Var(_, id, _) => id,
        ExprV::IntLit(_, id, _) => id,
        ExprV::AddressLit(_, id, _) => id,
        ExprV::BoolLit(_, id, _) => id,
        ExprV::MsgSender(id, _) => id,
        ExprV::MsgValue(id, _) => id,
        ExprV::BlockTimestamp(id, _) => id,
        ExprV::BinOp(_, _, _, id, _) => id,
        ExprV::UnaryOp(_, _, id, _) => id,
        ExprV::UninterpFn(_, _, id, _) => id,
        ExprV::Old(_, id, _) => id,
    }
}

pub open spec fn expr_source_ref(e: ExprV) -> SourceRef {
    match e {
        ExprV::Var(_, _, sr) => sr,
        ExprV::IntLit(_, _, sr) => sr,
        ExprV::AddressLit(_, _, sr) => sr,
        ExprV::BoolLit(_, _, sr) => sr,
        ExprV::MsgSender(_, sr) => sr,
        ExprV::MsgValue(_, sr) => sr,
        ExprV::BlockTimestamp(_, sr) => sr,
        ExprV::BinOp(_, _, _, _, sr) => sr,
        ExprV::UnaryOp(_, _, _, sr) => sr,
        ExprV::UninterpFn(_, _, _, sr) => sr,
        ExprV::Old(_, _, sr) => sr,
    }
}

pub open spec fn pred_id(p: PredV) -> NodeId {
    match p {
        PredV::True(id, _) => id,
        PredV::False(id, _) => id,
        PredV::Var(_, id, _) => id,
        PredV::UninterpFnCall(_, _, id, _) => id,
        PredV::BinRel(_, _, _, id, _) => id,
        PredV::And(_, _, id, _) => id,
        PredV::Or(_, _, id, _) => id,
        PredV::Not(_, id, _) => id,
        PredV::Implies(_, _, id, _) => id,
    }
}

pub open spec fn pred_source_ref(p: PredV) -> SourceRef {
    match p {
        PredV::True(_, sr) => sr,
        PredV::False(_, sr) => sr,
        PredV::Var(_, _, sr) => sr,
        PredV::UninterpFnCall(_, _, _, sr) => sr,
        PredV::BinRel(_, _, _, _, sr) => sr,
        PredV::And(_, _, _, sr) => sr,
        PredV::Or(_, _, _, sr) => sr,
        PredV::Not(_, _, sr) => sr,
        PredV::Implies(_, _, _, sr) => sr,
    }
}

// ----- old() occurrences -----

pub open spec fn expr_contains_old(e: ExprV) -> bool
    decreases e,
{
    match e {
        ExprV::BinOp(_, l, r, _, _) => expr_contains_old(*l) || expr_contains_old(*r),
        ExprV::UnaryOp(_, x, _, _) => expr_contains_old(*x),
        ExprV::UninterpFn(_, args, _, _) => exists|i: int| 0 <= i < args.len() && expr_contains_old(args[i]),
        ExprV::Old(..) => true,
        _ => false,
    }
}

pub open spec fn pred_contains_old(p: PredV) -> bool
    decreases p,
{
    match p {
        PredV::BinRel(_, l, r, _, _) => expr_contains_old(l) || expr_contains_old(r),
        PredV::And(l, r, _, _) => pred_contains_old(*l) || pred_contains_old(*r),
        PredV::Or(l, r, _, _) => pred_contains_old(*l) || pred_contains_old(*r),
        PredV::Implies(l, r, _, _) => pred_contains_old(*l) || pred_contains_old(*r),
        PredV::Not(q, _, _) => pred_contains_old(*q),
        PredV::UninterpFnCall(_, args, _, _) => exists|i: int| 0 <= i < args.len() && expr_contains_old(args[i]),
        _ => false,
    }
}

// ----- renaming -----

/// The name a variable gets under a renaming: renamed if mapped, kept otherwise.
pub open spec fn rename(m: Map<Seq<char>, Seq<char>>, n: Seq<char>) -> Seq<char> {
    if m.dom().contains(n) {
        m[n]
    } else {
        n
    }
}

pub open spec fn expr_rename(e: ExprV, m: Map<Seq<char>, Seq<char>>) -> ExprV
    decreases e,
{
    match e {
        ExprV::Var(n, id, sr) => ExprV::Var(rename(m, n), id, sr),
        ExprV::BinOp(op, l, r, id, sr) => ExprV::BinOp(op, Box::new(expr_rename(*l, m)), Box::new(expr_rename(*r, m)), id, sr),
        ExprV::UnaryOp(op, x, id, sr) => ExprV::UnaryOp(op, Box::new(expr_rename(*x, m)), id, sr),
        ExprV::UninterpFn(n, args, id, sr) => ExprV::UninterpFn(
            n,
            Seq::new(args.len(), |i: int| if 0 <= i < args.len() { expr_rename(args[i], m) } else { filler_expr() }),
            id,
            sr,
        ),
        ExprV::Old(x, id, sr) => ExprV::Old(Box::new(expr_rename(*x, m)), id, sr),
        _ => e,
    }
}

pub open spec fn pred_rename(p: PredV, m: Map<Seq<char>, Seq<char>>) -> PredV
    decreases p,
{
    match p {
        PredV::Var(n, id, sr) => PredV::Var(rename(m, n), id, sr),
        PredV::UninterpFnCall(n, args, id, sr) => PredV::UninterpFnCall(
            n,
            Seq::new(args.len(), |i: int| if 0 <= i < args.len() { expr_rename(args[i], m) } else { filler_expr() }),
            id,
            sr,
        ),
        PredV::BinRel(op, l, r, id, sr) => PredV::BinRel(op, expr_rename(l, m), expr_rename(r, m), id, sr),
        PredV::And(l, r, id, sr) => PredV::And(Box::new(pred_rename(*l, m)), Box::new(pred_rename(*r, m)), id, sr),
        PredV::Or(l, r, id, sr) => PredV::Or(Box::new(pred_rename(*l, m)), Box::new(pred_rename(*r, m)), id, sr),
        PredV::Not(q, id, sr) => PredV::Not(Box::new(pred_rename(*q, m)), id, sr),
        PredV::Implies(l, r, id, sr) => PredV::Implies(Box::new(pred_rename(*l, m)), Box::new(pred_rename(*r, m)), id, sr),
        _ => p,
    }
}

// ----- substitution of expressions for variables -----

pub open spec fn expr_subst(e: ExprV, m: Map<Seq<char>, ExprV>) -> ExprV
    decreases e,
{
    match e {
        ExprV::Var(n, _, _) => if m.dom().contains(n) { m[n] } else { e },
        ExprV::BinOp(op, l, r, id, sr) => ExprV::BinOp(op, Box::new(expr_subst(*l, m)), Box::new(expr_subst(*r, m)), id, sr),
        ExprV::UnaryOp(op, x, id, sr) => ExprV::UnaryOp(op, Box::new(expr_subst(*x, m)), id, sr),
        ExprV::UninterpFn(n, args, id, sr) => ExprV::UninterpFn(
            n,
            Seq::new(args.len(), |i: int| if 0 <= i < args.len() { expr_subst(args[i], m) } else { filler_expr() }),
            id,
            sr,
        ),
        ExprV::Old(x, id, sr) => ExprV::Old(Box::new(expr_subst(*x, m)), id, sr),
        _ => e,
    }
}

/// A boolean variable used as a predicate becomes `true`/`false` when it is
/// mapped to a boolean literal; any other mapped value leaves it in place.
pub open spec fn pred_subst(p: PredV, m: Map<Seq<char>, ExprV>) -> PredV
    decreases p,
{
    match p {
        PredV::Var(n, id, sr) => if m.dom().contains(n) {
            match m[n] {
                ExprV::BoolLit(b, _, _) => if b { PredV::True(id, sr) } else { PredV::False(id, sr) },
                _ => p,
            }
        } else {
            p
        },
        PredV::UninterpFnCall(n, args, id, sr) => PredV::UninterpFnCall(
            n,
            Seq::new(args.len(), |i: int| if 0 <= i < args.len() { expr_subst(args[i], m) } else { filler_expr() }),
            id,
            sr,
        ),
        PredV::BinRel(op, l, r, id, sr) => PredV::BinRel(op, expr_subst(l, m), expr_subst(r, m), id, sr),
        PredV::And(l, r, id, sr) => PredV::And(Box::new(pred_subst(*l, m)), Box::new(pred_subst(*r, m)), id, sr),
        PredV::Or(l, r, id, sr) => PredV::Or(Box::new(pred_subst(*l, m)), Box::new(pred_subst(*r, m)), id, sr),
        PredV::Not(q, id, sr) => PredV::Not(Box::new(pred_subst(*q, m)), id, sr),
        PredV::Implies(l, r, id, sr) => PredV::Implies(Box::new(pred_subst(*l, m)), Box::new(pred_subst(*r, m)), id, sr),
        _ => p,
    }
}

// ----- free variables -----

pub open spec fn expr_free_vars(e: ExprV) -> Set<Seq<char>>
    decreases e,
{
    match e {
        ExprV::Var(n, _, _) => set![n],
        ExprV::BinOp(_, l, r, _, _) => expr_free_vars(*l).union(expr_free_vars(*r)),
        ExprV::UnaryOp(_, x, _, _) => expr_free_vars(*x),
        ExprV::UninterpFn(_, args, _, _) => Set::new(
            |x: Seq<char>| exists|i: int| 0 <= i < args.len() && expr_free_vars(args[i]).contains(x),
        ),
        ExprV::Old(x, _, _) => expr_free_vars(*x),
        _ => Set::empty(),
    }
}

pub open spec fn pred_free_vars(p: PredV) -> Set<Seq<char>>
    decreases p,
{
    match p {
        PredV::Var(n, _, _) => set![n],
        PredV::BinRel(_, l, r, _, _) => expr_free_vars(l).union(expr_free_vars(r)),
        PredV::And(l, r, _, _) => pred_free_vars(*l).union(pred_free_vars(*r)),
        PredV::Or(l, r, _, _) => pred_free_vars(*l).union(pred_free_vars(*r)),
        PredV::Implies(l, r, _, _) => pred_free_vars(*l).union(pred_free_vars(*r)),
        PredV::Not(q, _, _) => pred_free_vars(*q),
        PredV::UninterpFnCall(_, args, _, _) => Set::new(
            |x: Seq<char>| exists|i: int| 0 <= i < args.len() && expr_free_vars(args[i]).contains(x),
        ),
        _ => Set::empty(),
    }
}

// ----- negation -----

pub open spec fn negate_rel(op: RelOp) -> RelOp {
    match op {
        RelOp::Eq => RelOp::Neq,
        RelOp::Neq => RelOp::Eq,
        RelOp::Lt => RelOp::Geq,
        RelOp::Leq => RelOp::Gt,
        RelOp::Gt => RelOp::Leq,
        RelOp::Geq => RelOp::Lt,
    }
}

/// Negation pushed inward: relations flip, De Morgan on `∧`/`∨`,
/// `¬¬P` is `P`, `¬(P ⇒ Q)` is `P ∧ ¬Q`; atoms get a `Not`.
pub open spec fn pred_negate(p: PredV) -> PredV
    decreases p,
{
    match p {
        PredV::True(id, sr) => PredV::False(id, sr),
        PredV::False(id, sr) => PredV::True(id, sr),
        PredV::Var(_, id, sr) => PredV::Not(Box::new(p), id, sr),
        PredV::UninterpFnCall(_, _, id, sr) => PredV::Not(Box::new(p), id, sr),
        PredV::BinRel(op, l, r, id, sr) => PredV::BinRel(negate_rel(op), l, r, id, sr),
        PredV::And(l, r, id, sr) => PredV::Or(Box::new(pred_negate(*l)), Box::new(pred_negate(*r)), id, sr),
        PredV::Or(l, r, id, sr) => PredV::And(Box::new(pred_negate(*l)), Box::new(pred_negate(*r)), id, sr),
        PredV::Not(q, _, _) => *q,
        PredV::Implies(l, r, id, sr) => PredV::And(l, Box::new(pred_negate(*r)), id, sr),
    }
}

/// Whether a relation holds between two integers.
pub open spec fn rel_holds(op: RelOp, a: int, b: int) -> bool {
    match op {
        RelOp::Eq => a == b,
        RelOp::Neq => a != b,
        RelOp::Lt => a < b,
        RelOp::Leq => a <= b,
        RelOp::Gt => a > b,
        RelOp::Geq => a >= b,
    }
}

/// The truth of a predicate, given the value of each expression and the
/// truth of each atom (a boolean variable or a function call).
pub open spec fn pred_holds(p: PredV, value: spec_fn(ExprV) -> int, atom: spec_fn(PredV) -> bool) -> bool
    decreases p,
{
    match p {
        PredV::True(..) => true,
        PredV::False(..) => false,
        PredV::Var(..) | PredV::UninterpFnCall(..) => atom(p),
        PredV::BinRel(op, l, r, _, _) => rel_holds(op, value(l), value(r)),
        PredV::And(l, r, _, _) => pred_holds(*l, value, atom) && pred_holds(*r, value, atom),
        PredV::Or(l, r, _, _) => pred_holds(*l, value, atom) || pred_holds(*r, value, atom),
        PredV::Implies(l, r, _, _) => pred_holds(*l, value, atom) ==> pred_holds(*r, value, atom),
        PredV::Not(q, _, _) => !pred_holds(*q, value, atom),
    }
}

/// The value of an arithmetic operation on two numbers.
pub open spec fn arith_value(op: ArithOp, a: int, b: int) -> int {
    match op {
        ArithOp::Add => a + b,
        ArithOp::Sub => a - b,
        ArithOp::Mul => a * b,
        ArithOp::Div => a / b,
        ArithOp::Mod => a % b,
    }
}

/// Whether `value` gives expressions their numbers under `env`, a number
/// for each name: an integer literal is its number, a variable its name's
/// number, an arithmetic operation or a negation that of its operands.
pub open spec fn valuation_of(value: spec_fn(ExprV) -> int, env: spec_fn(Seq<char>) -> int) -> bool {
    &&& forall|n: i64, id: NodeId, sr: SourceRef| #[trigger] value(ExprV::IntLit(n, id, sr)) == n as int
    &&& forall|n: Seq<char>, id: NodeId, sr: SourceRef| #[trigger] value(ExprV::Var(n, id, sr)) == env(n)
    &&& forall|op: ArithOp, l: Box<ExprV>, r: Box<ExprV>, id: NodeId, sr: SourceRef|
        #[trigger] value(ExprV::BinOp(op, l, r, id, sr)) == arith_value(op, value(*l), value(*r))
    &&& forall|x: Box<ExprV>, id: NodeId, sr: SourceRef| #[trigger] value(ExprV::UnaryOp(UnaryOp::Negate, x, id, sr)) == -value(*x)
}

/// Whether `atom` gives each boolean variable its truth under `truth`.
pub open spec fn atoms_of(atom: spec_fn(PredV) -> bool, truth: spec_fn(Seq<char>) -> bool) -> bool {
    forall|n: Seq<char>, id: NodeId, sr: SourceRef| #[trigger] atom(PredV::Var(n, id, sr)) == truth(n)
}

/// Negation means what it says: the negated predicate holds exactly when
/// the predicate does not, under any values of its expressions and atoms.
pub proof fn lemma_negate_semantics(p: PredV, value: spec_fn(ExprV) -> int, atom: spec_fn(PredV) -> bool)
    ensures
        pred_holds(pred_negate(p), value, atom) == !pred_holds(p, value, atom),
    decreases p,
{
    match p {
        PredV::And(l, r, _, _) | PredV::Or(l, r, _, _) => {
            lemma_negate_semantics(*l, value, atom);
            lemma_negate_semantics(*r, value, atom);
        },
        PredV::Implies(l, r, _, _) => {
            lemma_negate_semantics(*r, value, atom);
        },
        _ => {},
    }
}

/// Whether a predicate is built from constants, atoms and relations with
/// `∧` and `∨` only (no `¬`, no `⇒`).
pub open spec fn negation_free(p: PredV) -> bool
    decreases p,
{
    match p {
        PredV::And(l, r, _, _) | PredV::Or(l, r, _, _) => negation_free(*l) && negation_free(*r),
        PredV::Not(..) | PredV::Implies(..) => false,
        _ => true,
    }
}

/// Negating twice gives back a predicate built with `∧` and `∨` only.
pub proof fn lemma_negate_involutive(p: PredV)
    requires
        negation_free(p),
    ensures
        pred_negate(pred_negate(p)) == p,
    decreases p,
{
    match p {
        PredV::And(l, r, _, _) | PredV::Or(l, r, _, _) => {
            lemma_negate_involutive(*l);
            lemma_negate_involutive(*r);
        },
        PredV::BinRel(op, _, _, _, _) => {
            assert(negate_rel(negate_rel(op)) == op);
        },
        _ => {},
    }
}

// ---------------------------------------------------------------------------
// Executable operations
// ---------------------------------------------------------------------------

impl Clone for RefinementExpr {
    #[verifier::loop_isolation(false)]
    fn clone(&self) -> (r: Self)
        ensures
            r@ == self@,
        decreases *self,
    {
        match self {
            RefinementExpr::Var(n, id, sr) => RefinementExpr::Var(n.clone(), *id, *sr),
            RefinementExpr::IntLit(v, id, sr) => RefinementExpr::IntLit(*v, *id, *sr),
            RefinementExpr::AddressLit(a, id, sr) => RefinementExpr::AddressLit(a.clone(), *id, *sr),
            RefinementExpr::BoolLit(b, id, sr) => RefinementExpr::BoolLit(*b, *id, *sr),
            RefinementExpr::MsgSender(id, sr) => RefinementExpr::MsgSender(*id, *sr),
            RefinementExpr::MsgValue(id, sr) => RefinementExpr::MsgValue(*id, *sr),
            RefinementExpr::BlockTimestamp(id, sr) => RefinementExpr::BlockTimestamp(*id, *sr),
            RefinementExpr::BinOp { op, lhs, rhs, id, source_ref } => RefinementExpr::BinOp {
                op: *op,
                lhs: Box::new((**lhs).clone()),
                rhs: Box::new((**rhs).clone()),
                id: *id,
                source_ref: *source_ref,
            },
            RefinementExpr::UnaryOp { op, expr, id, source_ref } => RefinementExpr::UnaryOp {
                op: *op,
                expr: Box::new((**expr).clone()),
                id: *id,
                source_ref: *source_ref,
            },
            RefinementExpr::UninterpFn { name, args, id, source_ref } => {
                let out = clone_exprs(args);
                let r = RefinementExpr::UninterpFn { name: name.clone(), args: out, id: *id, source_ref: *source_ref };
                proof {
                    assert(r@ == self@) by {
                        if let ExprV::UninterpFn(_, ra, _, _) = r@ {
                            if let ExprV::UninterpFn(_, sa, _, _) = self@ {
                                assert(ra =~= sa);
                            }
                        }
                    }
                }
                r
            },
            RefinementExpr::Old { expr, id, source_ref } => RefinementExpr::Old {
                expr: Box::new((**expr).clone()),
                id: *id,
                source_ref: *source_ref,
            },
        }
    }
}

/// An element-by-element copy of an argument list.
pub fn clone_exprs(args: &Vec<RefinementExpr>) -> (r: Vec<RefinementExpr>)
    ensures
        r.len() == args.len(),
        forall|j: int| 0 <= j < args.len() ==> (#[trigger] r@[j])@ == args@[j]@,
        exprs_view(r@) == exprs_view(args@),
    decreases args,
{
    let mut out: Vec<RefinementExpr> = Vec::new();
    let mut i: usize = 0;
    while i < args.len()
        invariant
            i <= args.len(),
            out.len() == i,
            forall|j: int| 0 <= j < i ==> (#[trigger] out@[j])@ == args@[j]@,
        decreases args.len() - i,
    {
        proof {
            broadcast use vstd::std_specs::vec::group_vec_axioms;
            assert(decreases_to!(*args => args[i as int]));
        }
        out.push(args[i].clone());
        i = i + 1;
    }
    assert(exprs_view(out@) =~= exprs_view(args@));
    out
}

impl Clone for Predicate {
    fn clone(&self) -> (r: Self)
        ensures
            r@ == self@,
        decreases *self,
    {
        match self {
            Predicate::True(id, sr) => Predicate::True(*id, *sr),
            Predicate::False(id, sr) => Predicate::False(*id, *sr),
            Predicate::Var(n, id, sr) => Predicate::Var(n.clone(), *id, *sr),
            Predicate::UninterpFnCall { name, args, id, source_ref } => {
                let out = clone_exprs(args);
                let r = Predicate::UninterpFnCall { name: name.clone(), args: out, id: *id, source_ref: *source_ref };
                proof {
                    lemma_args_view(out);
                    lemma_args_view(*args);
                }
                r
            },
            Predicate::BinRel { op, lhs, rhs, id, source_ref } => Predicate::BinRel {
                op: *op,
                lhs: lhs.clone(),
                rhs: rhs.clone(),
                id: *id,
                source_ref: *source_ref,
            },
            Predicate::And(l, r, id, sr) => Predicate::And(Box::new((**l).clone()), Box::new((**r).clone()), *id, *sr),
            Predicate::Or(l, r, id, sr) => Predicate::Or(Box::new((**l).clone()), Box::new((**r).clone()), *id, *sr),
            Predicate::Not(q, id, sr) => Predicate::Not(Box::new((**q).clone()), *id, *sr),
            Predicate::Implies(l, r, id, sr) => Predicate::Implies(Box::new((**l).clone()), Box::new((**r).clone()), *id, *sr),
        }
    }
}

impl RefinementExpr {
    /// The node id of this expression.
    pub fn id(&self) -> (r: NodeId)
        ensures
            r == expr_id(self@),
    {
        match self {
            RefinementExpr::Var(_, id, _) => *id,
            RefinementExpr::IntLit(_, id, _) => *id,
            RefinementExpr::AddressLit(_, id, _) => *id,
            RefinementExpr::BoolLit(_, id, _) => *id,
            RefinementExpr::MsgSender(id, _) => *id,
            RefinementExpr::MsgValue(id, _) => *id,
            RefinementExpr::BlockTimestamp(id, _) => *id,
            RefinementExpr::BinOp { id, .. } => *id,
            RefinementExpr::UnaryOp { id, .. } => *id,
            RefinementExpr::UninterpFn { id, .. } => *id,
            RefinementExpr::Old { id, .. } => *id,
        }
    }

    /// The source position of this expression.
    pub fn source_ref(&self) -> (r: &SourceRef)
        ensures
            *r == expr_source_ref(self@),
    {
        match self {
            RefinementExpr::Var(_, _, sr) => sr,
            RefinementExpr::IntLit(_, _, sr) => sr,
            RefinementExpr::AddressLit(_, _, sr) => sr,
            RefinementExpr::BoolLit(_, _, sr) => sr,
            RefinementExpr::MsgSender(_, sr) => sr,
            RefinementExpr::MsgValue(_, sr) => sr,
            RefinementExpr::BlockTimestamp(_, sr) => sr,
            RefinementExpr::BinOp { source_ref, .. } => source_ref,
            RefinementExpr::UnaryOp { source_ref, .. } => source_ref,
            RefinementExpr::UninterpFn { source_ref, .. } => source_ref,
            RefinementExpr::Old { source_ref, .. } => source_ref,
        }
    }

    /// Whether an `old(..)` occurs anywhere in the expression.
    #[verifier::loop_isolation(false)]
    pub fn contains_old(&self) -> (r: bool)
        ensures
            r == expr_contains_old(self@),
        decreases *self,
    {
        match self {
            RefinementExpr::BinOp { lhs, rhs, .. } => lhs.contains_old() || rhs.contains_old(),
            RefinementExpr::UnaryOp { expr, .. } => expr.contains_old(),
            RefinementExpr::UninterpFn { args, .. } => {
                let mut i: usize = 0;
                while i < args.len()
                    invariant
                        i <= args.len(),
                        forall|j: int| 0 <= j < i ==> !expr_contains_old(#[trigger] args@[j]@),
                    decreases args.len() - i,
                {
                    proof {
                        broadcast use vstd::std_specs::vec::group_vec_axioms;
                        assert(decreases_to!(*args => args[i as int]));
                    }
                    if args[i].contains_old() {
                        proof {
                            if let ExprV::UninterpFn(_, sa, _, _) = self@ {
                                assert(sa[i as int] == args@[i as int]@);
                            }
                        }
                        return true;
                    }
                    i = i + 1;
                }
                proof {
                    if let ExprV::UninterpFn(_, sa, _, _) = self@ {
                        assert forall|j: int| 0 <= j < sa.len() implies !expr_contains_old(#[trigger] sa[j]) by {
                            assert(sa[j] == args@[j]@);
                        }
                    }
                }
                false
            },
            RefinementExpr::Old { .. } => true,
            _ => false,
        }
    }

    /// Renames variables through `stacks`; unmapped variables keep their name.
    #[verifier::loop_isolation(false)]
    pub fn substitute_vars(&self, stacks: &StrMap<String>) -> (r: RefinementExpr)
        ensures
            r@ == expr_rename(self@, stacks@),
        decreases *self,
    {
        match self {
            RefinementExpr::Var(var, node_id, source_ref) => {
                let key = var.as_str();
                match stacks.get(key) {
                    Some(new_var) => {
                        assert(key@ == var@);
                        let r = RefinementExpr::Var(new_var.clone(), *node_id, *source_ref);
                        assert(r@ == ExprV::Var(stacks@[var@], *node_id, *source_ref));
                        assert(self@ == ExprV::Var(var@, *node_id, *source_ref));
                        assert(rename(stacks@, var@) == stacks@[var@]);
                        assert(r@ == expr_rename(self@, stacks@));
                        r
                    },
                    None => {
                        let r = RefinementExpr::Var(var.clone(), *node_id, *source_ref);
                        assert(r@ == expr_rename(self@, stacks@));
                        r
                    },
                }
            },
            RefinementExpr::BinOp { op, lhs, rhs, id, source_ref } => {
                let l = lhs.substitute_vars(stacks);
                let rr = rhs.substitute_vars(stacks);
                let r = RefinementExpr::BinOp { op: *op, lhs: Box::new(l), rhs: Box::new(rr), id: *id, source_ref: *source_ref };
                assert(r@ == expr_rename(self@, stacks@));
                r
            },
            RefinementExpr::UnaryOp { op, expr, id, source_ref } => RefinementExpr::UnaryOp {
                op: *op,
                expr: Box::new(expr.substitute_vars(stacks)),
                id: *id,
                source_ref: *source_ref,
            },
            RefinementExpr::UninterpFn { name, args, id, source_ref } => {
                let mut out: Vec<RefinementExpr> = Vec::new();
                let mut i: usize = 0;
                while i < args.len()
                    invariant
                        i <= args.len(),
                        out.len() == i,
                        forall|j: int| 0 <= j < i ==> (#[trigger] out@[j])@ == expr_rename(args@[j]@, stacks@),
                    decreases args.len() - i,
                {
                    proof {
                        broadcast use vstd::std_specs::vec::group_vec_axioms;
                        assert(decreases_to!(*args => args[i as int]));
                    }
                    out.push(args[i].substitute_vars(stacks));
                    i = i + 1;
                }
                let r = RefinementExpr::UninterpFn { name: name.clone(), args: out, id: *id, source_ref: *source_ref };
                proof {
                    let sv = Seq::new(args.len() as nat, |k: int| if 0 <= k < args.len() { expr_view(args@[k]) } else { filler_expr() });
                    let rv = Seq::new(out.len() as nat, |k: int| if 0 <= k < out.len() { expr_view(out@[k]) } else { filler_expr() });
                    assert(self@->UninterpFn_1 =~= sv);
                    assert(r@->UninterpFn_1 =~= rv);
                    assert(rv =~= (expr_rename(self@, stacks@))->UninterpFn_1);
                }
                assert(r@ == expr_rename(self@, stacks@));
                r
            },
            RefinementExpr::Old { expr, id, source_ref } => RefinementExpr::Old {
                expr: Box::new(expr.substitute_vars(stacks)),
                id: *id,
                source_ref: *source_ref,
            },
            _ => {
                let r = self.clone();
                assert(r@ == expr_rename(self@, stacks@));
                r
            },
        }
    }

    /// Replaces variables by the expressions `mapping` gives them.
    #[verifier::loop_isolation(false)]
    pub fn substitute_exprs(&self, mapping: &StrMap<RefinementExpr>) -> (r: RefinementExpr)
        ensures
            r@ == expr_subst(self@, mapping@),
        decreases *self,
    {
        match self {
            RefinementExpr::Var(var, _, _) => {
                match mapping.get(var.as_str()) {
                    Some(replacement) => replacement.clone(),
                    None => self.clone(),
                }
            },
            RefinementExpr::BinOp { op, lhs, rhs, id, source_ref } => RefinementExpr::BinOp {
                op: *op,
                lhs: Box::new(lhs.substitute_exprs(mapping)),
                rhs: Box::new(rhs.substitute_exprs(mapping)),
                id: *id,
                source_ref: *source_ref,
            },
            RefinementExpr::UnaryOp { op, expr, id, source_ref } => RefinementExpr::UnaryOp {
                op: *op,
                expr: Box::new(expr.substitute_exprs(mapping)),
                id: *id,
                source_ref: *source_ref,
            },
            RefinementExpr::UninterpFn { name, args, id, source_ref } => {
                let out = subst_exprs_all(args, mapping);
                let r = RefinementExpr::UninterpFn { name: name.clone(), args: out, id: *id, source_ref: *source_ref };
                proof {
                    let sv = Seq::new(args.len() as nat, |k: int| if 0 <= k < args.len() { expr_view(args@[k]) } else { filler_expr() });
                    let rv = Seq::new(out.len() as nat, |k: int| if 0 <= k < out.len() { expr_view(out@[k]) } else { filler_expr() });
                    assert(self@->UninterpFn_1 =~= sv);
                    assert(r@->UninterpFn_1 =~= rv);
                    assert(rv =~= (expr_subst(self@, mapping@))->UninterpFn_1);
                }
                r
            },
            RefinementExpr::Old { expr, id, source_ref } => RefinementExpr::Old {
                expr: Box::new(expr.substitute_exprs(mapping)),
                id: *id,
                source_ref: *source_ref,
            },
            _ => self.clone(),
        }
    }

    /// The variables that occur in the expression.
    #[verifier::loop_isolation(false)]
    pub fn free_variables(&self) -> (r: StrSet)
        ensures
            r@ == expr_free_vars(self@),
        decreases *self,
    {
        match self {
            RefinementExpr::Var(name, _, _) => {
                let mut vars = StrSet::new();
                vars.insert(name.clone());
                proof {
                    assert(vars@ =~= set![name@]);
                }
                vars
            },
            RefinementExpr::BinOp { lhs, rhs, .. } => {
                let mut vars = lhs.free_variables();
                vars.extend(rhs.free_variables());
                vars
            },
            RefinementExpr::UnaryOp { expr, .. } => expr.free_variables(),
            RefinementExpr::UninterpFn { args, .. } => {
                let vars = free_variables_all(args);
                proof {
                    if let ExprV::UninterpFn(_, sa, _, _) = self@ {
                        assert forall|x: Seq<char>| vars@.contains(x) == expr_free_vars(self@).contains(x) by {
                            if vars@.contains(x) {
                                let j = choose|j: int| 0 <= j < args.len() && expr_free_vars(#[trigger] args@[j]@).contains(x);
                                assert(sa[j] == args@[j]@);
                            }
                            if expr_free_vars(self@).contains(x) {
                                let j = choose|j: int| 0 <= j < sa.len() && expr_free_vars(#[trigger] sa[j]).contains(x);
                                assert(sa[j] == args@[j]@);
                            }
                        }
                        assert(vars@ =~= expr_free_vars(self@));
                    }
                }
                vars
            },
            RefinementExpr::Old { expr, .. } => expr.free_variables(),
            _ => {
                let vars = StrSet::new();
                vars
            },
        }
    }
}

/// Substitutes in every expression of an argument list.
pub fn subst_exprs_all(args: &Vec<RefinementExpr>, mapping: &StrMap<RefinementExpr>) -> (r: Vec<RefinementExpr>)
    ensures
        r.len() == args.len(),
        forall|j: int| 0 <= j < args.len() ==> (#[trigger] r@[j])@ == expr_subst(args@[j]@, mapping@),
    decreases args,
{
    let mut out: Vec<RefinementExpr> = Vec::new();
    let mut i: usize = 0;
    while i < args.len()
        invariant
            i <= args.len(),
            out.len() == i,
            forall|j: int| 0 <= j < i ==> (#[trigger] out@[j])@ == expr_subst(args@[j]@, mapping@),
        decreases args.len() - i,
    {
        proof {
            broadcast use vstd::std_specs::vec::group_vec_axioms;
            assert(decreases_to!(*args => args[i as int]));
        }
        out.push(args[i].substitute_exprs(mapping));
        i = i + 1;
    }
    out
}

/// Renames in every expression of an argument list.
pub fn rename_all(args: &Vec<RefinementExpr>, stacks: &StrMap<String>) -> (r: Vec<RefinementExpr>)
    ensures
        r.len() == args.len(),
        forall|j: int| 0 <= j < args.len() ==> (#[trigger] r@[j])@ == expr_rename(args@[j]@, stacks@),
    decreases args,
{
    let mut out: Vec<RefinementExpr> = Vec::new();
    let mut i: usize = 0;
    while i < args.len()
        invariant
            i <= args.len(),
            out.len() == i,
            forall|j: int| 0 <= j < i ==> (#[trigger] out@[j])@ == expr_rename(args@[j]@, stacks@),
        decreases args.len() - i,
    {
        proof {
            broadcast use vstd::std_specs::vec::group_vec_axioms;
            assert(decreases_to!(*args => args[i as int]));
        }
        out.push(args[i].substitute_vars(stacks));
        i = i + 1;
    }
    out
}

/// The union of the free variables of an argument list.
pub fn free_variables_all(args: &Vec<RefinementExpr>) -> (r: StrSet)
    ensures
        forall|x: Seq<char>| #[trigger] r@.contains(x) <==> exists|j: int| 0 <= j < args.len() && expr_free_vars(#[trigger] args@[j]@).contains(x),
    decreases args,
{
    let mut vars = StrSet::new();
    let mut i: usize = 0;
    while i < args.len()
        invariant
            i <= args.len(),
            forall|x: Seq<char>| #[trigger] vars@.contains(x) <==> exists|j: int| 0 <= j < i && expr_free_vars(#[trigger] args@[j]@).contains(x),
        decreases args.len() - i,
    {
        proof {
            broadcast use vstd::std_specs::vec::group_vec_axioms;
            assert(decreases_to!(*args => args[i as int]));
        }
        let fv = args[i].free_variables();
        vars.extend(fv);
        proof {
            assert forall|x: Seq<char>| #[trigger] vars@.contains(x) <==> exists|j: int| 0 <= j < i + 1 && expr_free_vars(#[trigger] args@[j]@).contains(x) by {
                if exists|j: int| 0 <= j < i + 1 && expr_free_vars(#[trigger] args@[j]@).contains(x) {
                    let j = choose|j: int| 0 <= j < i + 1 && expr_free_vars(#[trigger] args@[j]@).contains(x);
                    if j < i {
                        assert(0 <= j < i && expr_free_vars(args@[j]@).contains(x));
                    }
                }
            }
        }
        i = i + 1;
    }
    vars
}


impl Predicate {
    /// The node id of this predicate.
    pub fn id(&self) -> (r: NodeId)
        ensures
            r == pred_id(self@),
    {
        match self {
            Predicate::True(id, _) => *id,
            Predicate::False(id, _) => *id,
            Predicate::Var(_, id, _) => *id,
            Predicate::UninterpFnCall { id, .. } => *id,
            Predicate::BinRel { id, .. } => *id,
            Predicate::And(_, _, id, _) => *id,
            Predicate::Or(_, _, id, _) => *id,
            Predicate::Not(_, id, _) => *id,
            Predicate::Implies(_, _, id, _) => *id,
        }
    }

    /// The source position of this predicate.
    pub fn source_ref(&self) -> (r: &SourceRef)
        ensures
            *r == pred_source_ref(self@),
    {
        match self {
            Predicate::True(_, sr) => sr,
            Predicate::False(_, sr) => sr,
            Predicate::Var(_, _, sr) => sr,
            Predicate::UninterpFnCall { source_ref, .. } => source_ref,
            Predicate::BinRel { source_ref, .. } => source_ref,
            Predicate::And(_, _, _, sr) => sr,
            Predicate::Or(_, _, _, sr) => sr,
            Predicate::Not(_, _, sr) => sr,
            Predicate::Implies(_, _, _, sr) => sr,
        }
    }

    /// Whether an `old(..)` occurs anywhere in the predicate.
    #[verifier::loop_isolation(false)]
    pub fn contains_old(&self) -> (r: bool)
        ensures
            r == pred_contains_old(self@),
        decreases *self,
    {
        match self {
            Predicate::True(_, _) | Predicate::False(_, _) | Predicate::Var(_, _, _) => false,
            Predicate::BinRel { lhs, rhs, .. } => lhs.contains_old() || rhs.contains_old(),
            Predicate::And(left, right, _, _) => left.contains_old() || right.contains_old(),
            Predicate::Or(left, right, _, _) => left.contains_old() || right.contains_old(),
            Predicate::Not(pred, _, _) => pred.contains_old(),
            Predicate::UninterpFnCall { args, .. } => {
                let mut i: usize = 0;
                while i < args.len()
                    invariant
                        i <= args.len(),
                        forall|j: int| 0 <= j < i ==> !expr_contains_old(#[trigger] args@[j]@),
                    decreases args.len() - i,
                {
                    if args[i].contains_old() {
                        proof {
                            assert(self@->UninterpFnCall_1[i as int] == args@[i as int]@);
                        }
                        return true;
                    }
                    i = i + 1;
                }
                proof {
                    let sa = self@->UninterpFnCall_1;
                    assert forall|j: int| 0 <= j < sa.len() implies !expr_contains_old(#[trigger] sa[j]) by {
                        assert(sa[j] == args@[j]@);
                    }
                }
                false
            },
            Predicate::Implies(left, right, _, _) => left.contains_old() || right.contains_old(),
        }
    }

    /// The logical negation, pushed inward (see `pred_negate`).
    pub fn negate(&self) -> (r: Predicate)
        ensures
            r@ == pred_negate(self@),
        decreases *self,
    {
        match self {
            Predicate::True(id, sr) => Predicate::False(*id, *sr),
            Predicate::False(id, sr) => Predicate::True(*id, *sr),
            Predicate::Var(_, id, sr) => Predicate::Not(Box::new(self.clone()), *id, *sr),
            Predicate::UninterpFnCall { id, source_ref, .. } => Predicate::Not(Box::new(self.clone()), *id, *source_ref),
            Predicate::BinRel { op, lhs, rhs, id, source_ref } => {
                let negated_op = match op {
                    RelOp::Eq => RelOp::Neq,
                    RelOp::Neq => RelOp::Eq,
                    RelOp::Lt => RelOp::Geq,
                    RelOp::Leq => RelOp::Gt,
                    RelOp::Gt => RelOp::Leq,
                    RelOp::Geq => RelOp::Lt,
                };
                Predicate::BinRel { op: negated_op, lhs: lhs.clone(), rhs: rhs.clone(), id: *id, source_ref: *source_ref }
            },
            Predicate::And(p, q, id, sr) => Predicate::Or(Box::new(p.negate()), Box::new(q.negate()), *id, *sr),
            Predicate::Or(p, q, id, sr) => Predicate::And(Box::new(p.negate()), Box::new(q.negate()), *id, *sr),
            Predicate::Not(p, _id, _sr) => (**p).clone(),
            Predicate::Implies(p, q, id, sr) => Predicate::And(Box::new((**p).clone()), Box::new(q.negate()), *id, *sr),
        }
    }

    /// Renames variables through `stacks`; unmapped variables keep their name.
    pub fn substitute_vars(&self, stacks: &StrMap<String>) -> (r: Predicate)
        ensures
            r@ == pred_rename(self@, stacks@),
        decreases *self,
    {
        match self {
            Predicate::True(node_id, source_ref) => Predicate::True(*node_id, *source_ref),
            Predicate::False(node_id, source_ref) => Predicate::False(*node_id, *source_ref),
            Predicate::Var(name, node_id, source_ref) => {
                let key = name.as_str();
                match stacks.get(key) {
                    Some(new_name) => Predicate::Var(new_name.clone(), *node_id, *source_ref),
                    None => Predicate::Var(name.clone(), *node_id, *source_ref),
                }
            },
            Predicate::UninterpFnCall { name, args, id, source_ref } => {
                let out = rename_all(args, stacks);
                let r = Predicate::UninterpFnCall { name: name.clone(), args: out, id: *id, source_ref: *source_ref };
                proof {
                    let sv = Seq::new(args.len() as nat, |k: int| if 0 <= k < args.len() { expr_view(args@[k]) } else { filler_expr() });
                    let rv = Seq::new(out.len() as nat, |k: int| if 0 <= k < out.len() { expr_view(out@[k]) } else { filler_expr() });
                    assert(self@->UninterpFnCall_1 =~= sv);
                    assert(r@->UninterpFnCall_1 =~= rv);
                    assert(rv =~= (pred_rename(self@, stacks@))->UninterpFnCall_1);
                }
                r
            },
            Predicate::BinRel { op, lhs, rhs, id, source_ref } => Predicate::BinRel {
                op: *op,
                lhs: lhs.substitute_vars(stacks),
                rhs: rhs.substitute_vars(stacks),
                id: *id,
                source_ref: *source_ref,
            },
            Predicate::And(left, right, node_id, source_ref) => Predicate::And(
                Box::new(left.substitute_vars(stacks)),
                Box::new(right.substitute_vars(stacks)),
                *node_id,
                *source_ref,
            ),
            Predicate::Or(left, right, node_id, source_ref) => Predicate::Or(
                Box::new(left.substitute_vars(stacks)),
                Box::new(right.substitute_vars(stacks)),
                *node_id,
                *source_ref,
            ),
            Predicate::Not(pred, node_id, source_ref) => Predicate::Not(Box::new(pred.substitute_vars(stacks)), *node_id, *source_ref),
            Predicate::Implies(left, right, node_id, source_ref) => Predicate::Implies(
                Box::new(left.substitute_vars(stacks)),
                Box::new(right.substitute_vars(stacks)),
                *node_id,
                *source_ref,
            ),
        }
    }

    /// The variables that occur in the predicate.
    pub fn free_variables(&self) -> (r: StrSet)
        ensures
            r@ == pred_free_vars(self@),
        decreases *self,
    {
        match self {
            Predicate::True(_, _) | Predicate::False(_, _) => StrSet::new(),
            Predicate::Var(name, _, _) => {
                let mut vars = StrSet::new();
                vars.insert(name.clone());
                proof {
                    assert(vars@ =~= set![name@]);
                }
                vars
            },
            Predicate::BinRel { lhs, rhs, .. } => {
                let mut vars = lhs.free_variables();
                vars.extend(rhs.free_variables());
                vars
            },
            Predicate::And(l, r, _, _) | Predicate::Or(l, r, _, _) | Predicate::Implies(l, r, _, _) => {
                let mut vars = l.free_variables();
                vars.extend(r.free_variables());
                vars
            },
            Predicate::Not(p, _, _) => p.free_variables(),
            Predicate::UninterpFnCall { args, .. } => {
                let vars = free_variables_all(args);
                proof {
                    let sa = self@->UninterpFnCall_1;
                    assert forall|x: Seq<char>| vars@.contains(x) == pred_free_vars(self@).contains(x) by {
                        if vars@.contains(x) {
                            let j = choose|j: int| 0 <= j < args.len() && expr_free_vars(#[trigger] args@[j]@).contains(x);
                            assert(sa[j] == args@[j]@);
                        }
                        if pred_free_vars(self@).contains(x) {
                            let j = choose|j: int| 0 <= j < sa.len() && expr_free_vars(#[trigger] sa[j]).contains(x);
                            assert(sa[j] == args@[j]@);
                        }
                    }
                    assert(vars@ =~= pred_free_vars(self@));
                }
                vars
            },
        }
    }

    /// Replaces variables by the expressions `mapping` gives them; a boolean
    /// variable mapped to a boolean literal becomes `true` or `false`.
    pub fn substitute_exprs(&self, mapping: &StrMap<RefinementExpr>) -> (r: Predicate)
        ensures
            r@ == pred_subst(self@, mapping@),
        decreases *self,
    {
        match self {
            Predicate::True(_, _) | Predicate::False(_, _) => self.clone(),
            Predicate::Var(name, node_id, source_ref) => {
                match mapping.get(name.as_str()) {
                    Some(expr) => match expr {
                        RefinementExpr::BoolLit(true, _, _) => Predicate::True(*node_id, *source_ref),
                        RefinementExpr::BoolLit(false, _, _) => Predicate::False(*node_id, *source_ref),
                        _ => Predicate::Var(name.clone(), *node_id, *source_ref),
                    },
                    None => self.clone(),
                }
            },
            Predicate::UninterpFnCall { name, args, id, source_ref } => {
                let out = subst_exprs_all(args, mapping);
                let r = Predicate::UninterpFnCall { name: name.clone(), args: out, id: *id, source_ref: *source_ref };
                proof {
                    let sv = Seq::new(args.len() as nat, |k: int| if 0 <= k < args.len() { expr_view(args@[k]) } else { filler_expr() });
                    let rv = Seq::new(out.len() as nat, |k: int| if 0 <= k < out.len() { expr_view(out@[k]) } else { filler_expr() });
                    assert(self@->UninterpFnCall_1 =~= sv);
                    assert(r@->UninterpFnCall_1 =~= rv);
                    assert(rv =~= (pred_subst(self@, mapping@))->UninterpFnCall_1);
                }
                r
            },
            Predicate::BinRel { op, lhs, rhs, id, source_ref } => Predicate::BinRel {
                op: *op,
                lhs: lhs.substitute_exprs(mapping),
                rhs: rhs.substitute_exprs(mapping),
                id: *id,
                source_ref: *source_ref,
            },
            Predicate::And(left, right, node_id, source_ref) => Predicate::And(
                Box::new(left.substitute_exprs(mapping)),
                Box::new(right.substitute_exprs(mapping)),
                *node_id,
                *source_ref,
            ),
            Predicate::Or(left, right, node_id, source_ref) => Predicate::Or(
                Box::new(left.substitute_exprs(mapping)),
                Box::new(right.substitute_exprs(mapping)),
                *node_id,
                *source_ref,
            ),
            Predicate::Not(pred, node_id, source_ref) => Predicate::Not(Box::new(pred.substitute_exprs(mapping)), *node_id, *source_ref),
            Predicate::Implies(left, right, node_id, source_ref) => Predicate::Implies(
                Box::new(left.substitute_exprs(mapping)),
                Box::new(right.substitute_exprs(mapping)),
                *node_id,
                *source_ref,
            ),
        }
    }
}

/// Structural equality of two expressions.
#[verifier::loop_isolation(false)]
pub fn expr_eq(a: &RefinementExpr, b: &RefinementExpr) -> (r: bool)
    ensures
        r == (a@ == b@),
    decreases *a,
{
    match (a, b) {
        (RefinementExpr::Var(n1, i1, s1), RefinementExpr::Var(n2, i2, s2)) => *n1 == *n2 && i1.0 == i2.0 && s1.start == s2.start && s1.end == s2.end,
        (RefinementExpr::IntLit(v1, i1, s1), RefinementExpr::IntLit(v2, i2, s2)) => *v1 == *v2 && i1.0 == i2.0 && s1.start == s2.start && s1.end == s2.end,
        (RefinementExpr::AddressLit(n1, i1, s1), RefinementExpr::AddressLit(n2, i2, s2)) => *n1 == *n2 && i1.0 == i2.0 && s1.start == s2.start && s1.end == s2.end,
        (RefinementExpr::BoolLit(v1, i1, s1), RefinementExpr::BoolLit(v2, i2, s2)) => *v1 == *v2 && i1.0 == i2.0 && s1.start == s2.start && s1.end == s2.end,
        (RefinementExpr::MsgSender(i1, s1), RefinementExpr::MsgSender(i2, s2)) => i1.0 == i2.0 && s1.start == s2.start && s1.end == s2.end,
        (RefinementExpr::MsgValue(i1, s1), RefinementExpr::MsgValue(i2, s2)) => i1.0 == i2.0 && s1.start == s2.start && s1.end == s2.end,
        (RefinementExpr::BlockTimestamp(i1, s1), RefinementExpr::BlockTimestamp(i2, s2)) => i1.0 == i2.0 && s1.start == s2.start && s1.end == s2.end,
        (RefinementExpr::BinOp { op: o1, lhs: l1, rhs: r1, id: i1, source_ref: s1 }, RefinementExpr::BinOp { op: o2, lhs: l2, rhs: r2, id: i2, source_ref: s2 }) => {
            arith_op_eq(*o1, *o2) && i1.0 == i2.0 && s1.start == s2.start && s1.end == s2.end && expr_eq(l1, l2) && expr_eq(r1, r2)
        },
        (RefinementExpr::UnaryOp { op: o1, expr: e1, id: i1, source_ref: s1 }, RefinementExpr::UnaryOp { op: o2, expr: e2, id: i2, source_ref: s2 }) => {
            i1.0 == i2.0 && s1.start == s2.start && s1.end == s2.end && expr_eq(e1, e2)
        },
        (RefinementExpr::UninterpFn { name: n1, args: a1, id: i1, source_ref: s1 }, RefinementExpr::UninterpFn { name: n2, args: a2, id: i2, source_ref: s2 }) => {
            if !(*n1 == *n2 && i1.0 == i2.0 && s1.start == s2.start && s1.end == s2.end && a1.len() == a2.len()) {
                proof {
                    assert(a@->UninterpFn_1.len() == a1.len());
                    assert(b@->UninterpFn_1.len() == a2.len());
                }
                return false;
            }
            let mut i: usize = 0;
            while i < a1.len()
                invariant
                    i <= a1.len(),
                    a1.len() == a2.len(),
                    forall|j: int| 0 <= j < i ==> (#[trigger] a1@[j])@ == a2@[j]@,
                decreases a1.len() - i,
            {
                proof {
                    broadcast use vstd::std_specs::vec::group_vec_axioms;
                    assert(decreases_to!(*a1 => a1[i as int]));
                }
                if !expr_eq(&a1[i], &a2[i]) {
                    proof {
                        assert(a@->UninterpFn_1[i as int] != b@->UninterpFn_1[i as int]);
                    }
                    return false;
                }
                i = i + 1;
            }
            proof {
                assert(a@->UninterpFn_1 =~= b@->UninterpFn_1);
            }
            true
        },
        (RefinementExpr::Old { expr: e1, id: i1, source_ref: s1 }, RefinementExpr::Old { expr: e2, id: i2, source_ref: s2 }) => {
            i1.0 == i2.0 && s1.start == s2.start && s1.end == s2.end && expr_eq(e1, e2)
        },
        _ => false,
    }
}

pub fn arith_op_eq(a: ArithOp, b: ArithOp) -> (r: bool)
    ensures
        r == (a == b),
{
    match (a, b) {
        (ArithOp::Add, ArithOp::Add) | (ArithOp::Sub, ArithOp::Sub) | (ArithOp::Mul, ArithOp::Mul) | (ArithOp::Div, ArithOp::Div) | (ArithOp::Mod, ArithOp::Mod) => true,
        _ => false,
    }
}

pub fn rel_op_eq(a: RelOp, b: RelOp) -> (r: bool)
    ensures
        r == (a == b),
{
    match (a, b) {
        (RelOp::Eq, RelOp::Eq) | (RelOp::Neq, RelOp::Neq) | (RelOp::Lt, RelOp::Lt) | (RelOp::Leq, RelOp::Leq) | (RelOp::Gt, RelOp::Gt) | (RelOp::Geq, RelOp::Geq) => true,
        _ => false,
    }
}

/// Structural equality of two predicates.
#[verifier::loop_isolation(false)]
pub fn pred_eq(a: &Predicate, b: &Predicate) -> (r: bool)
    ensures
        r == (a@ == b@),
    decreases *a,
{
    match (a, b) {
        (Predicate::True(i1, s1), Predicate::True(i2, s2)) => i1.0 == i2.0 && s1.start == s2.start && s1.end == s2.end,
        (Predicate::False(i1, s1), Predicate::False(i2, s2)) => i1.0 == i2.0 && s1.start == s2.start && s1.end == s2.end,
        (Predicate::Var(n1, i1, s1), Predicate::Var(n2, i2, s2)) => *n1 == *n2 && i1.0 == i2.0 && s1.start == s2.start && s1.end == s2.end,
        (Predicate::UninterpFnCall { name: n1, args: a1, id: i1, source_ref: s1 }, Predicate::UninterpFnCall { name: n2, args: a2, id: i2, source_ref: s2 }) => {
            if !(*n1 == *n2 && i1.0 == i2.0 && s1.start == s2.start && s1.end == s2.end && a1.len() == a2.len()) {
                proof {
                    assert(a@->UninterpFnCall_1.len() == a1.len());
                    assert(b@->UninterpFnCall_1.len() == a2.len());
                }
                return false;
            }
            let mut i: usize = 0;
            while i < a1.len()
                invariant
                    i <= a1.len(),
                    a1.len() == a2.len(),
                    forall|j: int| 0 <= j < i ==> (#[trigger] a1@[j])@ == a2@[j]@,
                decreases a1.len() - i,
            {
                if !expr_eq(&a1[i], &a2[i]) {
                    proof {
                        assert(a@->UninterpFnCall_1[i as int] != b@->UninterpFnCall_1[i as int]);
                    }
                    return false;
                }
                i = i + 1;
            }
            proof {
                assert(a@->UninterpFnCall_1 =~= b@->UninterpFnCall_1);
            }
            true
        },
        (Predicate::BinRel { op: o1, lhs: l1, rhs: r1, id: i1, source_ref: s1 }, Predicate::BinRel { op: o2, lhs: l2, rhs: r2, id: i2, source_ref: s2 }) => {
            rel_op_eq(*o1, *o2) && i1.0 == i2.0 && s1.start == s2.start && s1.end == s2.end && expr_eq(l1, l2) && expr_eq(r1, r2)
        },
        (Predicate::And(l1, r1, i1, s1), Predicate::And(l2, r2, i2, s2)) => i1.0 == i2.0 && s1.start == s2.start && s1.end == s2.end && pred_eq(l1, l2) && pred_eq(r1, r2),
        (Predicate::Or(l1, r1, i1, s1), Predicate::Or(l2, r2, i2, s2)) => i1.0 == i2.0 && s1.start == s2.start && s1.end == s2.end && pred_eq(l1, l2) && pred_eq(r1, r2),
        (Predicate::Implies(l1, r1, i1, s1), Predicate::Implies(l2, r2, i2, s2)) => i1.0 == i2.0 && s1.start == s2.start && s1.end == s2.end && pred_eq(l1, l2) && pred_eq(r1, r2),
        (Predicate::Not(q1, i1, s1), Predicate::Not(q2, i2, s2)) => i1.0 == i2.0 && s1.start == s2.start && s1.end == s2.end && pred_eq(q1, q2),
        _ => false,
    }
}

// ---------------------------------------------------------------------------
// Text
// ---------------------------------------------------------------------------

pub open spec fn rel_text(op: RelOp) -> Seq<char> {
    match op {
        RelOp::Eq => seq!['=', '='],
        RelOp::Neq => seq!['!', '='],
        RelOp::Lt => seq!['<'],
        RelOp::Leq => seq!['<', '='],
        RelOp::Gt => seq!['>'],
        RelOp::Geq => seq!['>', '='],
    }
}

pub open spec fn arith_text(op: ArithOp) -> Seq<char> {
    match op {
        ArithOp::Add => seq!['+'],
        ArithOp::Sub => seq!['-'],
        ArithOp::Mul => seq!['*'],
        ArithOp::Div => seq!['/'],
        ArithOp::Mod => seq!['%'],
    }
}

/// How each expression of a list is written.
pub open spec fn texts_of(args: Seq<ExprV>) -> Seq<Seq<char>>
    decreases args,
{
    Seq::new(args.len(), |i: int| if 0 <= i < args.len() { expr_text(args[i]) } else { Seq::empty() })
}

/// How an expression is written.
pub open spec fn expr_text(e: ExprV) -> Seq<char>
    decreases e,
{
    match e {
        ExprV::Var(n, _, _) => n,
        ExprV::IntLit(v, _, _) => signed_decimal(v as int),
        ExprV::AddressLit(a, _, _) => a,
        ExprV::BoolLit(b, _, _) => bool_text(b),
        ExprV::MsgSender(_, _) => seq!['m', 's', 'g', '.', 's', 'e', 'n', 'd', 'e', 'r'],
        ExprV::MsgValue(_, _) => seq!['m', 's', 'g', '.', 'v', 'a', 'l', 'u', 'e'],
        ExprV::BlockTimestamp(_, _) => seq!['b', 'l', 'o', 'c', 'k', '.', 't', 'i', 'm', 'e', 's', 't', 'a', 'm', 'p'],
        ExprV::BinOp(op, l, r, _, _) => seq!['('] + expr_text(*l) + seq![' '] + arith_text(op) + seq![' '] + expr_text(*r) + seq![')'],
        ExprV::UnaryOp(_, x, _, _) => seq!['-'] + expr_text(*x),
        ExprV::UninterpFn(n, args, _, _) => n + seq!['('] + join_comma(texts_of(args)) + seq![')'],
        ExprV::Old(x, _, _) => seq![' ', 'o', 'l', 'd', '('] + expr_text(*x) + seq![')'],
    }
}

/// How a predicate is written.
pub open spec fn pred_text(p: PredV) -> Seq<char>
    decreases p,
{
    match p {
        PredV::True(_, _) => bool_text(true),
        PredV::False(_, _) => bool_text(false),
        PredV::Var(n, _, _) => n,
        PredV::UninterpFnCall(n, args, _, _) => n + seq!['('] + join_comma(texts_of(args)) + seq![')'],
        PredV::BinRel(op, l, r, _, _) => expr_text(l) + seq![' '] + rel_text(op) + seq![' '] + expr_text(r),
        PredV::And(l, r, _, _) => seq!['('] + pred_text(*l) + seq![' ', '&', '&', ' '] + pred_text(*r) + seq![')'],
        PredV::Or(l, r, _, _) => seq!['('] + pred_text(*l) + seq![' ', '|', '|', ' '] + pred_text(*r) + seq![')'],
        PredV::Not(q, _, _) => seq!['!'] + pred_text(*q),
        PredV::Implies(l, r, _, _) => seq!['('] + pred_text(*l) + seq![' ', '=', '=', '>', ' '] + pred_text(*r) + seq![')'],
    }
}

impl RelOp {
    pub fn to_string(&self) -> (r: String)
        ensures
            r@ == rel_text(*self),
    {
        proof {
            reveal_strlit("==");
            reveal_strlit("!=");
            reveal_strlit("<");
            reveal_strlit("<=");
            reveal_strlit(">");
            reveal_strlit(">=");
            assert("=="@ =~= rel_text(RelOp::Eq));
            assert("!="@ =~= rel_text(RelOp::Neq));
            assert("<"@ =~= rel_text(RelOp::Lt));
            assert("<="@ =~= rel_text(RelOp::Leq));
            assert(">"@ =~= rel_text(RelOp::Gt));
            assert(">="@ =~= rel_text(RelOp::Geq));
        }
        match self {
            RelOp::Eq => String::from_str("=="),
            RelOp::Neq => String::from_str("!="),
            RelOp::Lt => String::from_str("<"),
            RelOp::Leq => String::from_str("<="),
            RelOp::Gt => String::from_str(">"),
            RelOp::Geq => String::from_str(">="),
        }
    }
}

impl ArithOp {
    pub fn to_string(&self) -> (r: String)
        ensures
            r@ == arith_text(*self),
    {
        proof {
            reveal_strlit("+");
            reveal_strlit("-");
            reveal_strlit("*");
            reveal_strlit("/");
            reveal_strlit("%");
            assert("+"@ =~= arith_text(ArithOp::Add));
            assert("-"@ =~= arith_text(ArithOp::Sub));
            assert("*"@ =~= arith_text(ArithOp::Mul));
            assert("/"@ =~= arith_text(ArithOp::Div));
            assert("%"@ =~= arith_text(ArithOp::Mod));
        }
        match self {
            ArithOp::Add => String::from_str("+"),
            ArithOp::Sub => String::from_str("-"),
            ArithOp::Mul => String::from_str("*"),
            ArithOp::Div => String::from_str("/"),
            ArithOp::Mod => String::from_str("%"),
        }
    }
}

/// The arguments written one after the other, separated by `, `.
#[verifier::loop_isolation(false)]
fn args_text(args: &Vec<RefinementExpr>) -> (r: String)
    ensures
        r@ == join_comma(texts_of(Seq::new(args.len() as nat, |i: int| if 0 <= i < args.len() { expr_view(args@[i]) } else { filler_expr() }))),
    decreases args, 1nat,
{
    proof {
        reveal_strlit(", ");
        assert(", "@ =~= seq![',', ' ']);
    }
    let ghost texts = texts_of(Seq::new(args.len() as nat, |i: int| if 0 <= i < args.len() { expr_view(args@[i]) } else { filler_expr() }));
    let mut out = String::new();
    let mut i: usize = 0;
    proof {
        assert(texts.subrange(0, 0) =~= Seq::<Seq<char>>::empty());
    }
    while i < args.len()
        invariant
            i <= args.len(),
            out@ == join_comma(texts.subrange(0, i as int)),
        decreases args.len() - i,
    {
        proof {
            broadcast use vstd::std_specs::vec::group_vec_axioms;
            assert(decreases_to!(*args => args[i as int]));
        }
        let t = args[i].to_string();
        proof {
            assert(texts[i as int] == t@);
        }
        if i > 0 {
            out.append(", ");
        }
        out.append(t.as_str());
        proof {
            let sub = texts.subrange(0, i + 1);
            assert(sub.drop_last() =~= texts.subrange(0, i as int));
            if i == 0 {
                assert(out@ =~= sub[0]);
            }
        }
        i = i + 1;
    }
    proof {
        assert(texts.subrange(0, args.len() as int) =~= texts);
    }
    out
}

impl RefinementExpr {
    /// How the expression is written.
    #[verifier::loop_isolation(false)]
    pub fn to_string(&self) -> (r: String)
        ensures
            r@ == expr_text(self@),
        decreases *self, 0nat,
    {
        proof {
            reveal_strlit("msg.sender");
            reveal_strlit("msg.value");
            reveal_strlit("block.timestamp");
            reveal_strlit("(");
            reveal_strlit(")");
            reveal_strlit(" ");
            reveal_strlit("-");
            reveal_strlit(" old(");
            assert("msg.sender"@ =~= expr_text(ExprV::MsgSender(NodeId(0), SourceRef { start: 0, end: 0 })));
            assert("msg.value"@ =~= expr_text(ExprV::MsgValue(NodeId(0), SourceRef { start: 0, end: 0 })));
            assert("block.timestamp"@ =~= expr_text(ExprV::BlockTimestamp(NodeId(0), SourceRef { start: 0, end: 0 })));
            assert("("@ =~= seq!['(']);
            assert(")"@ =~= seq![')']);
            assert(" "@ =~= seq![' ']);
            assert("-"@ =~= seq!['-']);
            assert(" old("@ =~= seq![' ', 'o', 'l', 'd', '(']);
        }
        let r = match self {
            RefinementExpr::Var(n, _, _) => n.clone(),
            RefinementExpr::IntLit(v, _, _) => i64_to_string(*v),
            RefinementExpr::AddressLit(a, _, _) => a.clone(),
            RefinementExpr::BoolLit(b, _, _) => bool_to_string(*b),
            RefinementExpr::MsgSender(_, _) => String::from_str("msg.sender"),
            RefinementExpr::MsgValue(_, _) => String::from_str("msg.value"),
            RefinementExpr::BlockTimestamp(_, _) => String::from_str("block.timestamp"),
            RefinementExpr::BinOp { op, lhs, rhs, .. } => {
                let l = lhs.to_string();
                let o = op.to_string();
                let r = rhs.to_string();
                let out = String::from_str("(").concat(l.as_str()).concat(" ").concat(o.as_str()).concat(" ").concat(r.as_str()).concat(")");
                assert(out@ == expr_text(self@));
                out
            },
            RefinementExpr::UnaryOp { expr, .. } => {
                let x = expr.to_string();
                let out = String::from_str("-").concat(x.as_str());
                assert(out@ == expr_text(self@));
                out
            },
            RefinementExpr::UninterpFn { name, args, .. } => {
                let a = args_text(args);
                proof {
                    assert(self@->UninterpFn_1 =~= Seq::new(args.len() as nat, |i: int| if 0 <= i < args.len() { expr_view(args@[i]) } else { filler_expr() }));
                }
                let out = name.clone().concat("(").concat(a.as_str()).concat(")");
                assert(out@ == expr_text(self@));
                out
            },
            RefinementExpr::Old { expr, .. } => {
                let x = expr.to_string();
                let out = String::from_str(" old(").concat(x.as_str()).concat(")");
                assert(out@ == expr_text(self@));
                out
            },
        };
        r
    }
}

impl Predicate {
    /// How the predicate is written.
    pub fn to_string(&self) -> (r: String)
        ensures
            r@ == pred_text(self@),
        decreases *self,
    {
        proof {
            reveal_strlit("(");
            reveal_strlit(")");
            reveal_strlit(" ");
            reveal_strlit(" && ");
            reveal_strlit(" || ");
            reveal_strlit(" ==> ");
            reveal_strlit("!");
            assert("("@ =~= seq!['(']);
            assert(")"@ =~= seq![')']);
            assert(" "@ =~= seq![' ']);
            assert(" && "@ =~= seq![' ', '&', '&', ' ']);
            assert(" || "@ =~= seq![' ', '|', '|', ' ']);
            assert(" ==> "@ =~= seq![' ', '=', '=', '>', ' ']);
            assert("!"@ =~= seq!['!']);
        }
        match self {
            Predicate::True(_, _) => bool_to_string(true),
            Predicate::False(_, _) => bool_to_string(false),
            Predicate::Var(n, _, _) => n.clone(),
            Predicate::UninterpFnCall { name, args, .. } => {
                let a = args_text(args);
                proof {
                    assert(self@->UninterpFnCall_1 =~= Seq::new(args.len() as nat, |i: int| if 0 <= i < args.len() { expr_view(args@[i]) } else { filler_expr() }));
                }
                name.clone().concat("(").concat(a.as_str()).concat(")")
            },
            Predicate::BinRel { op, lhs, rhs, .. } => {
                let l = lhs.to_string();
                let o = op.to_string();
                let r = rhs.to_string();
                l.concat(" ").concat(o.as_str()).concat(" ").concat(r.as_str())
            },
            Predicate::And(l, r, _, _) => {
                let a = l.to_string();
                let b = r.to_string();
                String::from_str("(").concat(a.as_str()).concat(" && ").concat(b.as_str()).concat(")")
            },
            Predicate::Or(l, r, _, _) => {
                let a = l.to_string();
                let b = r.to_string();
                String::from_str("(").concat(a.as_str()).concat(" || ").concat(b.as_str()).concat(")")
            },
            Predicate::Not(q, _, _) => {
                let a = q.to_string();
                String::from_str("!").concat(a.as_str())
            },
            Predicate::Implies(l, r, _, _) => {
                let a = l.to_string();
                let b = r.to_string();
                String::from_str("(").concat(a.as_str()).concat(" ==> ").concat(b.as_str()).concat(")")
            },
        }
    }
}

} // verus!
