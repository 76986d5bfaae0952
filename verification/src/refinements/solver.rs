use vstd::prelude::*;
use vstd::string::StringExecFns;

use z3::Context;

use crate::ast::expression::{BinaryOperator, UnaryOperator, comparison_holds, arithmetic_result, is_comparison, is_arithmetic};
use crate::ast::meta::SourceRef;
use crate::ast::node_id::NodeId;
use crate::ast::predicate::{ArithOp, ExprV, PredV, Predicate, RefinementExpr, RelOp, UnaryOp, pred_holds, valuation_of, atoms_of};
use crate::ast::types::base_type_eq;
use crate::names::{StrSet, str_eq};
use crate::refinements::constraints::{Constraint, ConstraintSet, ConstraintV, TypeContext, TypeContextV, lookup_binding, constraints_view, preds_view};
use crate::refinements::qualifiers::{QualifierSet, syn_id, unknown_ref, self_name, nu_name};
use crate::refinements::smt::{SmtSolver, SmtResult, CachedQuery, cache_find, translatable};
use crate::refinements::templates::{LiquidAssignment, LiquidVar, Template, TemplateV, template_text, rebind};
use crate::ast::predicate::pred_text;
use crate::names::decimal;

verus! {

/// Why solving failed.
#[derive(Debug)]
pub enum SolverError {
    UnsatisfiableConstraint { constraint: String, reason: String },
    TypeMismatch { message: String },
    Timeout { constraint: String },
    InternalError { message: String },
    UnsatisfiableEnsures { message: String },
}

impl SolverError {
    /// The message of the error.
    pub fn to_string(&self) -> (r: String)
        ensures
            match self {
                SolverError::UnsatisfiableConstraint { constraint, reason } => r@ == "Unsatisfiable constraint: "@ + constraint@ + " ("@ + reason@ + ")"@,
                SolverError::Timeout { constraint } => r@ == "SMT solver timeout on: "@ + constraint@,
                SolverError::InternalError { message } => r@ == "Internal solver error: "@ + message@,
                SolverError::UnsatisfiableEnsures { message } => r@ == "Unsatisfiable ensures: "@ + message@,
                SolverError::TypeMismatch { message } => r@ == "Type mismatch: "@ + message@,
            },
    {
        match self {
            SolverError::UnsatisfiableConstraint { constraint, reason } => String::from_str("Unsatisfiable constraint: ").concat(
                constraint.as_str(),
            ).concat(" (").concat(reason.as_str()).concat(")"),
            SolverError::Timeout { constraint } => String::from_str("SMT solver timeout on: ").concat(constraint.as_str()),
            SolverError::InternalError { message } => String::from_str("Internal solver error: ").concat(message.as_str()),
            SolverError::UnsatisfiableEnsures { message } => String::from_str("Unsatisfiable ensures: ").concat(message.as_str()),
            SolverError::TypeMismatch { message } => String::from_str("Type mismatch: ").concat(message.as_str()),
        }
    }
}

// ---------------------------------------------------------------------------
// The facts the checks are built from
// ---------------------------------------------------------------------------

/// Whether the context's assumptions and the two predicates can all be put
/// to the solver.
pub open spec fn context_translatable(ctx: TypeContextV, antecedent: PredV, consequent: PredV) -> bool {
    &&& forall|j: int| 0 <= j < ctx.assumptions.len() ==> translatable(#[trigger] ctx.assumptions[j])
    &&& translatable(antecedent)
    &&& translatable(consequent)
}

/// What a binding tells the solver: the refinement of a given template
/// that is not boolean, read of the register it is bound to.
pub open spec fn binding_facts(b: Seq<(Seq<char>, TemplateV)>) -> Seq<PredV>
    decreases b.len(),
{
    if b.len() == 0 {
        Seq::empty()
    } else {
        let rest = binding_facts(b.drop_last());
        let e = b.last();
        match rebind(e.1, e.0) {
            TemplateV::Concrete { base, refinement, .. } => if base is Bool {
                rest
            } else {
                rest.push(refinement)
            },
            TemplateV::Liquid { .. } => rest,
        }
    }
}

/// The facts a context puts to the solver: its assumptions, then what its
/// bindings tell.
pub open spec fn context_facts_spec(ctx: TypeContextV) -> Seq<PredV> {
    ctx.assumptions + binding_facts(ctx.bindings)
}

/// Whether the record of queries holds `facts ∧ antecedent ⇒ consequent`
/// with the answer `valid` (the solver found the negation unsatisfiable).
pub open spec fn answered(q: Seq<CachedQuery>, facts: Seq<PredV>, antecedent: PredV, consequent: PredV, valid: bool) -> bool {
    exists|i: int|
        0 <= i < q.len() && (#[trigger] q[i]).0 == facts && q[i].1 == antecedent && q[i].2 == consequent && (q[i].3
            == SmtResult::Unsatisfiable) == valid
}

/// What a check of `Γ ∧ antecedent ⇒ consequent` gives: `true` without a
/// query when the consequent is `true` or the antecedent `false`; else the
/// answer recorded for the query of the context's facts.
pub open spec fn implication_answer(q: Seq<CachedQuery>, ctx: TypeContextV, antecedent: PredV, consequent: PredV, valid: bool) -> bool {
    if consequent is True || antecedent is False {
        valid
    } else {
        answered(q, context_facts_spec(ctx), antecedent, consequent, valid)
    }
}

pub open spec fn true_pred() -> PredV {
    PredV::True(syn_id(), unknown_ref())
}

pub open spec fn var_expr(n: Seq<char>) -> ExprV {
    ExprV::Var(n, syn_id(), unknown_ref())
}

pub open spec fn var_pred(n: Seq<char>) -> PredV {
    PredV::Var(n, syn_id(), unknown_ref())
}

pub open spec fn and_pred(a: PredV, b: PredV) -> PredV {
    PredV::And(Box::new(a), Box::new(b), syn_id(), unknown_ref())
}

pub open spec fn implies_pred(a: PredV, b: PredV) -> PredV {
    PredV::Implies(Box::new(a), Box::new(b), syn_id(), unknown_ref())
}

/// `(a ⇒ b) ∧ (b ⇒ a)`.
pub open spec fn iff_pred(a: PredV, b: PredV) -> PredV {
    and_pred(implies_pred(a, b), implies_pred(b, a))
}

pub open spec fn binary_arith(op: BinaryOperator) -> Option<ArithOp> {
    match op {
        BinaryOperator::Add => Some(ArithOp::Add),
        BinaryOperator::Subtract => Some(ArithOp::Sub),
        BinaryOperator::Multiply => Some(ArithOp::Mul),
        BinaryOperator::Divide => Some(ArithOp::Div),
        BinaryOperator::Modulo => Some(ArithOp::Mod),
        _ => None,
    }
}

pub open spec fn binary_rel(op: BinaryOperator) -> Option<RelOp> {
    match op {
        BinaryOperator::Equal => Some(RelOp::Eq),
        BinaryOperator::NotEqual => Some(RelOp::Neq),
        BinaryOperator::Less => Some(RelOp::Lt),
        BinaryOperator::LessEqual => Some(RelOp::Leq),
        BinaryOperator::Greater => Some(RelOp::Gt),
        BinaryOperator::GreaterEqual => Some(RelOp::Geq),
        _ => None,
    }
}

/// What a binary operation says of its result: `res = l ⊗ r` for
/// arithmetic, `res ⇔ (l rel r)` for comparisons, `res ⇔ (l ∧ r)` and
/// `res ⇔ (l ∨ r)` for the connectives.
pub open spec fn arithmetic_relation(op: BinaryOperator, l: Seq<char>, r: Seq<char>, res: Seq<char>) -> PredV {
    match binary_arith(op) {
        Some(a) => PredV::BinRel(
            RelOp::Eq,
            var_expr(res),
            ExprV::BinOp(a, Box::new(var_expr(l)), Box::new(var_expr(r)), syn_id(), unknown_ref()),
            syn_id(),
            unknown_ref(),
        ),
        None => match binary_rel(op) {
            Some(rel) => iff_pred(var_pred(res), PredV::BinRel(rel, var_expr(l), var_expr(r), syn_id(), unknown_ref())),
            None => if op == BinaryOperator::LogicalAnd {
                iff_pred(var_pred(res), and_pred(var_pred(l), var_pred(r)))
            } else {
                iff_pred(var_pred(res), PredV::Or(Box::new(var_pred(l)), Box::new(var_pred(r)), syn_id(), unknown_ref()))
            },
        },
    }
}

/// What a unary operation says of its result: `res = -x`, or
/// `(res ⇒ ¬x) ∧ (¬res ⇒ x)` for negation of a boolean.
pub open spec fn unary_relation(op: UnaryOperator, x: Seq<char>, res: Seq<char>) -> PredV {
    match op {
        UnaryOperator::Negate => PredV::BinRel(
            RelOp::Eq,
            var_expr(res),
            ExprV::UnaryOp(UnaryOp::Negate, Box::new(var_expr(x)), syn_id(), unknown_ref()),
            syn_id(),
            unknown_ref(),
        ),
        UnaryOperator::Not => and_pred(
            implies_pred(var_pred(res), PredV::Not(Box::new(var_pred(x)), syn_id(), unknown_ref())),
            implies_pred(PredV::Not(Box::new(var_pred(res)), syn_id(), unknown_ref()), var_pred(x)),
        ),
    }
}

/// What an operation says of its result means the operation: with numbers
/// and truths for the names, it holds exactly when the result is the
/// arithmetic on the operands, or is true exactly when the comparison or
/// the connective of the operands holds; likewise for `-` and `!`.
pub proof fn lemma_operation_relation_meaning(
    op: BinaryOperator,
    uop: UnaryOperator,
    l: Seq<char>,
    r: Seq<char>,
    res: Seq<char>,
    value: spec_fn(ExprV) -> int,
    env: spec_fn(Seq<char>) -> int,
    atom: spec_fn(PredV) -> bool,
    truth: spec_fn(Seq<char>) -> bool,
)
    requires
        valuation_of(value, env),
        atoms_of(atom, truth),
    ensures
        is_arithmetic(op) ==> (pred_holds(arithmetic_relation(op, l, r, res), value, atom) <==> env(res) == arithmetic_result(op, env(l), env(r))),
        is_comparison(op) ==> (pred_holds(arithmetic_relation(op, l, r, res), value, atom) <==> (truth(res) <==> comparison_holds(
            op,
            env(l),
            env(r),
        ))),
        op == BinaryOperator::LogicalAnd ==> (pred_holds(arithmetic_relation(op, l, r, res), value, atom) <==> (truth(res) <==> truth(l)
            && truth(r))),
        op == BinaryOperator::LogicalOr ==> (pred_holds(arithmetic_relation(op, l, r, res), value, atom) <==> (truth(res) <==> truth(l)
            || truth(r))),
        uop == UnaryOperator::Negate ==> (pred_holds(unary_relation(uop, l, res), value, atom) <==> env(res) == -env(l)),
        uop == UnaryOperator::Not ==> (pred_holds(unary_relation(uop, l, res), value, atom) <==> (truth(res) <==> !truth(l))),
{
    assert(value(var_expr(l)) == env(l));
    assert(value(var_expr(r)) == env(r));
    assert(value(var_expr(res)) == env(res));
    assert(atom(var_pred(l)) == truth(l));
    assert(atom(var_pred(r)) == truth(r));
    assert(atom(var_pred(res)) == truth(res));
    reveal_with_fuel(pred_holds, 4);
}

/// `p₁ ∧ p₂`, leaving out a conjunct that is `true`.
pub open spec fn conjoin_spec(p1: PredV, p2: PredV) -> PredV {
    if p1 is True {
        p2
    } else if p2 is True {
        p1
    } else {
        and_pred(p1, p2)
    }
}

/// The predicate a template stands for under an assignment: a liquid
/// variable's assigned predicate (`true` if it has none), or the given
/// refinement.
pub open spec fn template_pred(t: TemplateV, a: Map<LiquidVar, PredV>) -> PredV {
    match t {
        TemplateV::Liquid { liquid_var, .. } => if a.dom().contains(liquid_var) { a[liquid_var] } else { true_pred() },
        TemplateV::Concrete { refinement, .. } => refinement,
    }
}

/// The variables a well-formedness check looks at in an expression: named
/// variables other than `v`, through arithmetic and function arguments.
pub open spec fn wf_expr_vars(e: ExprV) -> Set<Seq<char>>
    decreases e,
{
    match e {
        ExprV::Var(n, _, _) => if n == seq!['v'] { Set::empty() } else { set![n] },
        ExprV::BinOp(_, l, r, _, _) => wf_expr_vars(*l).union(wf_expr_vars(*r)),
        ExprV::UnaryOp(_, x, _, _) => wf_expr_vars(*x),
        ExprV::UninterpFn(_, args, _, _) => wf_args_vars(args),
        _ => Set::empty(),
    }
}

/// The variables of a list of arguments.
pub open spec fn wf_args_vars(args: Seq<ExprV>) -> Set<Seq<char>>
    decreases args,
{
    if args.len() == 0 {
        Set::empty()
    } else {
        wf_args_vars(args.drop_last()).union(wf_expr_vars(args.last()))
    }
}

/// The variables a well-formedness check looks at in a predicate: boolean
/// variables other than `ν` and the variables of relations, through the
/// connectives.
pub open spec fn wf_pred_vars(p: PredV) -> Set<Seq<char>>
    decreases p,
{
    match p {
        PredV::Var(n, _, _) => if n == nu_name() { Set::empty() } else { set![n] },
        PredV::BinRel(_, l, r, _, _) => wf_expr_vars(l).union(wf_expr_vars(r)),
        PredV::And(l, r, _, _) | PredV::Or(l, r, _, _) | PredV::Implies(l, r, _, _) => wf_pred_vars(*l).union(wf_pred_vars(*r)),
        PredV::Not(q, _, _) => wf_pred_vars(*q),
        _ => Set::empty(),
    }
}

/// Whether the variables of a template's given refinement are bound in the
/// context (a liquid template always is).
pub open spec fn well_formed_in(ctx: TypeContextV, t: TemplateV) -> bool {
    match t {
        TemplateV::Concrete { refinement, .. } => forall|n: Seq<char>|
            #[trigger] wf_pred_vars(refinement).contains(n) ==> lookup_binding(ctx.bindings, n) is Some,
        TemplateV::Liquid { .. } => true,
    }
}

pub open spec fn template_lvars(t: TemplateV) -> Set<LiquidVar> {
    match t {
        TemplateV::Liquid { liquid_var, .. } => set![liquid_var],
        TemplateV::Concrete { .. } => Set::empty(),
    }
}

/// The liquid variables a constraint mentions in its templates.
pub open spec fn constraint_lvars(c: ConstraintV) -> Set<LiquidVar> {
    match c {
        ConstraintV::Subtype(_, sub, sup, _) => template_lvars(sub).union(template_lvars(sup)),
        ConstraintV::BinaryOp(_, _, l, r, res, _) => template_lvars(l).union(template_lvars(r)).union(template_lvars(res)),
        ConstraintV::UnaryOp(_, _, x, res, _) => template_lvars(x).union(template_lvars(res)),
        ConstraintV::WellFormed(_, t, _) => template_lvars(t),
        _ => Set::empty(),
    }
}

/// The liquid variables of all constraints.
pub open spec fn all_lvars(cs: Seq<ConstraintV>) -> Set<LiquidVar> {
    Set::new(|v: LiquidVar| exists|i: int| 0 <= i < cs.len() && (#[trigger] constraint_lvars(cs[i])).contains(v))
}

pub open spec fn same_kind(t1: TemplateV, t2: TemplateV) -> bool {
    t1.base() == t2.base() && match (t1, t2) {
        (TemplateV::Liquid { liquid_var: a, .. }, TemplateV::Liquid { liquid_var: b, .. }) => a == b,
        (TemplateV::Concrete { .. }, TemplateV::Concrete { .. }) => true,
        _ => false,
    }
}

/// Whether two constraints are of one variant with templates of one kind
/// and the same liquid variables.
pub open spec fn same_shape(c1: ConstraintV, c2: ConstraintV) -> bool {
    match (c1, c2) {
        (ConstraintV::Subtype(_, a1, b1, _), ConstraintV::Subtype(_, a2, b2, _)) => same_kind(a1, a2) && same_kind(b1, b2),
        (ConstraintV::BinaryOp(_, _, l1, r1, x1, _), ConstraintV::BinaryOp(_, _, l2, r2, x2, _)) => same_kind(l1, l2) && same_kind(r1, r2)
            && same_kind(x1, x2),
        (ConstraintV::UnaryOp(_, _, a1, x1, _), ConstraintV::UnaryOp(_, _, a2, x2, _)) => same_kind(a1, a2) && same_kind(x1, x2),
        (ConstraintV::WellFormed(_, t1, _), ConstraintV::WellFormed(_, t2, _)) => same_kind(t1, t2),
        (ConstraintV::Requires(..), ConstraintV::Requires(..)) => true,
        (ConstraintV::Ensures(..), ConstraintV::Ensures(..)) => true,
        (ConstraintV::LoopInvariantEntry(..), ConstraintV::LoopInvariantEntry(..)) => true,
        (ConstraintV::LoopInvariantPreservation(..), ConstraintV::LoopInvariantPreservation(..)) => true,
        (ConstraintV::LoopVariantNonNegative(..), ConstraintV::LoopVariantNonNegative(..)) => true,
        (ConstraintV::LoopVariantDecreases(..), ConstraintV::LoopVariantDecreases(..)) => true,
        (ConstraintV::Fold(..), ConstraintV::Fold(..)) => true,
        _ => false,
    }
}

/// Whether a failed subtyping is repaired by passing what its supertype
/// demands back to its subtype: the subtype is liquid, of the supertype's
/// base type.
pub open spec fn demand_passes_back(c: ConstraintV) -> bool {
    c matches ConstraintV::Subtype(_, sub, sup, _) && sub is Liquid && sub.base() == sup.base()
}

/// The antecedent of a binary operation's check: the operands' predicates
/// and what the operation says of its result.
pub open spec fn binary_antecedent(op: BinaryOperator, l: TemplateV, r: TemplateV, res: TemplateV, a: Map<LiquidVar, PredV>) -> PredV {
    and_pred(template_pred(l, a), and_pred(template_pred(r, a), arithmetic_relation(op, l.binder(), r.binder(), res.binder())))
}

/// The antecedent of a unary operation's check.
pub open spec fn unary_antecedent(op: UnaryOperator, x: TemplateV, res: TemplateV, a: Map<LiquidVar, PredV>) -> PredV {
    and_pred(template_pred(x, a), unary_relation(op, x.binder(), res.binder()))
}

/// `__self = n`.
pub open spec fn self_is(n: Seq<char>) -> PredV {
    PredV::BinRel(RelOp::Eq, var_expr(self_name()), var_expr(n), syn_id(), unknown_ref())
}

/// The antecedent of a subtyping's check: the subtype's predicate read
/// with `__self`, and, when it was read with a register, that `__self` is
/// that register.
pub open spec fn subtype_antecedent(sub: TemplateV, a: Map<LiquidVar, PredV>) -> PredV {
    let p = template_pred(rebind(sub, self_name()), a);
    if sub.binder() == self_name() {
        p
    } else {
        and_pred(p, self_is(sub.binder()))
    }
}

/// What the check of `sub <: sup` gives: `false` across base types; else
/// the answer to the implication of the supertype's predicate (read with
/// `__self`) by the subtype's antecedent.
pub open spec fn subtype_answer(q: Seq<CachedQuery>, ctx: TypeContextV, sub: TemplateV, sup: TemplateV, a: Map<LiquidVar, PredV>, valid: bool) -> bool {
    if sub.base() != sup.base() {
        !valid
    } else {
        implication_answer(q, ctx, subtype_antecedent(sub, a), template_pred(rebind(sup, self_name()), a), valid)
    }
}

/// `v ≥ 0`.
pub open spec fn non_negative(v: ExprV) -> PredV {
    PredV::BinRel(RelOp::Geq, v, ExprV::IntLit(0, syn_id(), unknown_ref()), syn_id(), unknown_ref())
}

/// What the check of a constraint gives under the assignment `a`, the
/// solver's answers being those recorded in `q`: a well-formedness check
/// whether the template is well formed, a decrease of a variant `true`, a
/// subtyping or an operation the answer to its implication, and each
/// other constraint the answer to `Γ ⊢ P` for the predicate it checks.
pub open spec fn check_answer(c: ConstraintV, a: Map<LiquidVar, PredV>, q: Seq<CachedQuery>, valid: bool) -> bool {
    match c {
        ConstraintV::WellFormed(ctx, t, _) => valid == well_formed_in(ctx, t),
        ConstraintV::LoopVariantDecreases(..) => valid,
        ConstraintV::Subtype(ctx, sub, sup, _) => subtype_answer(q, ctx, sub, sup, a, valid),
        ConstraintV::BinaryOp(ctx, op, l, r, res, _) => implication_answer(
            q,
            ctx,
            binary_antecedent(op, l, r, res, a),
            template_pred(res, a),
            valid,
        ),
        ConstraintV::UnaryOp(ctx, op, x, res, _) => implication_answer(q, ctx, unary_antecedent(op, x, res, a), template_pred(res, a), valid),
        ConstraintV::Requires(ctx, p, _) | ConstraintV::Ensures(ctx, p, _) | ConstraintV::LoopInvariantEntry(ctx, p, _)
        | ConstraintV::LoopInvariantPreservation(ctx, p, _) | ConstraintV::Fold(ctx, _, p, _) => implication_answer(q, ctx, true_pred(), p, valid),
        ConstraintV::LoopVariantNonNegative(ctx, v, _) => implication_answer(q, ctx, true_pred(), non_negative(v), valid),
    }
}

/// What a round does with a constraint once its check has answered.
#[derive(Debug, Clone, Copy, PartialEq, Eq, Structural)]
pub enum Settlement {
    /// The check held; nothing changes.
    Holds,
    /// A well-formedness, operation or variant check failed; it is left
    /// standing and nothing changes.
    Tolerated,
    /// A subtyping into a liquid subtype failed: the supertype's demand is
    /// passed back to it.
    PassBack,
    /// A subtyping into a liquid supertype failed: a candidate qualifier
    /// is sought for it.
    TryQualifiers,
    /// The check failed and nothing can repair it: solving ends with an
    /// error.
    Fails,
}

/// The settlement of a constraint for the check's answer. A failed
/// subtyping with a liquid side is repaired; a failed precondition,
/// postcondition, loop invariant or fold, or a subtyping that cannot be
/// repaired, is an error; a failed well-formedness, operation or variant
/// check is left standing.
pub open spec fn settlement(c: ConstraintV, holds: bool) -> Settlement {
    if holds {
        Settlement::Holds
    } else if c is WellFormed || c is BinaryOp || c is UnaryOp || c is LoopVariantNonNegative || c is LoopVariantDecreases {
        Settlement::Tolerated
    } else if demand_passes_back(c) {
        Settlement::PassBack
    } else if c matches ConstraintV::Subtype(_, _, sup, _) && sup is Liquid {
        Settlement::TryQualifiers
    } else {
        Settlement::Fails
    }
}

/// Decides what to do with a constraint given whether its check held.
pub fn settle(c: &Constraint, holds: bool) -> (r: Settlement)
    ensures
        r == settlement(c@, holds),
{
    if holds {
        return Settlement::Holds;
    }
    match c {
        Constraint::WellFormed { .. } | Constraint::BinaryOp { .. } | Constraint::UnaryOp { .. } | Constraint::LoopVariantNonNegative { .. }
        | Constraint::LoopVariantDecreases { .. } => Settlement::Tolerated,
        Constraint::Subtype { sub, sup, .. } => {
            if sub.liquid_var().is_some() && base_type_eq(sub.base_type(), sup.base_type()) {
                Settlement::PassBack
            } else if sup.liquid_var().is_some() {
                Settlement::TryQualifiers
            } else {
                Settlement::Fails
            }
        },
        _ => Settlement::Fails,
    }
}

/// Whether a constraint stands settled under the assignment `a` once a
/// round changed nothing: its check held, its failure is one that is left
/// standing, or it is a subtyping into a liquid supertype that demands
/// nothing and that no candidate qualifier repairs.
pub open spec fn settled(c: ConstraintV, a: Map<LiquidVar, PredV>, q: Seq<CachedQuery>) -> bool {
    ||| check_answer(c, a, q, true)
    ||| settlement(c, false) is Tolerated
    ||| settlement(c, false) is TryQualifiers && template_pred(c->Subtype_2, a) is True
}

/// Whether every constraint stands settled under `a`.
pub open spec fn all_settled(cs: Seq<ConstraintV>, a: Map<LiquidVar, PredV>, q: Seq<CachedQuery>) -> bool {
    forall|i: int| 0 <= i < cs.len() ==> settled(#[trigger] cs[i], a, q)
}

/// Whether the solver's answers, as some record of them, leave every
/// constraint settled under `a`.
pub open spec fn settles_all(cs: Seq<ConstraintV>, a: Map<LiquidVar, PredV>) -> bool {
    exists|q: Seq<CachedQuery>| all_settled(cs, a, q)
}

/// Whether some assignment of exactly the constraints' liquid variables
/// leaves every constraint settled, as the solver answered.
pub open spec fn solvable(cs: Seq<ConstraintV>) -> bool {
    exists|a: Map<LiquidVar, PredV>| a.dom() == all_lvars(cs) && settles_all(cs, a)
}

/// Whether a failure of the constraint can end the solving: every failed
/// check but a passed-back subtyping (a liquid supertype ends it when no
/// candidate repairs it after a demand).
pub open spec fn unrepairable(c: ConstraintV) -> bool {
    settlement(c, false) is Fails || settlement(c, false) is TryQualifiers
}

/// What a check of a constraint gives without asking the solver: a
/// well-formedness check its answer, a decrease of a variant `true`, a
/// subtyping across base types `false`; a check whose goal is `true` gives
/// `true`, and one whose goal or whose context's assumptions cannot be put
/// to the solver gives an error. `after` is the constraint as the check
/// leaves it (a subtyping's templates read with the binder `__self`).
pub open spec fn check_known(c: ConstraintV, after: ConstraintV, a: Map<LiquidVar, PredV>, r: Result<bool, SolverError>) -> bool {
    match c {
        ConstraintV::WellFormed(ctx, t, _) => r == Ok::<bool, SolverError>(well_formed_in(ctx, t)),
        ConstraintV::LoopVariantDecreases(..) => r == Ok::<bool, SolverError>(true),
        ConstraintV::Subtype(_, sub, sup, _) => {
            &&& sub.base() != sup.base() ==> r == Ok::<bool, SolverError>(false)
            &&& (sub.base() == sup.base() && after is Subtype && template_pred(after->Subtype_2, a) is True) ==> r == Ok::<bool, SolverError>(
                true,
            )
        },
        ConstraintV::BinaryOp(_, _, _, _, res, _) => template_pred(res, a) is True ==> r == Ok::<bool, SolverError>(true),
        ConstraintV::UnaryOp(_, _, _, res, _) => template_pred(res, a) is True ==> r == Ok::<bool, SolverError>(true),
        ConstraintV::Requires(ctx, p, _) | ConstraintV::Ensures(ctx, p, _) | ConstraintV::LoopInvariantEntry(ctx, p, _)
        | ConstraintV::LoopInvariantPreservation(ctx, p, _) | ConstraintV::Fold(ctx, _, p, _) => {
            &&& p is True ==> r == Ok::<bool, SolverError>(true)
            &&& !(p is True) && !context_translatable(ctx, true_pred(), p) ==> r is Err
        },
        ConstraintV::LoopVariantNonNegative(..) => true,
    }
}

// ---------------------------------------------------------------------------
// Building the facts
// ---------------------------------------------------------------------------

fn mk_var(n: &str) -> (r: RefinementExpr)
    ensures
        r@ == var_expr(n@),
{
    RefinementExpr::Var(String::from_str(n), NodeId::new(0), SourceRef::unknown())
}

fn mk_pvar(n: &str) -> (r: Predicate)
    ensures
        r@ == var_pred(n@),
{
    Predicate::Var(String::from_str(n), NodeId::new(0), SourceRef::unknown())
}

fn mk_and(a: Predicate, b: Predicate) -> (r: Predicate)
    ensures
        r@ == and_pred(a@, b@),
{
    Predicate::And(Box::new(a), Box::new(b), NodeId::new(0), SourceRef::unknown())
}

fn mk_implies(a: Predicate, b: Predicate) -> (r: Predicate)
    ensures
        r@ == implies_pred(a@, b@),
{
    Predicate::Implies(Box::new(a), Box::new(b), NodeId::new(0), SourceRef::unknown())
}

fn mk_iff(a: Predicate, b: Predicate) -> (r: Predicate)
    ensures
        r@ == iff_pred(a@, b@),
{
    let a2 = a.clone();
    let b2 = b.clone();
    mk_and(mk_implies(a, b), mk_implies(b2, a2))
}

fn mk_true() -> (r: Predicate)
    ensures
        r@ == true_pred(),
{
    Predicate::True(NodeId::new(0), SourceRef::unknown())
}

/// `result = left ⊗ right` for the operator.
pub fn make_arithmetic_relation(op: BinaryOperator, left_binder: &str, right_binder: &str, result_binder: &str) -> (r: Predicate)
    ensures
        r@ == arithmetic_relation(op, left_binder@, right_binder@, result_binder@),
{
    match op {
        BinaryOperator::Add | BinaryOperator::Subtract | BinaryOperator::Multiply | BinaryOperator::Divide | BinaryOperator::Modulo => {
            let arith_op = match op {
                BinaryOperator::Add => ArithOp::Add,
                BinaryOperator::Subtract => ArithOp::Sub,
                BinaryOperator::Multiply => ArithOp::Mul,
                BinaryOperator::Divide => ArithOp::Div,
                _ => ArithOp::Mod,
            };
            let op_result = RefinementExpr::BinOp {
                op: arith_op,
                lhs: Box::new(mk_var(left_binder)),
                rhs: Box::new(mk_var(right_binder)),
                id: NodeId::new(0),
                source_ref: SourceRef::unknown(),
            };
            Predicate::BinRel { op: RelOp::Eq, lhs: mk_var(result_binder), rhs: op_result, id: NodeId::new(0), source_ref: SourceRef::unknown() }
        },
        BinaryOperator::Equal | BinaryOperator::NotEqual | BinaryOperator::Less | BinaryOperator::LessEqual | BinaryOperator::Greater
        | BinaryOperator::GreaterEqual => {
            let rel_op = match op {
                BinaryOperator::Equal => RelOp::Eq,
                BinaryOperator::NotEqual => RelOp::Neq,
                BinaryOperator::Less => RelOp::Lt,
                BinaryOperator::LessEqual => RelOp::Leq,
                BinaryOperator::Greater => RelOp::Gt,
                _ => RelOp::Geq,
            };
            let comparison = Predicate::BinRel {
                op: rel_op,
                lhs: mk_var(left_binder),
                rhs: mk_var(right_binder),
                id: NodeId::new(0),
                source_ref: SourceRef::unknown(),
            };
            mk_iff(mk_pvar(result_binder), comparison)
        },
        BinaryOperator::LogicalAnd => {
            let conjunction = mk_and(mk_pvar(left_binder), mk_pvar(right_binder));
            mk_iff(mk_pvar(result_binder), conjunction)
        },
        BinaryOperator::LogicalOr => {
            let disjunction = Predicate::Or(Box::new(mk_pvar(left_binder)), Box::new(mk_pvar(right_binder)), NodeId::new(0), SourceRef::unknown());
            mk_iff(mk_pvar(result_binder), disjunction)
        },
    }
}

/// `result = op(operand)` for the operator.
pub fn make_unary_relation(op: UnaryOperator, operand_binder: &str, result_binder: &str) -> (r: Predicate)
    ensures
        r@ == unary_relation(op, operand_binder@, result_binder@),
{
    match op {
        UnaryOperator::Negate => {
            let negated = RefinementExpr::UnaryOp {
                op: UnaryOp::Negate,
                expr: Box::new(mk_var(operand_binder)),
                id: NodeId::new(0),
                source_ref: SourceRef::unknown(),
            };
            Predicate::BinRel { op: RelOp::Eq, lhs: mk_var(result_binder), rhs: negated, id: NodeId::new(0), source_ref: SourceRef::unknown() }
        },
        UnaryOperator::Not => {
            let not_operand = Predicate::Not(Box::new(mk_pvar(operand_binder)), NodeId::new(0), SourceRef::unknown());
            let not_result = Predicate::Not(Box::new(mk_pvar(result_binder)), NodeId::new(0), SourceRef::unknown());
            let forward = mk_implies(mk_pvar(result_binder), not_operand);
            let backward = mk_implies(not_result, mk_pvar(operand_binder));
            mk_and(forward, backward)
        },
    }
}

/// `p₁ ∧ p₂`, leaving out a conjunct that is `true`.
pub fn conjoin(p1: &Predicate, p2: &Predicate) -> (r: Predicate)
    ensures
        r@ == conjoin_spec(p1@, p2@),
{
    if let Predicate::True(_, _) = p1 {
        return p2.clone();
    }
    if let Predicate::True(_, _) = p2 {
        return p1.clone();
    }
    mk_and(p1.clone(), p2.clone())
}

#[verifier::loop_isolation(false)]
fn collect_vars_from_expr(expr: &RefinementExpr, vars: &mut StrSet)
    ensures
        final(vars)@ == old(vars)@.union(wf_expr_vars(expr@)),
    decreases *expr,
{
    proof {
        reveal_strlit("v");
        assert("v"@ =~= seq!['v']);
    }
    match expr {
        RefinementExpr::Var(name, _, _) => {
            if !str_eq(name.as_str(), "v") {
                vars.insert(name.clone());
            }
            proof {
                assert(vars@ =~= old(vars)@.union(wf_expr_vars(expr@)));
            }
        },
        RefinementExpr::BinOp { lhs, rhs, .. } => {
            collect_vars_from_expr(lhs, vars);
            collect_vars_from_expr(rhs, vars);
            proof {
                assert(vars@ =~= old(vars)@.union(wf_expr_vars(expr@)));
            }
        },
        RefinementExpr::UnaryOp { expr: x, .. } => {
            collect_vars_from_expr(x, vars);
        },
        RefinementExpr::UninterpFn { args, .. } => {
            let ghost av = expr@->UninterpFn_1;
            let mut i: usize = 0;
            proof {
                assert(av.subrange(0, 0) =~= Seq::<ExprV>::empty());
                assert(vars@ =~= old(vars)@.union(wf_args_vars(av.subrange(0, 0))));
            }
            while i < args.len()
                invariant
                    i <= args.len(),
                    av.len() == args.len(),
                    forall|j: int| 0 <= j < args.len() ==> av[j] == (#[trigger] args@[j])@,
                    vars@ == old(vars)@.union(wf_args_vars(av.subrange(0, i as int))),
                decreases args.len() - i,
            {
                proof {
                    broadcast use vstd::std_specs::vec::group_vec_axioms;
                    assert(decreases_to!(*args => args[i as int]));
                }
                collect_vars_from_expr(&args[i], vars);
                proof {
                    assert(av.subrange(0, i + 1).drop_last() =~= av.subrange(0, i as int));
                    assert(av.subrange(0, i + 1).last() == av[i as int]);
                    assert(vars@ =~= old(vars)@.union(wf_args_vars(av.subrange(0, i + 1))));
                }
                i = i + 1;
            }
            proof {
                assert(av.subrange(0, i as int) =~= av);
                assert(vars@ =~= old(vars)@.union(wf_expr_vars(expr@)));
            }
        },
        _ => {
            proof {
                assert(vars@ =~= old(vars)@.union(wf_expr_vars(expr@)));
            }
        },
    }
}

fn collect_vars_from_predicate(predicate: &Predicate, vars: &mut StrSet)
    ensures
        final(vars)@ == old(vars)@.union(wf_pred_vars(predicate@)),
    decreases *predicate,
{
    proof {
        reveal_strlit("ν");
        assert("ν"@ =~= nu_name());
    }
    match predicate {
        Predicate::Var(name, _, _) => {
            if !str_eq(name.as_str(), "ν") {
                vars.insert(name.clone());
            }
            proof {
                assert(vars@ =~= old(vars)@.union(wf_pred_vars(predicate@)));
            }
        },
        Predicate::BinRel { lhs, rhs, .. } => {
            collect_vars_from_expr(lhs, vars);
            collect_vars_from_expr(rhs, vars);
            proof {
                assert(vars@ =~= old(vars)@.union(wf_pred_vars(predicate@)));
            }
        },
        Predicate::And(l, r, _, _) | Predicate::Or(l, r, _, _) | Predicate::Implies(l, r, _, _) => {
            collect_vars_from_predicate(l, vars);
            collect_vars_from_predicate(r, vars);
            proof {
                assert(vars@ =~= old(vars)@.union(wf_pred_vars(predicate@)));
            }
        },
        Predicate::Not(q, _, _) => {
            collect_vars_from_predicate(q, vars);
        },
        _ => {
            proof {
                assert(vars@ =~= old(vars)@.union(wf_pred_vars(predicate@)));
            }
        },
    }
}

/// The variables a well-formedness check looks at.
pub fn extract_free_variables(predicate: &Predicate) -> (r: StrSet)
    ensures
        r@ == wf_pred_vars(predicate@),
{
    let mut vars = StrSet::new();
    collect_vars_from_predicate(predicate, &mut vars);
    proof {
        assert(vars@ =~= wf_pred_vars(predicate@));
    }
    vars
}

/// Whether the variables of the template's refinement are bound.
#[verifier::loop_isolation(false)]
pub fn check_well_formed(context: &TypeContext, template: &Template) -> (r: bool)
    ensures
        r == well_formed_in(context@, template@),
{
    match template.refinement() {
        Some(refinement) => {
            let free = extract_free_variables(refinement);
            let names = free.to_vec();
            let mut i: usize = 0;
            while i < names.len()
                invariant
                    i <= names.len(),
                    forall|x: Seq<char>| free@.contains(x) <==> exists|k: int| 0 <= k < names.len() && (#[trigger] names@[k])@ == x,
                    forall|k: int| 0 <= k < i ==> lookup_binding(context@.bindings, (#[trigger] names@[k])@) is Some,
                decreases names.len() - i,
            {
                if !context.in_scope(names[i].as_str()) {
                    proof {
                        assert(free@.contains(names@[i as int]@));
                    }
                    return false;
                }
                i = i + 1;
            }
            proof {
                assert forall|n: Seq<char>| #[trigger] free@.contains(n) implies lookup_binding(context@.bindings, n) is Some by {
                    let k = choose|k: int| 0 <= k < names.len() && (#[trigger] names@[k])@ == n;
                }
            }
            true
        },
        None => true,
    }
}

// ---------------------------------------------------------------------------
// The solver
// ---------------------------------------------------------------------------

/// Infers liquid variables by iterative strengthening: every liquid
/// variable starts as `true`; a subtyping that fails passes what its
/// supertype demands back to a liquid subtype, or strengthens its liquid
/// supertype with the first candidate qualifier that makes it hold.
pub struct ConstraintSolver<'ctx> {
    qualifiers: QualifierSet,
    assignment: LiquidAssignment,
    constraints: ConstraintSet,
    smt_solver: SmtSolver<'ctx>,
}

impl<'ctx> ConstraintSolver<'ctx> {
    pub closed spec fn constraints_spec(&self) -> Seq<ConstraintV> {
        self.constraints@
    }

    pub closed spec fn wf(&self) -> bool {
        self.smt_solver.cache_consistent()
    }

    /// The queries put to the solver so far, with their answers.
    pub closed spec fn queries(&self) -> Seq<CachedQuery> {
        self.smt_solver.cache()
    }

    /// No liquid variable has been given a predicate yet.
    pub closed spec fn unsolved(&self) -> bool {
        self.assignment@ == Map::<LiquidVar, PredV>::empty()
    }

    /// A solver for the constraints, with the core qualifiers.
    pub fn new(constraints: ConstraintSet, z3_context: &'ctx Context) -> (r: Self)
        ensures
            r.wf(),
            r.unsolved(),
            r.constraints_spec() == constraints@,
    {
        let qualifiers = QualifierSet::core_set();
        let smt = SmtSolver::new(z3_context);
        let r = ConstraintSolver { qualifiers, assignment: LiquidAssignment::new(), constraints, smt_solver: smt };
        r
    }

    /// Adds constraints after the present ones.
    pub fn add_constraints(&mut self, constraints: ConstraintSet)
        requires
            old(self).wf(),
        ensures
            final(self).wf(),
            final(self).unsolved() == old(self).unsolved(),
            final(self).constraints_spec() == old(self).constraints_spec() + constraints@,
    {
        self.constraints.extend(constraints.into_vec());
    }

    /// Whether `Γ ∧ antecedent ⇒ consequent` holds. `true` without asking
    /// the solver when the consequent is `true` or the antecedent `false`;
    /// otherwise the solver's answer. A predicate the solver cannot take
    /// gives an internal error.
    fn check_implication(&mut self, context: &TypeContext, antecedent: &Predicate, consequent: &Predicate) -> (r: Result<bool, SolverError>)
        requires
            old(self).wf(),
        ensures
            final(self).wf(),
            final(self).constraints_spec() == old(self).constraints_spec(),
            final(self).assignment@ == old(self).assignment@,
            (consequent@ is True || antecedent@ is False) ==> r == Ok::<bool, SolverError>(true),
            !(consequent@ is True || antecedent@ is False) && !context_translatable(context@, antecedent@, consequent@) ==> r is Err,
            r is Err ==> r->Err_0 is InternalError,
            old(self).queries().is_prefix_of(final(self).queries()),
            r matches Ok(b) ==> implication_answer(final(self).queries(), context@, antecedent@, consequent@, b),
    {
        if let Predicate::True(_, _) = consequent {
            return Ok(true);
        }
        if let Predicate::False(_, _) = antecedent {
            return Ok(true);
        }
        let assumptions = context_facts(context);
        proof {
            if !context_translatable(context@, antecedent@, consequent@) && translatable(antecedent@) && translatable(consequent@) {
                let j = choose|j: int| 0 <= j < context@.assumptions.len() && !translatable(#[trigger] context@.assumptions[j]);
                assert(preds_view(assumptions@)[j] == context@.assumptions[j]);
            }
        }
        let ghost q0 = self.smt_solver.cache();
        let res = self.smt_solver.is_valid_implication(&assumptions, antecedent, consequent);
        proof {
            let facts = preds_view(assumptions@);
            match cache_find(q0, facts, antecedent@, consequent@) {
                Some(i) => {
                    assert(q0.is_prefix_of(self.smt_solver.cache()));
                    if res is Ok {
                        assert(self.smt_solver.cache()[i].0 == facts);
                    }
                },
                None => {
                    if res is Ok {
                        let q1 = self.smt_solver.cache();
                        assert(q1.len() == q0.len() + 1);
                        assert(q1[q0.len() as int].0 == facts);
                        assert(q0.is_prefix_of(q1)) by {
                            assert(q1.subrange(0, q0.len() as int) =~= q0);
                        }
                    } else {
                        assert(q0.is_prefix_of(self.smt_solver.cache()) || true);
                    }
                },
            }
        }
        match res {
            Ok(b) => Ok(b),
            Err(e) => {
                proof {
                    reveal_strlit("SMT error: ");
                }
                Err(SolverError::InternalError { message: String::from_str("SMT error: ").concat(e.to_string().as_str()) })
            },
        }
    }

    /// The predicate of a template under the current assignment.
    fn get_predicate(&self, template: &Template) -> (r: Predicate)
        ensures
            r@ == template_pred(template@, self.assignment@),
    {
        match template.liquid_var() {
            Some(var) => match self.assignment.get(var) {
                Some(p) => p.clone(),
                None => mk_true(),
            },
            None => match template.refinement() {
                Some(p) => p.clone(),
                None => mk_true(),
            },
        }
    }

    /// `sub <: sup`: same base type, and under the context the predicate of
    /// `sub` implies that of `sup`, both read with the binder `__self`. A
    /// `sub` read from a register is that register's value: `__self` equals
    /// it, so what the context knows of the register holds of the value.
    fn check_subtype(&mut self, context: &TypeContext, lhs: &mut Template, rhs: &mut Template) -> (r: Result<bool, SolverError>)
        requires
            old(self).wf(),
        ensures
            final(self).wf(),
            final(self).constraints_spec() == old(self).constraints_spec(),
            final(self).assignment@ == old(self).assignment@,
            same_kind(final(lhs)@, old(lhs)@),
            same_kind(final(rhs)@, old(rhs)@),
            r is Err ==> r->Err_0 is InternalError,
            old(lhs)@.base() != old(rhs)@.base() ==> r == Ok::<bool, SolverError>(false),
            old(lhs)@.base() == old(rhs)@.base() && template_pred(final(rhs)@, old(self).assignment@) is True ==> r == Ok::<bool, SolverError>(true),
            old(lhs)@.base() == old(rhs)@.base() && !(template_pred(final(lhs)@, old(self).assignment@) is False) && !(template_pred(
                final(rhs)@,
                old(self).assignment@,
            ) is True) && !translatable(
                template_pred(final(rhs)@, old(self).assignment@),
            ) ==> r is Err,
            old(lhs)@.base() == old(rhs)@.base() ==> final(lhs)@ == rebind(old(lhs)@, self_name()) && final(rhs)@ == rebind(
                old(rhs)@,
                self_name(),
            ),
            old(self).queries().is_prefix_of(final(self).queries()),
            r matches Ok(b) ==> subtype_answer(final(self).queries(), context@, old(lhs)@, old(rhs)@, old(self).assignment@, b),
    {
        proof {
            reveal_strlit("__self");
            assert("__self"@ =~= self_name());
        }
        if !base_type_eq(lhs.base_type(), rhs.base_type()) {
            proof {
                lemma_queries_prefix_refl(self.queries());
            }
            return Ok(false);
        }
        let ghost a = self.assignment@;
        let ghost sub0 = lhs@;
        let source = lhs.binder().to_string();
        lhs.replace_binder("__self");
        rhs.replace_binder("__self");
        let mut lhs_pred = self.get_predicate(lhs);
        if !crate::names::str_eq(source.as_str(), "__self") {
            let same = Predicate::BinRel {
                op: RelOp::Eq,
                lhs: mk_var("__self"),
                rhs: mk_var(source.as_str()),
                id: NodeId::new(0),
                source_ref: SourceRef::unknown(),
            };
            lhs_pred = mk_and(lhs_pred, same);
        }
        proof {
            assert(lhs_pred@ == subtype_antecedent(sub0, a));
        }
        let rhs_pred = self.get_predicate(rhs);
        self.check_implication(context, &lhs_pred, &rhs_pred)
    }

    /// `Γ ∧ P_left ∧ P_right ∧ (result = left ⊗ right) ⇒ P_result`.
    fn check_binary_op(&mut self, context: &TypeContext, op: BinaryOperator, left: &Template, right: &Template, result: &Template) -> (r: Result<bool, SolverError>)
        requires
            old(self).wf(),
        ensures
            final(self).wf(),
            final(self).constraints_spec() == old(self).constraints_spec(),
            final(self).assignment@ == old(self).assignment@,
            r is Err ==> r->Err_0 is InternalError,
            template_pred(result@, old(self).assignment@) is True ==> r == Ok::<bool, SolverError>(true),
            !(template_pred(result@, old(self).assignment@) is True) && !translatable(template_pred(result@, old(self).assignment@)) ==> r is Err,
            old(self).queries().is_prefix_of(final(self).queries()),
            r matches Ok(b) ==> implication_answer(
                final(self).queries(),
                context@,
                binary_antecedent(op, left@, right@, result@, old(self).assignment@),
                template_pred(result@, old(self).assignment@),
                b,
            ),
    {
        let left_pred = self.get_predicate(left);
        let right_pred = self.get_predicate(right);
        let result_pred = self.get_predicate(result);
        let fact = make_arithmetic_relation(op, left.binder(), right.binder(), result.binder());
        let antecedent = mk_and(left_pred, mk_and(right_pred, fact));
        self.check_implication(context, &antecedent, &result_pred)
    }

    /// `Γ ∧ P_operand ∧ (result = op(operand)) ⇒ P_result`.
    fn check_unary_op(&mut self, context: &TypeContext, op: UnaryOperator, operand: &Template, result: &Template) -> (r: Result<bool, SolverError>)
        requires
            old(self).wf(),
        ensures
            final(self).wf(),
            final(self).constraints_spec() == old(self).constraints_spec(),
            final(self).assignment@ == old(self).assignment@,
            r is Err ==> r->Err_0 is InternalError,
            template_pred(result@, old(self).assignment@) is True ==> r == Ok::<bool, SolverError>(true),
            !(template_pred(result@, old(self).assignment@) is True) && !translatable(template_pred(result@, old(self).assignment@)) ==> r is Err,
            old(self).queries().is_prefix_of(final(self).queries()),
            r matches Ok(b) ==> implication_answer(
                final(self).queries(),
                context@,
                unary_antecedent(op, operand@, result@, old(self).assignment@),
                template_pred(result@, old(self).assignment@),
                b,
            ),
    {
        let operand_pred = self.get_predicate(operand);
        let result_pred = self.get_predicate(result);
        let fact = make_unary_relation(op, operand.binder(), result.binder());
        let antecedent = mk_and(operand_pred, fact);
        self.check_implication(context, &antecedent, &result_pred)
    }

    /// `Γ ⊢ condition`.
    fn check_holds(&mut self, context: &TypeContext, condition: &Predicate) -> (r: Result<bool, SolverError>)
        requires
            old(self).wf(),
        ensures
            final(self).wf(),
            final(self).constraints_spec() == old(self).constraints_spec(),
            final(self).assignment@ == old(self).assignment@,
            r is Err ==> r->Err_0 is InternalError,
            condition@ is True ==> r == Ok::<bool, SolverError>(true),
            !(condition@ is True) && !context_translatable(context@, true_pred(), condition@) ==> r is Err,
            old(self).queries().is_prefix_of(final(self).queries()),
            r matches Ok(b) ==> implication_answer(final(self).queries(), context@, true_pred(), condition@, b),
    {
        let t = mk_true();
        self.check_implication(context, &t, condition)
    }

    /// Whether a constraint holds under the current assignment. A variant is
    /// checked to be non-negative; that it decreases is taken to hold.
    fn check_constraint(&mut self, constraint: &mut Constraint) -> (r: Result<bool, SolverError>)
        requires
            old(self).wf(),
        ensures
            final(self).wf(),
            final(self).constraints_spec() == old(self).constraints_spec(),
            final(self).assignment@ == old(self).assignment@,
            same_shape(final(constraint)@, old(constraint)@),
            r is Err ==> r->Err_0 is InternalError,
            check_known(old(constraint)@, final(constraint)@, old(self).assignment@, r),
            old(self).queries().is_prefix_of(final(self).queries()),
            r matches Ok(b) ==> check_answer(old(constraint)@, old(self).assignment@, final(self).queries(), b),
    {
        match constraint {
            Constraint::WellFormed { context, template, .. } => {
                proof {
                    lemma_queries_prefix_refl(self.queries());
                }
                Ok(check_well_formed(context, template))
            },
            Constraint::Subtype { context, sub, sup, .. } => self.check_subtype(context, sub, sup),
            Constraint::BinaryOp { context, op, left, right, result, .. } => self.check_binary_op(context, *op, left, right, result),
            Constraint::UnaryOp { context, op, operand, result, .. } => self.check_unary_op(context, *op, operand, result),
            Constraint::Ensures { context, condition, .. } => self.check_holds(context, condition),
            Constraint::Requires { context, condition, .. } => self.check_holds(context, condition),
            Constraint::LoopInvariantEntry { context, loop_invariant, .. } => self.check_holds(context, loop_invariant),
            Constraint::LoopInvariantPreservation { context, loop_invariant, .. } => self.check_holds(context, loop_invariant),
            Constraint::LoopVariantDecreases { .. } => {
                proof {
                    lemma_queries_prefix_refl(self.queries());
                }
                Ok(true)
            },
            Constraint::LoopVariantNonNegative { context, variant, .. } => {
                let zero = RefinementExpr::IntLit(0, NodeId::new(0), SourceRef::unknown());
                let pred = Predicate::BinRel { op: RelOp::Geq, lhs: variant.clone(), rhs: zero, id: NodeId::new(0), source_ref: SourceRef::unknown() };
                self.check_holds(context, &pred)
            },
            Constraint::Fold { context, refinement, .. } => self.check_holds(context, refinement),
        }
    }

    /// Strengthens `var` with the first candidate `c` (in the order of
    /// `instantiate_all`) for which `Γ ∧ P_lhs ⇒ current ∧ c` holds.
    /// `Ok(false)` when no candidate does.
    #[verifier::loop_isolation(false)]
    fn strengthen_liquid_var(&mut self, var: LiquidVar, context: &TypeContext, lhs: &Template) -> (r: Result<bool, SolverError>)
        requires
            old(self).wf(),
        ensures
            final(self).wf(),
            final(self).constraints_spec() == old(self).constraints_spec(),
            r == Ok::<bool, SolverError>(false) ==> final(self).assignment@ == old(self).assignment@,
            r is Err ==> r->Err_0 is InternalError && final(self).assignment@ == old(self).assignment@,
            r == Ok::<bool, SolverError>(true) ==> exists|p: PredV| final(self).assignment@ == old(self).assignment@.insert(var, p),
            old(self).queries().is_prefix_of(final(self).queries()),
    {
        let ghost q0 = self.queries();
        proof {
            lemma_queries_prefix_refl(q0);
        }
        let candidates = self.qualifiers.instantiate_all(context);
        let current = match self.assignment.get(var) {
            Some(p) => p.clone(),
            None => mk_true(),
        };
        let mut i: usize = 0;
        while i < candidates.len()
            invariant
                i <= candidates.len(),
                self.wf(),
                self.constraints_spec() == old(self).constraints_spec(),
                self.assignment@ == old(self).assignment@,
                q0 == old(self).queries(),
                q0.is_prefix_of(self.queries()),
            decreases candidates.len() - i,
        {
            let strengthened = conjoin(&current, &candidates[i]);
            let lhs_pred = self.get_predicate(lhs);
            let ghost q1 = self.queries();
            let checked = self.check_implication(context, &lhs_pred, &strengthened);
            proof {
                lemma_queries_prefix_trans(q0, q1, self.queries());
            }
            match checked {
                Ok(true) => {
                    let ghost p = strengthened@;
                    self.assignment.assign(var, strengthened);
                    return Ok(true);
                },
                Ok(false) => {},
                Err(e) => return Err(e),
            }
            i = i + 1;
        }
        Ok(false)
    }

    /// Repairs a failed check as `settle` decides: a passed-back demand
    /// conjoins the supertype's predicate to the liquid subtype; a liquid
    /// supertype is strengthened with a candidate qualifier (one that already
    /// carries a demand and cannot be strengthened is a type error); any
    /// other failure is an error naming the constraint.
    fn strengthen_for_constraint(&mut self, constraint: &Constraint) -> (r: Result<bool, SolverError>)
        requires
            old(self).wf(),
        ensures
            final(self).wf(),
            final(self).constraints_spec() == old(self).constraints_spec(),
            r is Err ==> (r->Err_0 is InternalError || ((r->Err_0 is TypeMismatch || r->Err_0 is UnsatisfiableConstraint) && unrepairable(constraint@))),
            r is Err || r == Ok::<bool, SolverError>(false) ==> final(self).assignment@ == old(self).assignment@,
            r == Ok::<bool, SolverError>(true) ==> exists|v: LiquidVar, p: PredV|
                constraint_lvars(constraint@).contains(v) && final(self).assignment@ == old(self).assignment@.insert(v, p),
            settlement(constraint@, false) is Fails ==> r is Err && (r->Err_0 is TypeMismatch <==> constraint@ is Subtype)
                && (r->Err_0 is UnsatisfiableConstraint <==> !(constraint@ is Subtype)),
            settlement(constraint@, false) is Tolerated ==> r == Ok::<bool, SolverError>(false),
            settlement(constraint@, false) is TryQualifiers && r == Ok::<bool, SolverError>(false) ==> template_pred(
                constraint@->Subtype_2,
                old(self).assignment@,
            ) is True,
            old(self).queries().is_prefix_of(final(self).queries()),
            demand_passes_back(constraint@) ==> r == Ok::<bool, SolverError>(true) && final(self).assignment@ == old(self).assignment@.insert(
                constraint@->Subtype_1->Liquid_liquid_var,
                conjoin_spec(
                    template_pred(constraint@->Subtype_1, old(self).assignment@),
                    template_pred(constraint@->Subtype_2, old(self).assignment@),
                ),
            ),
    {
        proof {
            lemma_queries_prefix_refl(self.queries());
        }
        let step = settle(constraint, false);
        if let Settlement::Fails = step {
            return Err(failure(constraint));
        }
        match constraint {
            Constraint::Subtype { context, sub, sup, location } => {
                if let Some(kappa_sub) = sub.liquid_var() {
                    if base_type_eq(sub.base_type(), sup.base_type()) {
                        let current = self.get_predicate(sub);
                        let demand = self.get_predicate(sup);
                        let strengthened = conjoin(&current, &demand);
                        self.assignment.assign(kappa_sub, strengthened);
                        proof {
                            assert(constraint_lvars(constraint@).contains(kappa_sub));
                        }
                        return Ok(true);
                    }
                }
                match sup.liquid_var() {
                    Some(kappa) => {
                        let r = self.strengthen_liquid_var(kappa, context, sub);
                        proof {
                            assert(constraint_lvars(constraint@).contains(kappa));
                        }
                        match r {
                            Ok(false) => {
                                let demanded = match self.assignment.get(kappa) {
                                    Some(Predicate::True(_, _)) => false,
                                    Some(_) => true,
                                    None => false,
                                };
                                if demanded {
                                    Err(subtype_mismatch(sub, sup, *location))
                                } else {
                                    Ok(false)
                                }
                            },
                            other => other,
                        }
                    },
                    None => Err(subtype_mismatch(sub, sup, *location)),
                }
            },
            _ => Ok(false),
        }
    }

    /// The liquid variables of the constraints, each once, in order of first
    /// mention.
    #[verifier::loop_isolation(false)]
    fn collect_liquid_vars(&self) -> (r: Vec<LiquidVar>)
        ensures
            forall|v: LiquidVar| all_lvars(self.constraints_spec()).contains(v) <==> r@.contains(v),
            r@.no_duplicates(),
    {
        let cs = self.constraints.constraints();
        let ghost cv = self.constraints_spec();
        let mut vars: Vec<LiquidVar> = Vec::new();
        let mut i: usize = 0;
        while i < cs.len()
            invariant
                i <= cs.len(),
                constraints_view(cs@) == cv,
                cv == self.constraints_spec(),
                vars@.no_duplicates(),
                forall|v: LiquidVar| (exists|j: int| 0 <= j < i && (#[trigger] constraint_lvars(cv[j])).contains(v)) <==> vars@.contains(v),
            decreases cs.len() - i,
        {
            let ghost before = vars@;
            let c = &cs[i];
            proof {
                assert(cv[i as int] == c@);
            }
            match c {
                Constraint::Subtype { sub, sup, .. } => {
                    add_lvar(&mut vars, sub);
                    add_lvar(&mut vars, sup);
                },
                Constraint::BinaryOp { left, right, result, .. } => {
                    add_lvar(&mut vars, left);
                    add_lvar(&mut vars, right);
                    add_lvar(&mut vars, result);
                },
                Constraint::UnaryOp { operand, result, .. } => {
                    add_lvar(&mut vars, operand);
                    add_lvar(&mut vars, result);
                },
                Constraint::WellFormed { template, .. } => {
                    add_lvar(&mut vars, template);
                },
                _ => {},
            }
            proof {
                assert forall|v: LiquidVar| (exists|j: int| 0 <= j < i + 1 && (#[trigger] constraint_lvars(cv[j])).contains(v)) <==> vars@.contains(v) by {
                    if vars@.contains(v) && !before.contains(v) {
                        assert(constraint_lvars(cv[i as int]).contains(v));
                    }
                    if constraint_lvars(cv[i as int]).contains(v) {
                        assert(vars@.contains(v));
                    }
                }
            }
            i = i + 1;
        }
        vars
    }

    /// One round: each constraint in order is checked, and what `settle`
    /// makes of a failed check is done. Gives the constraints back as they
    /// came and whether an assignment changed; a round that changed nothing
    /// leaves every constraint settled under the assignment it began with.
    #[verifier::loop_isolation(false)]
    #[verifier::rlimit(80)]
    fn run_round(&mut self, cs: Vec<Constraint>, Ghost(orig): Ghost<Seq<ConstraintV>>) -> (r: Result<(Vec<Constraint>, bool), SolverError>)
        requires
            old(self).wf(),
            constraints_view(cs@) == orig,
            old(self).assignment@.dom() == all_lvars(orig),
        ensures
            final(self).wf(),
            final(self).assignment@.dom() == all_lvars(orig),
            old(self).queries().is_prefix_of(final(self).queries()),
            orig.len() == 0 ==> r is Ok && !r->Ok_0.1,
            match r {
                Ok((next, changed)) => {
                    &&& constraints_view(next@) == orig
                    &&& !changed ==> final(self).assignment@ == old(self).assignment@ && forall|i: int|
                        0 <= i < orig.len() ==> settled(#[trigger] orig[i], old(self).assignment@, final(self).queries())
                },
                Err(e) => e is InternalError || ((e is TypeMismatch || e is UnsatisfiableConstraint) && exists|i: int| 0 <= i < orig.len() && unrepairable(#[trigger] orig[i])),
            },
    {
        let mut changed = false;
        let mut pending = cs;
        let mut done: Vec<Constraint> = Vec::new();
        let ghost n = orig.len();
        let ghost a0 = self.assignment@;
        let ghost q0 = self.queries();
        proof {
            lemma_queries_prefix_refl(q0);
            assert(constraints_view(done@) =~= orig.subrange(0, 0));
            assert(constraints_view(pending@) =~= orig.subrange(0, n as int));
        }
        while pending.len() > 0
            invariant
                self.wf(),
                done.len() + pending.len() == n,
                n == orig.len(),
                n == 0 ==> !changed,
                constraints_view(done@) == orig.subrange(0, done.len() as int),
                constraints_view(pending@) == orig.subrange(done.len() as int, n as int),
                self.assignment@.dom() == all_lvars(orig),
                q0.is_prefix_of(self.queries()),
                !changed ==> self.assignment@ == a0 && forall|j: int| 0 <= j < done.len() ==> settled(#[trigger] orig[j], a0, self.queries()),
            decreases pending.len(),
        {
            let ghost idx = done.len() as int;
            let ghost pend = pending@;
            let ghost dn = done@;
            let ghost q1 = self.queries();
            let ghost a1 = self.assignment@;
            let c0 = pending.remove(0);
            proof {
                assert(pend[0] == c0);
                assert(constraints_view(pend)[0] == c0@);
                assert(c0@ == orig[idx]);
            }
            let mut c = c0.clone();
            let ok = match self.check_constraint(&mut c) {
                Ok(b) => b,
                Err(e) => return Err(e),
            };
            proof {
                lemma_queries_prefix_trans(q0, q1, self.queries());
                lemma_same_shape_lvars(c@, orig[idx]);
            }
            let ghost q2 = self.queries();
            let step = settle(&c, ok);
            if step == Settlement::PassBack || step == Settlement::TryQualifiers || step == Settlement::Fails {
                let ghost before = self.assignment@;
                match self.strengthen_for_constraint(&c) {
                    Ok(did) => {
                        proof {
                            lemma_queries_prefix_trans(q0, q2, self.queries());
                            if did {
                                let (v, p) = choose|v: LiquidVar, p: PredV|
                                    constraint_lvars(c@).contains(v) && self.assignment@ == before.insert(v, p);
                                assert(constraint_lvars(orig[idx]).contains(v));
                                assert(all_lvars(orig).contains(v));
                                assert(self.assignment@.dom() =~= before.dom());
                            } else if !changed {
                                assert(settlement(orig[idx], false) is TryQualifiers);
                                assert(template_pred(c@->Subtype_2, a0) is True);
                                assert(settled(orig[idx], a0, self.queries()));
                            }
                        }
                        changed = changed || did;
                    },
                    Err(e) => {
                        return Err(e);
                    },
                }
            } else {
                proof {
                    lemma_queries_prefix_refl(self.queries());
                    if !changed {
                        assert(settled(orig[idx], a0, self.queries()));
                    }
                }
            }
            proof {
                if !changed {
                    assert forall|j: int| 0 <= j < idx implies settled(#[trigger] orig[j], a0, self.queries()) by {
                        lemma_settled_grows(orig[j], a0, q1, self.queries());
                    }
                }
            }
            done.push(c0);
            proof {
                assert(constraints_view(done@) =~= constraints_view(dn).push(c0@));
                assert(constraints_view(done@) =~= orig.subrange(0, done.len() as int));
                assert forall|k: int| 0 <= k < pending.len() implies #[trigger] constraints_view(pending@)[k] == orig[done.len() + k] by {
                    assert(pending@[k] == pend[k + 1]);
                    assert(constraints_view(pend)[k + 1] == orig.subrange(idx, n as int)[k + 1]);
                }
                assert(constraints_view(pending@) =~= orig.subrange(done.len() as int, n as int));
            }
        }
        proof {
            assert(orig.subrange(0, n as int) =~= orig);
        }
        Ok((done, changed))
    }

    /// Solves the constraints: every liquid variable starts as `true`, then
    /// each round checks the constraints in order and strengthens for each
    /// that fails, until a round changes nothing (at most 100 rounds). The
    /// answers come from the solver; what is stated is what holds of any
    /// answers: the result assigns exactly the liquid variables of the
    /// constraints and leaves each of them settled, the queries of the last
    /// round having been answered as `settled` asks; an error names a
    /// constraint whose failure no assignment repairs.
    #[verifier::loop_isolation(false)]
    pub fn solve(self) -> (r: Result<LiquidAssignment, SolverError>)
        requires
            self.wf(),
            self.unsolved(),
        ensures
            match r {
                Ok(a) => a@.dom() == all_lvars(self.constraints_spec()),
                Err(e) => e is InternalError || ((e is TypeMismatch || e is UnsatisfiableConstraint) && exists|i: int|
                    0 <= i < self.constraints_spec().len() && unrepairable(#[trigger] self.constraints_spec()[i])),
            },
            self.constraints_spec().len() == 0 ==> r is Ok,
            r is Ok ==> settles_all(self.constraints_spec(), r->Ok_0@),
    {
        let mut solver = self;
        let ghost orig = solver.constraints_spec();
        let liquid_vars = solver.collect_liquid_vars();
        let mut k: usize = 0;
        while k < liquid_vars.len()
            invariant
                k <= liquid_vars.len(),
                solver.wf(),
                solver.constraints_spec() == orig,
                forall|v: LiquidVar| all_lvars(orig).contains(v) <==> liquid_vars@.contains(v),
                forall|v: LiquidVar| solver.assignment@.dom().contains(v) <==> exists|j: int| 0 <= j < k && (#[trigger] liquid_vars@[j]) == v,
            decreases liquid_vars.len() - k,
        {
            let ghost before = solver.assignment@;
            solver.assignment.assign(liquid_vars[k], mk_true());
            proof {
                assert forall|v: LiquidVar| solver.assignment@.dom().contains(v) <==> exists|j: int| 0 <= j < k + 1 && (#[trigger] liquid_vars@[j]) == v by {
                    if v == liquid_vars@[k as int] {
                        assert(liquid_vars@[k as int] == v);
                    }
                }
            }
            k = k + 1;
        }
        proof {
            assert forall|v: LiquidVar| solver.assignment@.dom().contains(v) <==> all_lvars(orig).contains(v) by {
                if liquid_vars@.contains(v) {
                    let j = choose|j: int| 0 <= j < liquid_vars@.len() && liquid_vars@[j] == v;
                    assert(liquid_vars@[j] == v);
                }
            }
            assert(solver.assignment@.dom() =~= all_lvars(orig));
        }
        let mut taken = ConstraintSet::new();
        std::mem::swap(&mut taken, &mut solver.constraints);
        let mut cs: Vec<Constraint> = taken.into_vec();
        let max_iterations: usize = 100;
        let mut iteration: usize = 0;
        loop
            invariant
                iteration < max_iterations,
                max_iterations == 100,
                solver.wf(),
                constraints_view(cs@) == orig,
                orig == self.constraints_spec(),
                solver.assignment@.dom() == all_lvars(orig),
            decreases max_iterations - iteration,
        {
            let (next, changed) = match solver.run_round(cs, Ghost(orig)) {
                Ok(x) => x,
                Err(e) => return Err(e),
            };
            cs = next;
            if !changed {
                let ghost last = solver.queries();
                let result = solver.assignment;
                proof {
                    assert(all_settled(self.constraints_spec(), result@, last));
                    assert(settles_all(self.constraints_spec(), result@));
                }
                return Ok(result);
            }
            if iteration == max_iterations - 1 {
                proof {
                    reveal_strlit("Maximum iterations reached without convergence");
                }
                return Err(SolverError::InternalError { message: String::from_str("Maximum iterations reached without convergence") });
            }
            iteration = iteration + 1;
        }
    }
}

/// What a context knows: its assumptions, then, for each bound register
/// whose template is given and not boolean, that refinement read of the
/// register.
fn context_facts(context: &TypeContext) -> (r: Vec<Predicate>)
    ensures
        preds_view(r@) == context_facts_spec(context@),
{
    let mut facts = crate::refinements::constraints::clone_preds(context.assumptions());
    let ghost base = preds_view(facts@);
    let binds = context.bindings();
    let ghost bv = context@.bindings;
    let mut i: usize = 0;
    proof {
        assert(bv.take(0) =~= Seq::<(Seq<char>, TemplateV)>::empty());
        assert(base + binding_facts(bv.take(0)) =~= base);
    }
    while i < binds.len()
        invariant
            i <= binds.len(),
            base == context@.assumptions,
            bv == context@.bindings,
            crate::refinements::constraints::bindings_view(binds@) == bv,
            preds_view(facts@) == base + binding_facts(bv.take(i as int)),
        decreases binds.len() - i,
    {
        let entry = &binds[i];
        proof {
            assert(bv.take(i + 1).drop_last() =~= bv.take(i as int));
            assert(bv.take(i + 1).last() == (entry.0@, entry.1@));
        }
        let is_bool = match entry.1.base_type() {
            crate::ast::types::BaseType::Bool => true,
            _ => false,
        };
        if !is_bool && entry.1.is_concrete() {
            let mut t = entry.1.clone();
            t.replace_binder(entry.0.as_str());
            if let Some(p) = t.refinement() {
                let ghost before = facts@;
                facts.push(p.clone());
                proof {
                    assert(preds_view(facts@) =~= preds_view(before).push(p@));
                }
            }
        }
        i = i + 1;
    }
    proof {
        assert(bv.take(binds.len() as int) =~= bv);
    }
    facts
}

/// A subtyping that cannot be made to hold: the two templates and where.
fn subtype_mismatch(sub: &Template, sup: &Template, location: SourceRef) -> (r: SolverError)
    ensures
        r is TypeMismatch,
        r->TypeMismatch_message@ == "Type error: cannot satisfy subtyping constraint\nExpected: "@ + template_text(sup@) + "\nFound: "@
            + template_text(sub@) + "\nLocation: "@ + decimal(location.start as nat) + ".."@ + decimal(location.end as nat),
{
    let message = String::from_str("Type error: cannot satisfy subtyping constraint\nExpected: ").concat(sup.to_string().as_str()).concat(
        "\nFound: ",
    ).concat(sub.to_string().as_str()).concat("\nLocation: ").concat(crate::names::usize_to_string(location.start).as_str()).concat(
        "..",
    ).concat(crate::names::usize_to_string(location.end).as_str());
    SolverError::TypeMismatch { message }
}

/// A check that failed and that no assignment can repair: what it checks
/// and where.
/// The error for a check that failed and that no assignment repairs: a
/// subtyping is a type mismatch; any other constraint is unsatisfiable,
/// named by what it checks.
fn failure(c: &Constraint) -> (r: SolverError)
    ensures
        r is TypeMismatch <==> c@ is Subtype,
        r is UnsatisfiableConstraint <==> !(c@ is Subtype),
{
    match c {
        Constraint::Subtype { sub, sup, location, .. } => subtype_mismatch(sub, sup, *location),
        Constraint::Requires { condition, location, .. } => unsatisfied("Precondition not satisfied: ", condition, *location),
        Constraint::Ensures { condition, location, .. } => unsatisfied("Postcondition not satisfied: ", condition, *location),
        Constraint::LoopInvariantEntry { loop_invariant, location, .. } => unsatisfied("Loop invariant does not hold on entry: ", loop_invariant, *location),
        Constraint::LoopInvariantPreservation { loop_invariant, location, .. } => unsatisfied("Loop invariant not preserved: ", loop_invariant, *location),
        Constraint::Fold { refinement, location, .. } => unsatisfied("Cannot fold storage invariant: ", refinement, *location),
        Constraint::WellFormed { template, location, .. } => unsatisfied_text("Refinement mentions a variable not in scope: ", template.to_string(), *location),
        Constraint::BinaryOp { result, location, .. } => unsatisfied_text("Operation result does not meet its refinement: ", result.to_string(), *location),
        Constraint::UnaryOp { result, location, .. } => unsatisfied_text("Operation result does not meet its refinement: ", result.to_string(), *location),
        Constraint::LoopVariantNonNegative { variant, location, .. } => unsatisfied_text("Loop variant may be negative: ", variant.to_string(), *location),
        Constraint::LoopVariantDecreases { variant_after, location, .. } => unsatisfied_text("Loop variant does not decrease: ", variant_after.to_string(), *location),
    }
}

/// An unsatisfiable constraint described by a text, and where it is.
fn unsatisfied_text(what: &str, text: String, location: SourceRef) -> (r: SolverError)
    ensures
        r is UnsatisfiableConstraint,
        r->UnsatisfiableConstraint_constraint@ == what@ + text@,
        r->UnsatisfiableConstraint_reason@ == "at "@ + decimal(location.start as nat) + ".."@ + decimal(location.end as nat),
{
    SolverError::UnsatisfiableConstraint {
        constraint: String::from_str(what).concat(text.as_str()),
        reason: String::from_str("at ").concat(crate::names::usize_to_string(location.start).as_str()).concat("..").concat(
            crate::names::usize_to_string(location.end).as_str(),
        ),
    }
}

fn unsatisfied(what: &str, predicate: &Predicate, location: SourceRef) -> (r: SolverError)
    ensures
        r is UnsatisfiableConstraint,
        r->UnsatisfiableConstraint_constraint@ == what@ + pred_text(predicate@),
        r->UnsatisfiableConstraint_reason@ == "at "@ + decimal(location.start as nat) + ".."@ + decimal(location.end as nat),
{
    SolverError::UnsatisfiableConstraint {
        constraint: String::from_str(what).concat(predicate.to_string().as_str()),
        reason: String::from_str("at ").concat(crate::names::usize_to_string(location.start).as_str()).concat("..").concat(
            crate::names::usize_to_string(location.end).as_str(),
        ),
    }
}

/// Adds the liquid variable of a template, if it has one and it is new.
fn add_lvar(vars: &mut Vec<LiquidVar>, t: &Template)
    requires
        old(vars)@.no_duplicates(),
    ensures
        final(vars)@.no_duplicates(),
        forall|v: LiquidVar| final(vars)@.contains(v) <==> (old(vars)@.contains(v) || template_lvars(t@).contains(v)),
{
    match t.liquid_var() {
        Some(v) => {
            let mut found = false;
            let mut i: usize = 0;
            while i < vars.len()
                invariant
                    i <= vars.len(),
                    found <==> exists|j: int| 0 <= j < i && vars@[j] == v,
                decreases vars.len() - i,
            {
                if vars[i].0 == v.0 {
                    found = true;
                }
                i = i + 1;
            }
            if !found {
                vars.push(v);
                proof {
                    assert forall|w: LiquidVar| vars@.contains(w) <==> (old(vars)@.contains(w) || template_lvars(t@).contains(w)) by {
                        if vars@.contains(w) {
                            let j = choose|j: int| 0 <= j < vars@.len() && vars@[j] == w;
                            if j < old(vars)@.len() {
                                assert(old(vars)@[j] == w);
                            }
                        }
                        if old(vars)@.contains(w) {
                            let j = choose|j: int| 0 <= j < old(vars)@.len() && old(vars)@[j] == w;
                            assert(vars@[j] == w);
                        }
                        if w == v {
                            assert(vars@[vars@.len() - 1] == w);
                        }
                    }
                }
            }
        },
        None => {},
    }
}

proof fn lemma_queries_prefix_refl(q: Seq<CachedQuery>)
    ensures
        q.is_prefix_of(q),
{
    assert(q.subrange(0, q.len() as int) =~= q);
}

/// An answer recorded once stays recorded as the record grows.
proof fn lemma_settled_grows(c: ConstraintV, a: Map<LiquidVar, PredV>, q1: Seq<CachedQuery>, q2: Seq<CachedQuery>)
    requires
        q1.is_prefix_of(q2),
        settled(c, a, q1),
    ensures
        settled(c, a, q2),
{
    assert forall|f: Seq<PredV>, x: PredV, y: PredV, v: bool| answered(q1, f, x, y, v) implies answered(q2, f, x, y, v) by {
        let i = choose|i: int|
            0 <= i < q1.len() && (#[trigger] q1[i]).0 == f && q1[i].1 == x && q1[i].2 == y && (q1[i].3 == SmtResult::Unsatisfiable) == v;
        assert(q2[i] == q1[i]);
    }
}

proof fn lemma_queries_prefix_trans(a: Seq<CachedQuery>, b: Seq<CachedQuery>, c: Seq<CachedQuery>)
    requires
        a.is_prefix_of(b),
        b.is_prefix_of(c),
    ensures
        a.is_prefix_of(c),
{
    assert(c.subrange(0, a.len() as int) =~= b.subrange(0, a.len() as int));
}

proof fn lemma_same_shape_lvars(c1: ConstraintV, c2: ConstraintV)
    requires
        same_shape(c1, c2),
    ensures
        constraint_lvars(c1) == constraint_lvars(c2),
        unrepairable(c1) == unrepairable(c2),
        settlement(c1, false) == settlement(c2, false),
        settlement(c1, false) is TryQualifiers ==> forall|a: Map<LiquidVar, PredV>|
            #[trigger] template_pred(c1->Subtype_2, a) == template_pred(c2->Subtype_2, a),
{
    assert(constraint_lvars(c1) =~= constraint_lvars(c2));
}

} // verus!
