use vstd::prelude::*;

use crate::ast::expression::{BinaryOperator, UnaryOperator};
use crate::ast::meta::SourceRef;
use crate::ast::expression::unop_text;
use crate::ast::predicate::{expr_text, pred_text, Predicate, PredV, RefinementExpr, ExprV};
use crate::ir::{SymbolId, SymbolIdV};
use crate::names::{StrMap, str_eq};
use crate::refinements::templates::{template_text, Template, TemplateV};
use crate::storage::{symbol_label, symbol_label_string};
use vstd::string::StringExecFns;

verus! {

// ---------------------------------------------------------------------------
// Typing contexts
// ---------------------------------------------------------------------------

/// A typing context Γ: variables with their templates, the facts assumed at
/// this point, and the current SSA name of each source variable.
#[derive(Debug)]
pub struct TypeContext {
    bindings: Vec<(String, Template)>,
    assumptions: Vec<Predicate>,
    source_to_ssa: StrMap<String>,
}

pub struct TypeContextV {
    pub bindings: Seq<(Seq<char>, TemplateV)>,
    pub assumptions: Seq<PredV>,
    pub source_to_ssa: Map<Seq<char>, Seq<char>>,
}

pub open spec fn bindings_view(s: Seq<(String, Template)>) -> Seq<(Seq<char>, TemplateV)> {
    s.map_values(|b: (String, Template)| (b.0@, b.1@))
}

pub open spec fn preds_view(s: Seq<Predicate>) -> Seq<PredV> {
    s.map_values(|p: Predicate| p@)
}

impl View for TypeContext {
    type V = TypeContextV;

    closed spec fn view(&self) -> TypeContextV {
        TypeContextV {
            bindings: bindings_view(self.bindings@),
            assumptions: preds_view(self.assumptions@),
            source_to_ssa: self.source_to_ssa@,
        }
    }
}

/// The template of the most recent binding of `name`.
pub open spec fn lookup_binding(bs: Seq<(Seq<char>, TemplateV)>, name: Seq<char>) -> Option<TemplateV>
    decreases bs.len(),
{
    if bs.len() == 0 {
        None
    } else if bs.last().0 == name {
        Some(bs.last().1)
    } else {
        lookup_binding(bs.drop_last(), name)
    }
}

/// A name looked up right after it is bound gives the template it was bound
/// to; binding another name leaves its lookup as it was.
pub proof fn lemma_bind_then_lookup(bs: Seq<(Seq<char>, TemplateV)>, name: Seq<char>, t: TemplateV, other: Seq<char>)
    requires
        other != name,
    ensures
        lookup_binding(bs.push((name, t)), name) == Some(t),
        lookup_binding(bs.push((name, t)), other) == lookup_binding(bs, other),
{
    assert(bs.push((name, t)).drop_last() =~= bs);
}

pub proof fn lemma_lookup_binding_none(bs: Seq<(Seq<char>, TemplateV)>, name: Seq<char>)
    ensures
        lookup_binding(bs, name) is None <==> forall|i: int| 0 <= i < bs.len() ==> (#[trigger] bs[i]).0 != name,
    decreases bs.len(),
{
    if bs.len() > 0 {
        lemma_lookup_binding_none(bs.drop_last(), name);
        assert(forall|i: int| 0 <= i < bs.len() - 1 ==> bs.drop_last()[i] == bs[i]);
        if lookup_binding(bs, name) is None {
            assert forall|i: int| 0 <= i < bs.len() implies (#[trigger] bs[i]).0 != name by {
                if i < bs.len() - 1 {
                    assert(bs.drop_last()[i] == bs[i]);
                }
            }
        }
    }
}

/// A copy of a list of predicates.
pub fn clone_preds(v: &Vec<Predicate>) -> (r: Vec<Predicate>)
    ensures
        preds_view(r@) == preds_view(v@),
{
    let mut out: Vec<Predicate> = Vec::new();
    let mut i: usize = 0;
    while i < v.len()
        invariant
            i <= v.len(),
            out.len() == i,
            forall|j: int| 0 <= j < i ==> (#[trigger] out@[j])@ == v@[j]@,
        decreases v.len() - i,
    {
        out.push(v[i].clone());
        i = i + 1;
    }
    assert(preds_view(out@) =~= preds_view(v@));
    out
}

fn clone_bindings(v: &Vec<(String, Template)>) -> (r: Vec<(String, Template)>)
    ensures
        bindings_view(r@) == bindings_view(v@),
{
    let mut out: Vec<(String, Template)> = Vec::new();
    let mut i: usize = 0;
    while i < v.len()
        invariant
            i <= v.len(),
            out.len() == i,
            forall|j: int| 0 <= j < i ==> (#[trigger] out@[j]).0@ == v@[j].0@ && out@[j].1@ == v@[j].1@,
        decreases v.len() - i,
    {
        let e = &v[i];
        out.push((e.0.clone(), e.1.clone()));
        i = i + 1;
    }
    assert(bindings_view(out@) =~= bindings_view(v@));
    out
}

impl Clone for TypeContext {
    fn clone(&self) -> (r: Self)
        ensures
            r@ == self@,
    {
        TypeContext {
            bindings: clone_bindings(&self.bindings),
            assumptions: clone_preds(&self.assumptions),
            source_to_ssa: self.source_to_ssa.copy(),
        }
    }
}

impl TypeContext {
    /// The empty context.
    pub fn new() -> (r: Self)
        ensures
            r@.bindings.len() == 0,
            r@.assumptions.len() == 0,
            r@.source_to_ssa == Map::<Seq<char>, Seq<char>>::empty(),
    {
        let r = TypeContext { bindings: Vec::new(), assumptions: Vec::new(), source_to_ssa: StrMap::new() };
        proof {
            assert(r@.bindings =~= Seq::<(Seq<char>, TemplateV)>::empty());
            assert(r@.assumptions =~= Seq::<PredV>::empty());
        }
        r
    }

    /// Adds a binding; it shadows earlier bindings of the same name.
    pub fn bind(&mut self, name: String, template: Template)
        ensures
            final(self)@.bindings == old(self)@.bindings.push((name@, template@)),
            final(self)@.assumptions == old(self)@.assumptions,
            final(self)@.source_to_ssa == old(self)@.source_to_ssa,
    {
        self.bindings.push((name, template));
        proof {
            assert(bindings_view(self.bindings@) =~= bindings_view(old(self).bindings@).push((name@, template@)));
        }
    }

    /// Adds an assumption.
    pub fn assume_fact(&mut self, predicate: Predicate)
        ensures
            final(self)@.assumptions == old(self)@.assumptions.push(predicate@),
            final(self)@.bindings == old(self)@.bindings,
            final(self)@.source_to_ssa == old(self)@.source_to_ssa,
    {
        self.assumptions.push(predicate);
        proof {
            assert(preds_view(self.assumptions@) =~= preds_view(old(self).assumptions@).push(predicate@));
        }
    }

    /// The template of the most recent binding of `name`.
    pub fn lookup(&self, name: &str) -> (r: Option<&Template>)
        ensures
            match r {
                Some(t) => lookup_binding(self@.bindings, name@) == Some(t@),
                None => lookup_binding(self@.bindings, name@) is None,
            },
    {
        let mut i: usize = self.bindings.len();
        proof {
            assert(self@.bindings.subrange(0, i as int) =~= self@.bindings);
        }
        while i > 0
            invariant
                i <= self.bindings.len(),
                lookup_binding(self@.bindings, name@) == lookup_binding(self@.bindings.subrange(0, i as int), name@),
            decreases i,
        {
            let ghost prefix = self@.bindings.subrange(0, i as int);
            if str_eq(self.bindings[i - 1].0.as_str(), name) {
                return Some(&self.bindings[i - 1].1);
            }
            proof {
                assert(prefix.drop_last() =~= self@.bindings.subrange(0, i - 1));
            }
            i = i - 1;
        }
        None
    }

    pub fn bindings(&self) -> (r: &Vec<(String, Template)>)
        ensures
            bindings_view(r@) == self@.bindings,
    {
        &self.bindings
    }

    pub fn assumptions(&self) -> (r: &Vec<Predicate>)
        ensures
            preds_view(r@) == self@.assumptions,
    {
        &self.assumptions
    }

    /// Replaces the map from source names to SSA names.
    pub fn set_source_to_ssa(&mut self, mapping: StrMap<String>)
        ensures
            final(self)@.source_to_ssa == mapping@,
            final(self)@.bindings == old(self)@.bindings,
            final(self)@.assumptions == old(self)@.assumptions,
    {
        self.source_to_ssa = mapping;
    }

    pub fn source_to_ssa(&self) -> (r: &StrMap<String>)
        ensures
            r@ == self@.source_to_ssa,
    {
        &self.source_to_ssa
    }

    /// Whether `name` is bound.
    pub fn in_scope(&self, name: &str) -> (r: bool)
        ensures
            r == (lookup_binding(self@.bindings, name@) is Some),
    {
        self.lookup(name).is_some()
    }
}

// ---------------------------------------------------------------------------
// Constraints
// ---------------------------------------------------------------------------

/// A typing obligation.
#[derive(Debug)]
#[allow(inconsistent_fields)]
pub enum Constraint {
    /// Γ ⊢ τ WF: the free variables of τ's refinement are bound in Γ.
    WellFormed { context: TypeContext, template: Template, location: SourceRef },
    /// Γ ⊢ τ₁ <: τ₂.
    Subtype { context: TypeContext, sub: Template, sup: Template, location: SourceRef },
    /// Γ ⊢ result = left ⊗ right.
    BinaryOp { context: TypeContext, op: BinaryOperator, left: Template, right: Template, result: Template, location: SourceRef },
    /// Γ ⊢ result = op(operand).
    UnaryOp { context: TypeContext, op: UnaryOperator, operand: Template, result: Template, location: SourceRef },
    /// Γ ⊢ P before a call.
    Requires { context: TypeContext, condition: Predicate, location: SourceRef },
    /// Γ ⊢ P at an exit.
    Ensures { context: TypeContext, condition: Predicate, location: SourceRef },
    /// Γ ⊢ I when a loop is entered.
    LoopInvariantEntry { context: TypeContext, loop_invariant: Predicate, location: SourceRef },
    /// Γ, I ⊢ I after the loop body.
    LoopInvariantPreservation { context: TypeContext, loop_invariant: Predicate, location: SourceRef },
    /// Γ ⊢ V ≥ 0.
    LoopVariantNonNegative { context: TypeContext, variant: RefinementExpr, location: SourceRef },
    /// Γ ⊢ V_after < V_before.
    LoopVariantDecreases { context: TypeContext, variant_before: RefinementExpr, variant_after: RefinementExpr, location: SourceRef },
    /// Γ ⊢ the storage variable's refinement, where it is folded again.
    Fold { context: TypeContext, var: SymbolId, refinement: Predicate, location: SourceRef },
}

pub enum ConstraintV {
    WellFormed(TypeContextV, TemplateV, SourceRef),
    Subtype(TypeContextV, TemplateV, TemplateV, SourceRef),
    BinaryOp(TypeContextV, BinaryOperator, TemplateV, TemplateV, TemplateV, SourceRef),
    UnaryOp(TypeContextV, UnaryOperator, TemplateV, TemplateV, SourceRef),
    Requires(TypeContextV, PredV, SourceRef),
    Ensures(TypeContextV, PredV, SourceRef),
    LoopInvariantEntry(TypeContextV, PredV, SourceRef),
    LoopInvariantPreservation(TypeContextV, PredV, SourceRef),
    LoopVariantNonNegative(TypeContextV, ExprV, SourceRef),
    LoopVariantDecreases(TypeContextV, ExprV, ExprV, SourceRef),
    Fold(TypeContextV, SymbolIdV, PredV, SourceRef),
}

impl View for Constraint {
    type V = ConstraintV;

    open spec fn view(&self) -> ConstraintV {
        match *self {
            Constraint::WellFormed { context, template, location } => ConstraintV::WellFormed(context@, template@, location),
            Constraint::Subtype { context, sub, sup, location } => ConstraintV::Subtype(context@, sub@, sup@, location),
            Constraint::BinaryOp { context, op, left, right, result, location } => ConstraintV::BinaryOp(
                context@,
                op,
                left@,
                right@,
                result@,
                location,
            ),
            Constraint::UnaryOp { context, op, operand, result, location } => ConstraintV::UnaryOp(context@, op, operand@, result@, location),
            Constraint::Requires { context, condition, location } => ConstraintV::Requires(context@, condition@, location),
            Constraint::Ensures { context, condition, location } => ConstraintV::Ensures(context@, condition@, location),
            Constraint::LoopInvariantEntry { context, loop_invariant, location } => ConstraintV::LoopInvariantEntry(context@, loop_invariant@, location),
            Constraint::LoopInvariantPreservation { context, loop_invariant, location } => ConstraintV::LoopInvariantPreservation(
                context@,
                loop_invariant@,
                location,
            ),
            Constraint::LoopVariantNonNegative { context, variant, location } => ConstraintV::LoopVariantNonNegative(context@, variant@, location),
            Constraint::LoopVariantDecreases { context, variant_before, variant_after, location } => ConstraintV::LoopVariantDecreases(
                context@,
                variant_before@,
                variant_after@,
                location,
            ),
            Constraint::Fold { context, var, refinement, location } => ConstraintV::Fold(context@, var@, refinement@, location),
        }
    }
}

impl ConstraintV {
    pub open spec fn location(self) -> SourceRef {
        match self {
            ConstraintV::WellFormed(_, _, l) => l,
            ConstraintV::Subtype(_, _, _, l) => l,
            ConstraintV::BinaryOp(_, _, _, _, _, l) => l,
            ConstraintV::UnaryOp(_, _, _, _, l) => l,
            ConstraintV::Requires(_, _, l) => l,
            ConstraintV::Ensures(_, _, l) => l,
            ConstraintV::LoopInvariantEntry(_, _, l) => l,
            ConstraintV::LoopInvariantPreservation(_, _, l) => l,
            ConstraintV::LoopVariantNonNegative(_, _, l) => l,
            ConstraintV::LoopVariantDecreases(_, _, _, l) => l,
            ConstraintV::Fold(_, _, _, l) => l,
        }
    }

    pub open spec fn context(self) -> TypeContextV {
        match self {
            ConstraintV::WellFormed(c, _, _) => c,
            ConstraintV::Subtype(c, _, _, _) => c,
            ConstraintV::BinaryOp(c, _, _, _, _, _) => c,
            ConstraintV::UnaryOp(c, _, _, _, _) => c,
            ConstraintV::Requires(c, _, _) => c,
            ConstraintV::Ensures(c, _, _) => c,
            ConstraintV::LoopInvariantEntry(c, _, _) => c,
            ConstraintV::LoopInvariantPreservation(c, _, _) => c,
            ConstraintV::LoopVariantNonNegative(c, _, _) => c,
            ConstraintV::LoopVariantDecreases(c, _, _, _) => c,
            ConstraintV::Fold(c, _, _, _) => c,
        }
    }
}

impl Clone for Constraint {
    fn clone(&self) -> (r: Self)
        ensures
            r@ == self@,
    {
        match self {
            Constraint::WellFormed { context, template, location } => Constraint::WellFormed {
                context: context.clone(),
                template: template.clone(),
                location: *location,
            },
            Constraint::Subtype { context, sub, sup, location } => Constraint::Subtype {
                context: context.clone(),
                sub: sub.clone(),
                sup: sup.clone(),
                location: *location,
            },
            Constraint::BinaryOp { context, op, left, right, result, location } => Constraint::BinaryOp {
                context: context.clone(),
                op: *op,
                left: left.clone(),
                right: right.clone(),
                result: result.clone(),
                location: *location,
            },
            Constraint::UnaryOp { context, op, operand, result, location } => Constraint::UnaryOp {
                context: context.clone(),
                op: *op,
                operand: operand.clone(),
                result: result.clone(),
                location: *location,
            },
            Constraint::Requires { context, condition, location } => Constraint::Requires {
                context: context.clone(),
                condition: condition.clone(),
                location: *location,
            },
            Constraint::Ensures { context, condition, location } => Constraint::Ensures {
                context: context.clone(),
                condition: condition.clone(),
                location: *location,
            },
            Constraint::LoopInvariantEntry { context, loop_invariant, location } => Constraint::LoopInvariantEntry {
                context: context.clone(),
                loop_invariant: loop_invariant.clone(),
                location: *location,
            },
            Constraint::LoopInvariantPreservation { context, loop_invariant, location } => Constraint::LoopInvariantPreservation {
                context: context.clone(),
                loop_invariant: loop_invariant.clone(),
                location: *location,
            },
            Constraint::LoopVariantNonNegative { context, variant, location } => Constraint::LoopVariantNonNegative {
                context: context.clone(),
                variant: variant.clone(),
                location: *location,
            },
            Constraint::LoopVariantDecreases { context, variant_before, variant_after, location } => Constraint::LoopVariantDecreases {
                context: context.clone(),
                variant_before: variant_before.clone(),
                variant_after: variant_after.clone(),
                location: *location,
            },
            Constraint::Fold { context, var, refinement, location } => Constraint::Fold {
                context: context.clone(),
                var: var.clone(),
                refinement: refinement.clone(),
                location: *location,
            },
        }
    }
}

impl Constraint {
    /// Where the constraint comes from.
    pub fn location(&self) -> (r: &SourceRef)
        ensures
            *r == self@.location(),
    {
        match self {
            Constraint::WellFormed { location, .. } => location,
            Constraint::Subtype { location, .. } => location,
            Constraint::BinaryOp { location, .. } => location,
            Constraint::UnaryOp { location, .. } => location,
            Constraint::Requires { location, .. } => location,
            Constraint::Ensures { location, .. } => location,
            Constraint::LoopInvariantEntry { location, .. } => location,
            Constraint::LoopInvariantPreservation { location, .. } => location,
            Constraint::LoopVariantNonNegative { location, .. } => location,
            Constraint::LoopVariantDecreases { location, .. } => location,
            Constraint::Fold { location, .. } => location,
        }
    }

    /// The context the constraint is stated in.
    pub fn context(&self) -> (r: &TypeContext)
        ensures
            r@ == self@.context(),
    {
        match self {
            Constraint::WellFormed { context, .. } => context,
            Constraint::Subtype { context, .. } => context,
            Constraint::BinaryOp { context, .. } => context,
            Constraint::UnaryOp { context, .. } => context,
            Constraint::Requires { context, .. } => context,
            Constraint::Ensures { context, .. } => context,
            Constraint::LoopInvariantEntry { context, .. } => context,
            Constraint::LoopInvariantPreservation { context, .. } => context,
            Constraint::LoopVariantNonNegative { context, .. } => context,
            Constraint::LoopVariantDecreases { context, .. } => context,
            Constraint::Fold { context, .. } => context,
        }
    }
}

// ---------------------------------------------------------------------------
// Constraint sets
// ---------------------------------------------------------------------------

pub open spec fn constraints_view(s: Seq<Constraint>) -> Seq<ConstraintV> {
    s.map_values(|c: Constraint| c@)
}

/// The constraints gathered from a function, in the order they were made.
#[derive(Debug)]
pub struct ConstraintSet {
    constraints: Vec<Constraint>,
}

impl View for ConstraintSet {
    type V = Seq<ConstraintV>;

    closed spec fn view(&self) -> Seq<ConstraintV> {
        constraints_view(self.constraints@)
    }
}

impl Clone for ConstraintSet {
    fn clone(&self) -> (r: Self)
        ensures
            r@ == self@,
    {
        let mut out: Vec<Constraint> = Vec::new();
        let mut i: usize = 0;
        while i < self.constraints.len()
            invariant
                i <= self.constraints.len(),
                out.len() == i,
                forall|j: int| 0 <= j < i ==> (#[trigger] out@[j])@ == self.constraints@[j]@,
            decreases self.constraints.len() - i,
        {
            out.push(self.constraints[i].clone());
            i = i + 1;
        }
        let r = ConstraintSet { constraints: out };
        proof {
            assert(r@ =~= self@);
        }
        r
    }
}

impl ConstraintSet {
    pub fn new() -> (r: Self)
        ensures
            r@ == Seq::<ConstraintV>::empty(),
    {
        let r = ConstraintSet { constraints: Vec::new() };
        proof {
            assert(r@ =~= Seq::<ConstraintV>::empty());
        }
        r
    }

    pub fn add(&mut self, constraint: Constraint)
        ensures
            final(self)@ == old(self)@.push(constraint@),
    {
        self.constraints.push(constraint);
        proof {
            assert(self@ =~= old(self)@.push(constraint@));
        }
    }

    /// Appends the given constraints, in order.
    pub fn extend(&mut self, constraints: Vec<Constraint>)
        ensures
            final(self)@ == old(self)@ + constraints_view(constraints@),
    {
        let mut more = constraints;
        self.constraints.append(&mut more);
        proof {
            assert(self@ =~= old(self)@ + constraints_view(constraints@));
        }
    }

    /// Appends the constraints of another set, in order.
    pub fn merge(&mut self, other: ConstraintSet)
        ensures
            final(self)@ == old(self)@ + other@,
    {
        self.extend(other.constraints);
    }

    pub fn constraints(&self) -> (r: &Vec<Constraint>)
        ensures
            constraints_view(r@) == self@,
    {
        &self.constraints
    }

    /// The list of constraints, to change in place.
    pub fn constraints_mut(&mut self) -> (r: &mut Vec<Constraint>)
        ensures
            constraints_view(r@) == old(self)@,
            final(self)@ == constraints_view(final(r)@),
    {
        &mut self.constraints
    }

    pub fn len(&self) -> (r: usize)
        ensures
            r == self@.len(),
    {
        self.constraints.len()
    }

    pub fn is_empty(&self) -> (r: bool)
        ensures
            r == (self@.len() == 0),
    {
        self.constraints.len() == 0
    }

    /// All constraints, in order, as an owned list.
    pub fn into_vec(self) -> (r: Vec<Constraint>)
        ensures
            constraints_view(r@) == self@,
    {
        self.constraints
    }
}

/// How a constraint is written.
pub open spec fn constraint_text(c: ConstraintV) -> Seq<char> {
    match c {
        ConstraintV::WellFormed(_, t, _) => "WF("@ + template_text(t) + ")"@,
        ConstraintV::Subtype(_, sub, sup, _) => template_text(sub) + " <: "@ + template_text(sup),
        ConstraintV::BinaryOp(_, _, l, r, res, _) => template_text(res) + " = "@ + template_text(l) + " ⊗ "@ + template_text(r),
        ConstraintV::UnaryOp(_, op, x, res, _) => unop_text(op) + " = "@ + template_text(x) + template_text(res),
        ConstraintV::Requires(_, p, _) => "REQUIRES("@ + pred_text(p) + ")"@,
        ConstraintV::Ensures(_, p, _) => "ENSURE("@ + pred_text(p) + ")"@,
        ConstraintV::LoopInvariantEntry(_, p, _) => "LOOP_INVARIANT_ENTRY("@ + pred_text(p) + ")"@,
        ConstraintV::LoopInvariantPreservation(_, p, _) => "LOOP_INVARIANT_PRESERVATION("@ + pred_text(p) + ")"@,
        ConstraintV::LoopVariantNonNegative(_, v, _) => "LOOP_INVARIANT_NON_NEGATIVE("@ + expr_text(v) + ")"@,
        ConstraintV::LoopVariantDecreases(_, before, after, _) => "LOOP_VARIANT_DECREASES("@ + expr_text(after) + " < "@ + expr_text(
            before,
        ) + ")"@,
        ConstraintV::Fold(_, v, p, _) => "FOLD("@ + symbol_label(v) + ", "@ + pred_text(p) + ")"@,
    }
}

impl Constraint {
    /// How the constraint is written.
    pub fn to_string(&self) -> (r: String)
        ensures
            r@ == constraint_text(self@),
    {
        let out = match self {
            Constraint::WellFormed { template, .. } => String::from_str("WF(").concat(template.to_string().as_str()).concat(")"),
            Constraint::Subtype { sub, sup, .. } => sub.to_string().concat(" <: ").concat(sup.to_string().as_str()),
            Constraint::BinaryOp { left, right, result, .. } => result.to_string().concat(" = ").concat(left.to_string().as_str()).concat(
                " ⊗ ",
            ).concat(right.to_string().as_str()),
            Constraint::UnaryOp { op, operand, result, .. } => op.to_string().concat(" = ").concat(operand.to_string().as_str()).concat(
                result.to_string().as_str(),
            ),
            Constraint::Requires { condition, .. } => String::from_str("REQUIRES(").concat(condition.to_string().as_str()).concat(")"),
            Constraint::Ensures { condition, .. } => String::from_str("ENSURE(").concat(condition.to_string().as_str()).concat(")"),
            Constraint::LoopInvariantEntry { loop_invariant, .. } => String::from_str("LOOP_INVARIANT_ENTRY(").concat(
                loop_invariant.to_string().as_str(),
            ).concat(")"),
            Constraint::LoopInvariantPreservation { loop_invariant, .. } => String::from_str("LOOP_INVARIANT_PRESERVATION(").concat(
                loop_invariant.to_string().as_str(),
            ).concat(")"),
            Constraint::LoopVariantNonNegative { variant, .. } => String::from_str("LOOP_INVARIANT_NON_NEGATIVE(").concat(
                variant.to_string().as_str(),
            ).concat(")"),
            Constraint::LoopVariantDecreases { variant_before, variant_after, .. } => String::from_str("LOOP_VARIANT_DECREASES(").concat(
                variant_after.to_string().as_str(),
            ).concat(" < ").concat(variant_before.to_string().as_str()).concat(")"),
            Constraint::Fold { var, refinement, .. } => String::from_str("FOLD(").concat(symbol_label_string(var).as_str()).concat(", ").concat(
                refinement.to_string().as_str(),
            ).concat(")"),
        };
        assert(out@ =~= constraint_text(self@));
        out
    }
}

/// How each binding of a context is written: `name: template`.
pub open spec fn binding_texts(bs: Seq<(Seq<char>, TemplateV)>) -> Seq<Seq<char>> {
    Seq::new(bs.len(), |i: int| bs[i].0 + ": "@ + template_text(bs[i].1))
}

/// The texts joined with ` ∧ `.
pub open spec fn join_and(s: Seq<Seq<char>>) -> Seq<char>
    decreases s.len(),
{
    if s.len() == 0 {
        Seq::empty()
    } else if s.len() == 1 {
        s[0]
    } else {
        join_and(s.drop_last()) + " ∧ "@ + s.last()
    }
}

/// How a context is written: `Γ{` the bindings, then ` | ` and the
/// assumptions if there are any, `}`.
pub open spec fn context_text(c: TypeContextV) -> Seq<char> {
    "Γ{"@ + crate::names::join_comma(binding_texts(c.bindings)) + (if c.assumptions.len() > 0 {
        " | "@ + join_and(Seq::new(c.assumptions.len(), |i: int| pred_text(c.assumptions[i])))
    } else {
        Seq::empty()
    }) + "}"@
}

impl TypeContext {
    /// How the context is written.
    pub fn to_string(&self) -> (r: String)
        ensures
            r@ == context_text(self@),
    {
        let mut parts: Vec<String> = Vec::new();
        let mut i: usize = 0;
        while i < self.bindings.len()
            invariant
                i <= self.bindings.len(),
                parts.len() == i,
                forall|j: int| 0 <= j < i ==> (#[trigger] parts@[j])@ == binding_texts(self@.bindings)[j],
            decreases self.bindings.len() - i,
        {
            let b = &self.bindings[i];
            let text = b.0.clone().concat(": ").concat(b.1.to_string().as_str());
            proof {
                assert(self@.bindings[i as int] == (b.0@, b.1@));
            }
            parts.push(text);
            i = i + 1;
        }
        proof {
            assert(crate::names::texts_view(parts@) =~= binding_texts(self@.bindings));
        }
        let mut out = String::from_str("Γ{").concat(crate::names::join_strings(&parts).as_str());
        if self.assumptions.len() > 0 {
            let ghost preds = Seq::new(self@.assumptions.len(), |i: int| pred_text(self@.assumptions[i]));
            let mut and = String::new();
            let mut k: usize = 0;
            proof {
                assert(preds.take(0) =~= Seq::<Seq<char>>::empty());
            }
            while k < self.assumptions.len()
                invariant
                    k <= self.assumptions.len(),
                    preds.len() == self.assumptions.len(),
                    forall|j: int| 0 <= j < preds.len() ==> preds[j] == pred_text(self@.assumptions[j]),
                    forall|j: int| 0 <= j < self.assumptions.len() ==> self@.assumptions[j] == (#[trigger] self.assumptions@[j])@,
                    and@ == join_and(preds.take(k as int)),
                decreases self.assumptions.len() - k,
            {
                proof {
                    assert(preds.take(k + 1).drop_last() =~= preds.take(k as int));
                }
                if k > 0 {
                    and.append(" ∧ ");
                }
                and.append(self.assumptions[k].to_string().as_str());
                proof {
                    if k == 0 {
                        assert(and@ =~= preds.take(1)[0]);
                    }
                }
                k = k + 1;
            }
            proof {
                assert(preds.take(self.assumptions.len() as int) =~= preds);
            }
            out = out.concat(" | ").concat(and.as_str());
        }
        let out = out.concat("}");
        assert(out@ =~= context_text(self@));
        out
    }
}

} // verus!
