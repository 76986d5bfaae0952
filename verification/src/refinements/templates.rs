use vstd::prelude::*;
use vstd::string::StringExecFns;

use crate::ast::meta::SourceRef;
use crate::ast::predicate::{Predicate, PredV, pred_rename, rename, expr_rename, ExprV, filler_expr, expr_free_vars, pred_free_vars};
use crate::ast::types::{BaseType, BaseTypeV, Type, base_text};
use crate::ast::predicate::pred_text;
use crate::names::{decimal, usize_to_string};
use crate::names::StrMap;

verus! {

/// An unknown refinement κᵢ, to be inferred.
#[derive(Debug, Clone, Copy, PartialEq, Eq, Hash)]
pub struct LiquidVar(pub usize);

/// Hands out liquid variables κ0, κ1, ... in order.
#[derive(Debug, Clone)]
pub struct LiquidVarGenerator {
    counter: usize,
}

impl LiquidVarGenerator {
    pub closed spec fn next_index(&self) -> nat {
        self.counter as nat
    }

    pub fn new() -> (r: Self)
        ensures
            r.next_index() == 0,
    {
        LiquidVarGenerator { counter: 0 }
    }

    /// Whether a fresh variable can still be made.
    pub fn can_make(&self) -> (r: bool)
        ensures
            r == (self.next_index() < usize::MAX),
    {
        self.counter < usize::MAX
    }

    /// A fresh variable: the next index, which then moves on by one.
    pub fn fresh(&mut self) -> (v: LiquidVar)
        requires
            old(self).next_index() < usize::MAX,
        ensures
            v.0 == old(self).next_index(),
            final(self).next_index() == old(self).next_index() + 1,
    {
        let var = LiquidVar(self.counter);
        self.counter = self.counter + 1;
        var
    }
}

/// A refined type whose refinement is either unknown (liquid) or given.
#[derive(Debug)]
pub enum Template {
    Liquid { base: BaseType, binder: String, liquid_var: LiquidVar, source_ref: SourceRef },
    Concrete { base: BaseType, binder: String, refinement: Predicate, source_ref: SourceRef },
}

pub enum TemplateV {
    Liquid { base: BaseTypeV, binder: Seq<char>, liquid_var: LiquidVar, source_ref: SourceRef },
    Concrete { base: BaseTypeV, binder: Seq<char>, refinement: PredV, source_ref: SourceRef },
}

impl TemplateV {
    pub open spec fn base(self) -> BaseTypeV {
        match self {
            TemplateV::Liquid { base, .. } => base,
            TemplateV::Concrete { base, .. } => base,
        }
    }

    pub open spec fn binder(self) -> Seq<char> {
        match self {
            TemplateV::Liquid { binder, .. } => binder,
            TemplateV::Concrete { binder, .. } => binder,
        }
    }

    pub open spec fn source_ref(self) -> SourceRef {
        match self {
            TemplateV::Liquid { source_ref, .. } => source_ref,
            TemplateV::Concrete { source_ref, .. } => source_ref,
        }
    }
}

impl View for Template {
    type V = TemplateV;

    open spec fn view(&self) -> TemplateV {
        match *self {
            Template::Liquid { base, binder, liquid_var, source_ref } => TemplateV::Liquid {
                base: base@,
                binder: binder@,
                liquid_var,
                source_ref,
            },
            Template::Concrete { base, binder, refinement, source_ref } => TemplateV::Concrete {
                base: base@,
                binder: binder@,
                refinement: refinement@,
                source_ref,
            },
        }
    }
}

impl Clone for Template {
    fn clone(&self) -> (r: Self)
        ensures
            r@ == self@,
    {
        match self {
            Template::Liquid { base, binder, liquid_var, source_ref } => Template::Liquid {
                base: base.clone(),
                binder: binder.clone(),
                liquid_var: *liquid_var,
                source_ref: *source_ref,
            },
            Template::Concrete { base, binder, refinement, source_ref } => Template::Concrete {
                base: base.clone(),
                binder: binder.clone(),
                refinement: refinement.clone(),
                source_ref: *source_ref,
            },
        }
    }
}

/// Renaming by the empty map changes nothing.
pub proof fn lemma_expr_rename_empty(e: ExprV)
    ensures
        expr_rename(e, Map::empty()) == e,
    decreases e,
{
    match e {
        ExprV::BinOp(_, l, r, _, _) => {
            lemma_expr_rename_empty(*l);
            lemma_expr_rename_empty(*r);
        },
        ExprV::UnaryOp(_, x, _, _) => lemma_expr_rename_empty(*x),
        ExprV::Old(x, _, _) => lemma_expr_rename_empty(*x),
        ExprV::UninterpFn(n, args, id, sr) => {
            assert forall|i: int| 0 <= i < args.len() implies expr_rename(args[i], Map::empty()) == args[i] by {
                lemma_expr_rename_empty(args[i]);
            }
            assert(expr_rename(e, Map::empty())->UninterpFn_1 =~= args);
        },
        ExprV::Var(n, _, _) => {
            assert(rename(Map::empty(), n) == n);
        },
        _ => {},
    }
}

/// Renaming by the empty map changes nothing.
pub proof fn lemma_pred_rename_empty(p: PredV)
    ensures
        pred_rename(p, Map::empty()) == p,
    decreases p,
{
    match p {
        PredV::BinRel(_, l, r, _, _) => {
            lemma_expr_rename_empty(l);
            lemma_expr_rename_empty(r);
        },
        PredV::And(l, r, _, _) | PredV::Or(l, r, _, _) | PredV::Implies(l, r, _, _) => {
            lemma_pred_rename_empty(*l);
            lemma_pred_rename_empty(*r);
        },
        PredV::Not(q, _, _) => lemma_pred_rename_empty(*q),
        PredV::UninterpFnCall(n, args, id, sr) => {
            assert forall|i: int| 0 <= i < args.len() implies expr_rename(args[i], Map::empty()) == args[i] by {
                lemma_expr_rename_empty(args[i]);
            }
            assert(pred_rename(p, Map::empty())->UninterpFnCall_1 =~= args);
        },
        PredV::Var(n, _, _) => {
            assert(rename(Map::empty(), n) == n);
        },
        _ => {},
    }
}

/// Renaming only variables an expression does not mention changes nothing.
pub proof fn lemma_expr_rename_unmentioned(e: ExprV, m: Map<Seq<char>, Seq<char>>)
    requires
        forall|n: Seq<char>| #[trigger] expr_free_vars(e).contains(n) ==> !m.dom().contains(n),
    ensures
        expr_rename(e, m) == e,
    decreases e,
{
    match e {
        ExprV::BinOp(_, l, r, _, _) => {
            assert forall|n: Seq<char>| #[trigger] expr_free_vars(*l).contains(n) implies !m.dom().contains(n) by {
                assert(expr_free_vars(e).contains(n));
            }
            assert forall|n: Seq<char>| #[trigger] expr_free_vars(*r).contains(n) implies !m.dom().contains(n) by {
                assert(expr_free_vars(e).contains(n));
            }
            lemma_expr_rename_unmentioned(*l, m);
            lemma_expr_rename_unmentioned(*r, m);
        },
        ExprV::UnaryOp(_, x, _, _) => {
            assert forall|n: Seq<char>| #[trigger] expr_free_vars(*x).contains(n) implies !m.dom().contains(n) by {
                assert(expr_free_vars(e).contains(n));
            }
            lemma_expr_rename_unmentioned(*x, m);
        },
        ExprV::Old(x, _, _) => {
            assert forall|n: Seq<char>| #[trigger] expr_free_vars(*x).contains(n) implies !m.dom().contains(n) by {
                assert(expr_free_vars(e).contains(n));
            }
            lemma_expr_rename_unmentioned(*x, m);
        },
        ExprV::UninterpFn(n, args, id, sr) => {
            assert forall|i: int| 0 <= i < args.len() implies expr_rename(args[i], m) == args[i] by {
                assert forall|x: Seq<char>| #[trigger] expr_free_vars(args[i]).contains(x) implies !m.dom().contains(x) by {
                    assert(expr_free_vars(e).contains(x));
                }
                lemma_expr_rename_unmentioned(args[i], m);
            }
            assert(expr_rename(e, m)->UninterpFn_1 =~= args);
        },
        ExprV::Var(n, _, _) => {
            assert(expr_free_vars(e).contains(n));
        },
        _ => {},
    }
}

/// Renaming only variables a predicate does not mention changes nothing.
pub proof fn lemma_pred_rename_unmentioned(p: PredV, m: Map<Seq<char>, Seq<char>>)
    requires
        forall|n: Seq<char>| #[trigger] pred_free_vars(p).contains(n) ==> !m.dom().contains(n),
    ensures
        pred_rename(p, m) == p,
    decreases p,
{
    match p {
        PredV::BinRel(_, l, r, _, _) => {
            assert forall|n: Seq<char>| #[trigger] expr_free_vars(l).contains(n) implies !m.dom().contains(n) by {
                assert(pred_free_vars(p).contains(n));
            }
            assert forall|n: Seq<char>| #[trigger] expr_free_vars(r).contains(n) implies !m.dom().contains(n) by {
                assert(pred_free_vars(p).contains(n));
            }
            lemma_expr_rename_unmentioned(l, m);
            lemma_expr_rename_unmentioned(r, m);
        },
        PredV::And(l, r, _, _) | PredV::Or(l, r, _, _) | PredV::Implies(l, r, _, _) => {
            assert forall|n: Seq<char>| #[trigger] pred_free_vars(*l).contains(n) implies !m.dom().contains(n) by {
                assert(pred_free_vars(p).contains(n));
            }
            assert forall|n: Seq<char>| #[trigger] pred_free_vars(*r).contains(n) implies !m.dom().contains(n) by {
                assert(pred_free_vars(p).contains(n));
            }
            lemma_pred_rename_unmentioned(*l, m);
            lemma_pred_rename_unmentioned(*r, m);
        },
        PredV::Not(q, _, _) => {
            assert forall|n: Seq<char>| #[trigger] pred_free_vars(*q).contains(n) implies !m.dom().contains(n) by {
                assert(pred_free_vars(p).contains(n));
            }
            lemma_pred_rename_unmentioned(*q, m);
        },
        PredV::UninterpFnCall(n, args, id, sr) => {
            assert forall|i: int| 0 <= i < args.len() implies expr_rename(args[i], m) == args[i] by {
                assert forall|x: Seq<char>| #[trigger] expr_free_vars(args[i]).contains(x) implies !m.dom().contains(x) by {
                    assert(pred_free_vars(p).contains(x));
                }
                lemma_expr_rename_unmentioned(args[i], m);
            }
            assert(pred_rename(p, m)->UninterpFnCall_1 =~= args);
        },
        PredV::Var(n, _, _) => {
            assert(pred_free_vars(p).contains(n));
        },
        _ => {},
    }
}

/// A template with its binder renamed to `nb`; in a given refinement the
/// old binder is renamed too.
pub open spec fn rebind(t: TemplateV, nb: Seq<char>) -> TemplateV {
    match t {
        TemplateV::Concrete { base, binder, refinement, source_ref } => TemplateV::Concrete {
            base,
            binder: nb,
            refinement: pred_rename(refinement, map![binder => nb]),
            source_ref,
        },
        TemplateV::Liquid { base, liquid_var, source_ref, .. } => TemplateV::Liquid { base, binder: nb, liquid_var, source_ref },
    }
}

impl Template {
    /// The template of a type: a written type's refinement is kept, an
    /// inferred one is replaced by a fresh liquid variable.
    pub fn from_type(ty: &Type, liquid_gen: &mut LiquidVarGenerator) -> (r: Template)
        requires
            !ty@.explicit_annotation ==> old(liquid_gen).next_index() < usize::MAX,
        ensures
            ty@.explicit_annotation ==> r@ == (TemplateV::Concrete {
                base: ty@.base,
                binder: ty@.binder,
                refinement: ty@.constraint,
                source_ref: ty@.source_ref,
            }) && final(liquid_gen).next_index() == old(liquid_gen).next_index(),
            !ty@.explicit_annotation ==> r@ == (TemplateV::Liquid {
                base: ty@.base,
                binder: ty@.binder,
                liquid_var: LiquidVar(old(liquid_gen).next_index() as usize),
                source_ref: ty@.source_ref,
            }) && final(liquid_gen).next_index() == old(liquid_gen).next_index() + 1,
    {
        if ty.is_explicit_annotation() {
            Template::Concrete {
                base: ty.base.clone(),
                binder: ty.binder.clone(),
                refinement: ty.constraint.clone(),
                source_ref: ty.source_ref,
            }
        } else {
            Template::Liquid {
                base: ty.base.clone(),
                binder: ty.binder.clone(),
                liquid_var: liquid_gen.fresh(),
                source_ref: ty.source_ref,
            }
        }
    }

    /// Resolves names other than the binder in a given refinement through
    /// `source_to_ssa`; a liquid template is left as it is.
    pub fn resolve_cross_refs(&mut self, source_to_ssa: &StrMap<String>)
        ensures
            match old(self)@ {
                TemplateV::Concrete { base, binder, refinement, source_ref } => final(self)@ == (TemplateV::Concrete {
                    base,
                    binder,
                    refinement: pred_rename(refinement, source_to_ssa@.remove(binder)),
                    source_ref,
                }),
                TemplateV::Liquid { .. } => final(self)@ == old(self)@,
            },
    {
        if let Template::Concrete { binder, refinement, .. } = self {
            let mut filtered = source_to_ssa.copy();
            filtered.remove(binder.as_str());
            if !filtered.is_empty() {
                *refinement = refinement.substitute_vars(&filtered);
            } else {
                proof {
                    assert(filtered@ =~= Map::<Seq<char>, Seq<char>>::empty());
                    lemma_pred_rename_empty(refinement@);
                }
            }
        }
    }

    /// Renames the binder, in the refinement too when it is given.
    pub fn replace_binder(&mut self, new_binder: &str)
        ensures
            final(self)@ == rebind(old(self)@, new_binder@),
    {
        match self {
            Template::Concrete { binder, refinement, .. } => {
                let mut subst: StrMap<String> = StrMap::new();
                subst.insert(binder.clone(), String::from_str(new_binder));
                proof {
                    assert(subst@ =~= map![binder@ => new_binder@]);
                }
                *refinement = refinement.substitute_vars(&subst);
                *binder = String::from_str(new_binder);
            },
            Template::Liquid { binder, .. } => {
                *binder = String::from_str(new_binder);
            },
        }
    }

    pub fn base_type(&self) -> (r: &BaseType)
        ensures
            r@ == self@.base(),
    {
        match self {
            Template::Liquid { base, .. } => base,
            Template::Concrete { base, .. } => base,
        }
    }

    pub fn binder(&self) -> (r: &str)
        ensures
            r@ == self@.binder(),
    {
        match self {
            Template::Liquid { binder, .. } => binder.as_str(),
            Template::Concrete { binder, .. } => binder.as_str(),
        }
    }

    pub fn source_ref(&self) -> (r: &SourceRef)
        ensures
            *r == self@.source_ref(),
    {
        match self {
            Template::Liquid { source_ref, .. } => source_ref,
            Template::Concrete { source_ref, .. } => source_ref,
        }
    }

    pub fn is_liquid(&self) -> (r: bool)
        ensures
            r == (self@ is Liquid),
    {
        match self {
            Template::Liquid { .. } => true,
            Template::Concrete { .. } => false,
        }
    }

    pub fn is_concrete(&self) -> (r: bool)
        ensures
            r == (self@ is Concrete),
    {
        match self {
            Template::Liquid { .. } => false,
            Template::Concrete { .. } => true,
        }
    }

    pub fn liquid_var(&self) -> (r: Option<LiquidVar>)
        ensures
            match self@ {
                TemplateV::Liquid { liquid_var, .. } => r == Some(liquid_var),
                TemplateV::Concrete { .. } => r is None,
            },
    {
        match self {
            Template::Liquid { liquid_var, .. } => Some(*liquid_var),
            Template::Concrete { .. } => None,
        }
    }

    pub fn refinement(&self) -> (r: Option<&Predicate>)
        ensures
            match self@ {
                TemplateV::Concrete { refinement, .. } => r.is_some() && r.unwrap()@ == refinement,
                TemplateV::Liquid { .. } => r is None,
            },
    {
        match self {
            Template::Concrete { refinement, .. } => Some(refinement),
            Template::Liquid { .. } => None,
        }
    }
}

impl LiquidVar {
    /// `κ` followed by the index.
    pub fn to_string(&self) -> (r: String)
        ensures
            r@ == seq!['κ'] + decimal(self.0 as nat),
    {
        proof {
            reveal_strlit("κ");
            assert("κ"@ =~= seq!['κ']);
        }
        let n = usize_to_string(self.0);
        String::from_str("κ").concat(n.as_str())
    }
}

/// How a template is written: `{base | r}` when the binder is `ν`,
/// `{binder: base | r}` otherwise, where `r` is the refinement or the
/// liquid variable.
pub open spec fn template_text(t: TemplateV) -> Seq<char> {
    let r = match t {
        TemplateV::Liquid { liquid_var, .. } => seq!['κ'] + decimal(liquid_var.0 as nat),
        TemplateV::Concrete { refinement, .. } => pred_text(refinement),
    };
    if t.binder() == seq!['ν'] {
        seq!['{'] + base_text(t.base()) + seq![' ', '|', ' '] + r + seq!['}']
    } else {
        seq!['{'] + t.binder() + seq![':', ' '] + base_text(t.base()) + seq![' ', '|', ' '] + r + seq!['}']
    }
}

impl Template {
    /// How the template is written.
    pub fn to_string(&self) -> (r: String)
        ensures
            r@ == template_text(self@),
    {
        proof {
            reveal_strlit("{");
            reveal_strlit(": ");
            reveal_strlit(" | ");
            reveal_strlit("}");
            reveal_strlit("ν");
            assert("{"@ =~= seq!['{']);
            assert(": "@ =~= seq![':', ' ']);
            assert(" | "@ =~= seq![' ', '|', ' ']);
            assert("}"@ =~= seq!['}']);
            assert("ν"@ =~= seq!['ν']);
        }
        let (base, binder, r) = match self {
            Template::Liquid { base, binder, liquid_var, .. } => (base.to_string(), binder, liquid_var.to_string()),
            Template::Concrete { base, binder, refinement, .. } => (base.to_string(), binder, refinement.to_string()),
        };
        if crate::names::str_eq(binder.as_str(), "ν") {
            String::from_str("{").concat(base.as_str()).concat(" | ").concat(r.as_str()).concat("}")
        } else {
            String::from_str("{").concat(binder.as_str()).concat(": ").concat(base.as_str()).concat(" | ").concat(r.as_str()).concat("}")
        }
    }
}

// ---------------------------------------------------------------------------
// Assignments of predicates to liquid variables
// ---------------------------------------------------------------------------

pub open spec fn assignment_view(s: Seq<(LiquidVar, Predicate)>) -> Map<LiquidVar, PredV>
    decreases s.len(),
{
    if s.len() == 0 {
        Map::empty()
    } else {
        assignment_view(s.drop_last()).insert(s.last().0, s.last().1@)
    }
}

pub open spec fn keys_unique(s: Seq<(LiquidVar, Predicate)>) -> bool {
    forall|i: int, j: int| 0 <= i < j < s.len() ==> (#[trigger] s[i]).0 != (#[trigger] s[j]).0
}

pub proof fn lemma_assignment_dom(s: Seq<(LiquidVar, Predicate)>, k: LiquidVar)
    ensures
        assignment_view(s).dom().contains(k) <==> exists|i: int| 0 <= i < s.len() && (#[trigger] s[i]).0 == k,
    decreases s.len(),
{
    if s.len() > 0 {
        lemma_assignment_dom(s.drop_last(), k);
        if assignment_view(s.drop_last()).dom().contains(k) {
            let i = choose|i: int| 0 <= i < s.drop_last().len() && (#[trigger] s.drop_last()[i]).0 == k;
            assert(s[i] == s.drop_last()[i]);
        }
        if exists|i: int| 0 <= i < s.len() && (#[trigger] s[i]).0 == k {
            let i = choose|i: int| 0 <= i < s.len() && (#[trigger] s[i]).0 == k;
            if i < s.len() - 1 {
                assert(s.drop_last()[i] == s[i]);
            }
        }
    }
}

pub proof fn lemma_assignment_lookup(s: Seq<(LiquidVar, Predicate)>, i: int)
    requires
        keys_unique(s),
        0 <= i < s.len(),
    ensures
        assignment_view(s).dom().contains(s[i].0),
        assignment_view(s)[s[i].0] == s[i].1@,
    decreases s.len(),
{
    if i < s.len() - 1 {
        assert(keys_unique(s.drop_last()));
        assert(s.drop_last()[i] == s[i]);
        lemma_assignment_lookup(s.drop_last(), i);
        assert(s.last().0 != s[i].0);
    }
}

pub proof fn lemma_assignment_len(s: Seq<(LiquidVar, Predicate)>)
    requires
        keys_unique(s),
    ensures
        assignment_view(s).dom().finite(),
        assignment_view(s).dom().len() == s.len(),
    decreases s.len(),
{
    if s.len() > 0 {
        assert(keys_unique(s.drop_last()));
        lemma_assignment_len(s.drop_last());
        lemma_assignment_dom(s.drop_last(), s.last().0);
        if exists|i: int| 0 <= i < s.drop_last().len() && (#[trigger] s.drop_last()[i]).0 == s.last().0 {
            let i = choose|i: int| 0 <= i < s.drop_last().len() && (#[trigger] s.drop_last()[i]).0 == s.last().0;
            assert(s[i] == s.drop_last()[i]);
        }
    }
}

/// The predicates inferred so far for liquid variables.
#[derive(Debug)]
pub struct LiquidAssignment {
    assignments: Vec<(LiquidVar, Predicate)>,
}

impl View for LiquidAssignment {
    type V = Map<LiquidVar, PredV>;

    open spec fn view(&self) -> Map<LiquidVar, PredV> {
        assignment_view(self.spec_entries())
    }
}

impl LiquidAssignment {
    pub closed spec fn spec_entries(&self) -> Seq<(LiquidVar, Predicate)> {
        self.assignments@
    }

    #[verifier::type_invariant]
    closed spec fn wf(&self) -> bool {
        keys_unique(self.assignments@)
    }

    pub fn new() -> (r: Self)
        ensures
            r@ == Map::<LiquidVar, PredV>::empty(),
    {
        LiquidAssignment { assignments: Vec::new() }
    }

    fn position(&self, var: LiquidVar) -> (r: Option<usize>)
        ensures
            match r {
                Some(i) => i < self.assignments.len() && self.assignments@[i as int].0 == var,
                None => forall|j: int| 0 <= j < self.assignments.len() ==> (#[trigger] self.assignments@[j]).0 != var,
            },
    {
        let mut i: usize = 0;
        while i < self.assignments.len()
            invariant
                i <= self.assignments.len(),
                forall|j: int| 0 <= j < i ==> (#[trigger] self.assignments@[j]).0 != var,
            decreases self.assignments.len() - i,
        {
            if self.assignments[i].0.0 == var.0 {
                return Some(i);
            }
            i = i + 1;
        }
        None
    }

    /// Sets the predicate of a liquid variable, replacing any earlier one.
    pub fn assign(&mut self, var: LiquidVar, predicate: Predicate)
        ensures
            final(self)@ == old(self)@.insert(var, predicate@),
    {
        proof {
            use_type_invariant(&*self);
        }
        let ghost pv = predicate@;
        match self.position(var) {
            Some(i) => {
                let ghost before = self.assignments@;
                let mut entries: Vec<(LiquidVar, Predicate)> = Vec::new();
                std::mem::swap(&mut entries, &mut self.assignments);
                entries.set(i, (var, predicate));
                proof {
                    let after = entries@;
                    assert(keys_unique(after));
                    assert forall|k: LiquidVar| #[trigger] assignment_view(after).dom().contains(k) == old(self)@.insert(var, pv).dom().contains(k) by {
                        lemma_assignment_dom(after, k);
                        lemma_assignment_dom(before, k);
                        assert(after[i as int].0 == var);
                        assert(before[i as int].0 == var);
                        if exists|j: int| 0 <= j < before.len() && (#[trigger] before[j]).0 == k {
                            let j = choose|j: int| 0 <= j < before.len() && (#[trigger] before[j]).0 == k;
                            if j != i {
                                assert(after[j] == before[j]);
                            }
                        }
                        if exists|j: int| 0 <= j < after.len() && (#[trigger] after[j]).0 == k {
                            let j = choose|j: int| 0 <= j < after.len() && (#[trigger] after[j]).0 == k;
                            if j != i {
                                assert(after[j] == before[j]);
                            }
                        }
                    }
                    assert forall|k: LiquidVar| #[trigger] assignment_view(after).dom().contains(k) implies assignment_view(after)[k] == old(self)@.insert(var, pv)[k] by {
                        lemma_assignment_dom(after, k);
                        let j = choose|j: int| 0 <= j < after.len() && (#[trigger] after[j]).0 == k;
                        lemma_assignment_lookup(after, j);
                        if j != i {
                            assert(after[j] == before[j]);
                            lemma_assignment_lookup(before, j);
                        }
                    }
                    assert(assignment_view(after) =~= old(self)@.insert(var, pv));
                }
                self.assignments = entries;
            },
            None => {
                let mut entries: Vec<(LiquidVar, Predicate)> = Vec::new();
                std::mem::swap(&mut entries, &mut self.assignments);
                entries.push((var, predicate));
                proof {
                    assert(entries@.drop_last() =~= old(self).assignments@);
                    assert(keys_unique(entries@));
                }
                self.assignments = entries;
            },
        }
    }

    /// The predicate of a liquid variable, if it has one.
    pub fn get(&self, var: LiquidVar) -> (r: Option<&Predicate>)
        ensures
            match r {
                Some(p) => self@.dom().contains(var) && p@ == self@[var],
                None => !self@.dom().contains(var),
            },
    {
        proof {
            use_type_invariant(self);
        }
        match self.position(var) {
            Some(i) => {
                proof {
                    lemma_assignment_lookup(self.assignments@, i as int);
                }
                Some(&self.assignments[i].1)
            },
            None => {
                proof {
                    lemma_assignment_dom(self.assignments@, var);
                }
                None
            },
        }
    }

    pub fn has(&self, var: LiquidVar) -> (r: bool)
        ensures
            r == self@.dom().contains(var),
    {
        self.get(var).is_some()
    }

    /// All assignments, each variable once.
    pub fn iter(&self) -> (r: Vec<(LiquidVar, Predicate)>)
        ensures
            r.len() == self@.dom().len(),
            forall|i: int| 0 <= i < r.len() ==> self@.dom().contains((#[trigger] r@[i]).0) && self@[r@[i].0] == r@[i].1@,
            forall|v: LiquidVar| self@.dom().contains(v) ==> exists|i: int| 0 <= i < r.len() && (#[trigger] r@[i]).0 == v,
    {
        proof {
            use_type_invariant(self);
            lemma_assignment_len(self.assignments@);
        }
        let mut out: Vec<(LiquidVar, Predicate)> = Vec::new();
        let mut i: usize = 0;
        while i < self.assignments.len()
            invariant
                i <= self.assignments.len(),
                keys_unique(self.assignments@),
                out.len() == i,
                forall|j: int| 0 <= j < i ==> (#[trigger] out@[j]).0 == self.assignments@[j].0 && out@[j].1@ == self.assignments@[j].1@,
            decreases self.assignments.len() - i,
        {
            let e = &self.assignments[i];
            out.push((e.0, e.1.clone()));
            i = i + 1;
        }
        proof {
            assert forall|k: int| 0 <= k < out.len() implies self@.dom().contains((#[trigger] out@[k]).0) && self@[out@[k].0] == out@[k].1@ by {
                lemma_assignment_lookup(self.assignments@, k);
            }
            assert forall|v: LiquidVar| self@.dom().contains(v) implies exists|k: int| 0 <= k < out.len() && (#[trigger] out@[k]).0 == v by {
                lemma_assignment_dom(self.assignments@, v);
                let k = choose|k: int| 0 <= k < self.assignments@.len() && (#[trigger] self.assignments@[k]).0 == v;
                assert(out@[k].0 == v);
            }
        }
        out
    }

    /// Number of variables with an assignment.
    pub fn len(&self) -> (r: usize)
        ensures
            r == self@.dom().len(),
    {
        proof {
            use_type_invariant(self);
            lemma_assignment_len(self.assignments@);
        }
        self.assignments.len()
    }

    pub fn is_empty(&self) -> (r: bool)
        ensures
            r == (self@.dom().len() == 0),
    {
        self.len() == 0
    }
}

} // verus!
