use vstd::prelude::*;

use crate::ast::predicate::{PredV, Predicate};
use crate::ast::types::Type;
use crate::ir::{SymbolId, SymbolIdV};
use crate::names::{StrMap, entries_view};
use crate::refinements::constraints::{TypeContext, TypeContextV, bindings_view, lookup_binding, preds_view, clone_preds};
use crate::refinements::templates::{LiquidVar, LiquidVarGenerator, Template, TemplateV, rebind};
use crate::symbols::{SymbolInfo, SymbolTable};

verus! {

/// The lookup of a context built from map entries agrees with the map.
pub proof fn lemma_lookup_entries(s: Seq<(String, Template)>, n: Seq<char>)
    ensures
        lookup_binding(bindings_view(s), n) == (if entries_view(s).dom().contains(n) {
            Some(entries_view(s)[n])
        } else {
            None::<TemplateV>
        }),
    decreases s.len(),
{
    if s.len() > 0 {
        assert(bindings_view(s).drop_last() =~= bindings_view(s.drop_last()));
        lemma_lookup_entries(s.drop_last(), n);
    }
}

/// The state inference works in: local templates, path assumptions, facts
/// from copies and arithmetic, and the current SSA name of each source
/// variable.
pub struct TypeEnvironment<'a> {
    symbol_table: &'a SymbolTable,
    liquid_gen: LiquidVarGenerator,
    local_bindings: StrMap<Template>,
    assumptions: Vec<Predicate>,
    current_function: Option<SymbolId>,
    source_to_ssa: StrMap<String>,
    local_facts: Vec<Predicate>,
}

impl<'a> TypeEnvironment<'a> {
    pub closed spec fn bindings_spec(&self) -> Map<Seq<char>, TemplateV> {
        self.local_bindings@
    }

    pub closed spec fn assumptions_spec(&self) -> Seq<PredV> {
        preds_view(self.assumptions@)
    }

    pub closed spec fn facts_spec(&self) -> Seq<PredV> {
        preds_view(self.local_facts@)
    }

    pub closed spec fn ssa_spec(&self) -> Map<Seq<char>, Seq<char>> {
        self.source_to_ssa@
    }

    pub closed spec fn current_spec(&self) -> Option<SymbolIdV> {
        match self.current_function {
            Some(f) => Some(f@),
            None => None,
        }
    }

    pub closed spec fn table(&self) -> &'a SymbolTable {
        self.symbol_table
    }

    /// The index the next fresh liquid variable gets.
    pub closed spec fn next_liquid(&self) -> nat {
        self.liquid_gen.next_index()
    }

    pub fn new(symbol_table: &'a SymbolTable) -> (r: Self)
        ensures
            r.bindings_spec() == Map::<Seq<char>, TemplateV>::empty(),
            r.assumptions_spec().len() == 0,
            r.facts_spec().len() == 0,
            r.ssa_spec() == Map::<Seq<char>, Seq<char>>::empty(),
            r.current_spec() is None,
            r.table() == symbol_table,
            r.next_liquid() == 0,
    {
        TypeEnvironment {
            symbol_table,
            liquid_gen: LiquidVarGenerator::new(),
            local_bindings: StrMap::new(),
            assumptions: Vec::new(),
            current_function: None,
            source_to_ssa: StrMap::new(),
            local_facts: Vec::new(),
        }
    }

    pub fn symbol_table(&self) -> (r: &SymbolTable)
        ensures
            r == self.table(),
    {
        self.symbol_table
    }

    /// A fresh liquid variable.
    pub fn fresh_liquid_var(&mut self) -> (v: LiquidVar)
        requires
            old(self).next_liquid() < usize::MAX,
        ensures
            v.0 == old(self).next_liquid(),
            final(self).next_liquid() == old(self).next_liquid() + 1,
            final(self).bindings_spec() == old(self).bindings_spec(),
            final(self).assumptions_spec() == old(self).assumptions_spec(),
            final(self).facts_spec() == old(self).facts_spec(),
            final(self).ssa_spec() == old(self).ssa_spec(),
            final(self).current_spec() == old(self).current_spec(),
            final(self).table() == old(self).table(),
    {
        self.liquid_gen.fresh()
    }

    pub fn enter_function(&mut self, func_id: SymbolId)
        ensures
            final(self).current_spec() == Some(func_id@),
            final(self).bindings_spec() == old(self).bindings_spec(),
            final(self).assumptions_spec() == old(self).assumptions_spec(),
            final(self).facts_spec() == old(self).facts_spec(),
            final(self).ssa_spec() == old(self).ssa_spec(),
            final(self).table() == old(self).table(),
            final(self).next_liquid() == old(self).next_liquid(),
    {
        self.current_function = Some(func_id);
    }

    /// Leaves the function: its bindings, assumptions, facts and names go.
    pub fn exit_function(&mut self)
        ensures
            final(self).current_spec() is None,
            final(self).bindings_spec() == Map::<Seq<char>, TemplateV>::empty(),
            final(self).assumptions_spec().len() == 0,
            final(self).facts_spec().len() == 0,
            final(self).ssa_spec() == Map::<Seq<char>, Seq<char>>::empty(),
            final(self).table() == old(self).table(),
            final(self).next_liquid() == old(self).next_liquid(),
    {
        self.current_function = None;
        self.local_bindings = StrMap::new();
        self.assumptions = Vec::new();
        self.source_to_ssa = StrMap::new();
        self.local_facts = Vec::new();
    }

    pub fn current_function(&self) -> (r: Option<SymbolId>)
        ensures
            match r {
                Some(f) => self.current_spec() == Some(f@),
                None => self.current_spec() is None,
            },
    {
        match &self.current_function {
            Some(f) => Some(f.clone()),
            None => None,
        }
    }

    pub fn bind_local(&mut self, name: String, template: Template)
        ensures
            final(self).bindings_spec() == old(self).bindings_spec().insert(name@, template@),
            final(self).assumptions_spec() == old(self).assumptions_spec(),
            final(self).facts_spec() == old(self).facts_spec(),
            final(self).ssa_spec() == old(self).ssa_spec(),
            final(self).current_spec() == old(self).current_spec(),
            final(self).table() == old(self).table(),
            final(self).next_liquid() == old(self).next_liquid(),
    {
        self.local_bindings.insert(name, template);
    }

    /// Adds a fact from a copy or an operation; facts are not popped with
    /// path assumptions.
    pub fn add_local_fact(&mut self, fact: Predicate)
        ensures
            final(self).facts_spec() == old(self).facts_spec().push(fact@),
            final(self).bindings_spec() == old(self).bindings_spec(),
            final(self).assumptions_spec() == old(self).assumptions_spec(),
            final(self).ssa_spec() == old(self).ssa_spec(),
            final(self).current_spec() == old(self).current_spec(),
            final(self).table() == old(self).table(),
            final(self).next_liquid() == old(self).next_liquid(),
    {
        self.local_facts.push(fact);
        proof {
            assert(preds_view(self.local_facts@) =~= preds_view(old(self).local_facts@).push(fact@));
        }
    }

    /// Records that the source variable is now the given SSA register.
    pub fn track_source_ssa(&mut self, source_name: String, ssa_name: String)
        ensures
            final(self).ssa_spec() == old(self).ssa_spec().insert(source_name@, ssa_name@),
            final(self).bindings_spec() == old(self).bindings_spec(),
            final(self).assumptions_spec() == old(self).assumptions_spec(),
            final(self).facts_spec() == old(self).facts_spec(),
            final(self).current_spec() == old(self).current_spec(),
            final(self).table() == old(self).table(),
            final(self).next_liquid() == old(self).next_liquid(),
    {
        self.source_to_ssa.insert(source_name, ssa_name);
    }

    pub fn source_to_ssa_mapping(&self) -> (r: &StrMap<String>)
        ensures
            r@ == self.ssa_spec(),
    {
        &self.source_to_ssa
    }

    pub fn local_bindings(&self) -> (r: &StrMap<Template>)
        ensures
            r@ == self.bindings_spec(),
    {
        &self.local_bindings
    }

    /// A copy of a local template, its binder renamed to the local's name.
    pub fn get_local(&self, name: &str) -> (r: Option<Template>)
        ensures
            match r {
                Some(t) => self.bindings_spec().dom().contains(name@) && t@ == rebind(self.bindings_spec()[name@], name@),
                None => !self.bindings_spec().dom().contains(name@),
            },
    {
        match self.local_bindings.get(name) {
            Some(t) => {
                let mut c = t.clone();
                c.replace_binder(name);
                Some(c)
            },
            None => None,
        }
    }

    pub fn add_assumption(&mut self, predicate: Predicate)
        ensures
            final(self).assumptions_spec() == old(self).assumptions_spec().push(predicate@),
            final(self).bindings_spec() == old(self).bindings_spec(),
            final(self).facts_spec() == old(self).facts_spec(),
            final(self).ssa_spec() == old(self).ssa_spec(),
            final(self).current_spec() == old(self).current_spec(),
            final(self).table() == old(self).table(),
            final(self).next_liquid() == old(self).next_liquid(),
    {
        self.assumptions.push(predicate);
        proof {
            assert(preds_view(self.assumptions@) =~= preds_view(old(self).assumptions@).push(predicate@));
        }
    }

    /// Drops the most recent assumption.
    pub fn pop_assumption(&mut self) -> (r: Option<Predicate>)
        ensures
            old(self).assumptions_spec().len() == 0 ==> r is None && final(self).assumptions_spec() == old(self).assumptions_spec(),
            old(self).assumptions_spec().len() > 0 ==> r is Some && r->0@ == old(self).assumptions_spec().last()
                && final(self).assumptions_spec() == old(self).assumptions_spec().drop_last(),
            final(self).bindings_spec() == old(self).bindings_spec(),
            final(self).facts_spec() == old(self).facts_spec(),
            final(self).ssa_spec() == old(self).ssa_spec(),
            final(self).current_spec() == old(self).current_spec(),
            final(self).table() == old(self).table(),
            final(self).next_liquid() == old(self).next_liquid(),
    {
        let r = self.assumptions.pop();
        proof {
            if old(self).assumptions@.len() > 0 {
                assert(preds_view(self.assumptions@) =~= preds_view(old(self).assumptions@).drop_last());
            }
        }
        r
    }

    /// A snapshot as a typing context: the locals (each with its template),
    /// the assumptions followed by the facts, and the SSA names.
    pub fn to_type_context(&self) -> (r: TypeContext)
        ensures
            forall|n: Seq<char>| #[trigger] lookup_binding(r@.bindings, n) == (if self.bindings_spec().dom().contains(n) {
                Some(self.bindings_spec()[n])
            } else {
                None::<TemplateV>
            }),
            forall|i: int| 0 <= i < r@.bindings.len() ==> self.bindings_spec().dom().contains((#[trigger] r@.bindings[i]).0),
            r@.assumptions == self.assumptions_spec() + self.facts_spec(),
            r@.source_to_ssa == self.ssa_spec(),
    {
        let mut ctx = TypeContext::new();
        let entries = self.local_bindings.entries();
        let mut i: usize = 0;
        while i < entries.len()
            invariant
                i <= entries.len(),
                entries_view(entries@) == self.local_bindings@,
                ctx@.bindings == bindings_view(entries@.subrange(0, i as int)),
                ctx@.assumptions.len() == 0,
            decreases entries.len() - i,
        {
            let e = &entries[i];
            ctx.bind(e.0.clone(), e.1.clone());
            proof {
                assert(bindings_view(entries@.subrange(0, i + 1)) =~= bindings_view(entries@.subrange(0, i as int)).push((e.0@, e.1@)));
            }
            i = i + 1;
        }
        proof {
            assert(entries@.subrange(0, entries.len() as int) =~= entries@);
        }
        let mut k: usize = 0;
        while k < self.assumptions.len()
            invariant
                k <= self.assumptions.len(),
                ctx@.bindings == bindings_view(entries@),
                ctx@.assumptions == preds_view(self.assumptions@.subrange(0, k as int)),
            decreases self.assumptions.len() - k,
        {
            ctx.assume_fact(self.assumptions[k].clone());
            proof {
                assert(preds_view(self.assumptions@.subrange(0, k + 1)) =~= preds_view(self.assumptions@.subrange(0, k as int)).push(self.assumptions@[k as int]@));
            }
            k = k + 1;
        }
        proof {
            assert(self.assumptions@.subrange(0, self.assumptions.len() as int) =~= self.assumptions@);
        }
        let mut j: usize = 0;
        while j < self.local_facts.len()
            invariant
                j <= self.local_facts.len(),
                ctx@.bindings == bindings_view(entries@),
                ctx@.assumptions == preds_view(self.assumptions@) + preds_view(self.local_facts@.subrange(0, j as int)),
            decreases self.local_facts.len() - j,
        {
            ctx.assume_fact(self.local_facts[j].clone());
            proof {
                assert(preds_view(self.assumptions@) + preds_view(self.local_facts@.subrange(0, j + 1)) =~= (preds_view(self.assumptions@)
                    + preds_view(self.local_facts@.subrange(0, j as int))).push(self.local_facts@[j as int]@));
            }
            j = j + 1;
        }
        proof {
            assert(self.local_facts@.subrange(0, self.local_facts.len() as int) =~= self.local_facts@);
        }
        ctx.set_source_to_ssa(self.source_to_ssa.copy());
        proof {
            assert forall|n: Seq<char>| #[trigger] lookup_binding(ctx@.bindings, n) == (if self.bindings_spec().dom().contains(n) {
                Some(self.bindings_spec()[n])
            } else {
                None::<TemplateV>
            }) by {
                lemma_lookup_entries(entries@, n);
            }
            assert forall|i: int| 0 <= i < ctx@.bindings.len() implies self.bindings_spec().dom().contains((#[trigger] ctx@.bindings[i]).0) by {
                crate::names::lemma_entries_view_dom(entries@, entries@[i].0@);
            }
        }
        ctx
    }

    /// The template of a type (see `Template::from_type`).
    pub fn template_from_type(&mut self, ty: &Type) -> (r: Template)
        requires
            !ty@.explicit_annotation ==> old(self).next_liquid() < usize::MAX,
        ensures
            ty@.explicit_annotation ==> r@ == (TemplateV::Concrete {
                base: ty@.base,
                binder: ty@.binder,
                refinement: ty@.constraint,
                source_ref: ty@.source_ref,
            }) && final(self).next_liquid() == old(self).next_liquid(),
            !ty@.explicit_annotation ==> r@ == (TemplateV::Liquid {
                base: ty@.base,
                binder: ty@.binder,
                liquid_var: LiquidVar(old(self).next_liquid() as usize),
                source_ref: ty@.source_ref,
            }) && final(self).next_liquid() == old(self).next_liquid() + 1,
            final(self).bindings_spec() == old(self).bindings_spec(),
            final(self).assumptions_spec() == old(self).assumptions_spec(),
            final(self).facts_spec() == old(self).facts_spec(),
            final(self).ssa_spec() == old(self).ssa_spec(),
            final(self).current_spec() == old(self).current_spec(),
            final(self).table() == old(self).table(),
    {
        Template::from_type(ty, &mut self.liquid_gen)
    }

    /// Whether a fresh liquid variable can still be made.
    pub fn can_make_liquid(&self) -> (r: bool)
        ensures
            r == (self.next_liquid() < usize::MAX),
    {
        self.liquid_gen.can_make()
    }

    /// The information of a symbol.
    pub fn get_symbol(&self, symbol_id: &SymbolId) -> (r: Option<&SymbolInfo>)
        ensures
            r == (match self.table().index_of(symbol_id@) {
                Some(i) => Some(&self.table().symbols@[i].1),
                None => None::<&SymbolInfo>,
            }),
    {
        let r = self.symbol_table.get_symbol(symbol_id);
        proof {
            lemma_index_of(self.table(), symbol_id@);
        }
        r
    }

    /// The declared type of a symbol.
    pub fn get_symbol_type(&self, symbol_id: &SymbolId) -> (r: Option<&Type>)
        ensures
            r == (match self.table().index_of(symbol_id@) {
                Some(i) => match self.table().symbols@[i].1.ty {
                    Some(t) => Some(&t),
                    None => None::<&Type>,
                },
                None => None::<&Type>,
            }),
    {
        match self.get_symbol(symbol_id) {
            Some(info) => match &info.ty {
                Some(t) => Some(t),
                None => None,
            },
            None => None,
        }
    }

    /// The template of a symbol's declared type: a written refinement is
    /// kept, an inferred one becomes a fresh liquid variable.
    pub fn get_symbol_template(&mut self, symbol_id: &SymbolId) -> (r: Option<Template>)
        requires
            old(self).next_liquid() < usize::MAX,
        ensures
            final(self).bindings_spec() == old(self).bindings_spec(),
            final(self).assumptions_spec() == old(self).assumptions_spec(),
            final(self).facts_spec() == old(self).facts_spec(),
            final(self).ssa_spec() == old(self).ssa_spec(),
            final(self).current_spec() == old(self).current_spec(),
            final(self).table() == old(self).table(),
            final(self).next_liquid() <= old(self).next_liquid() + 1,
            final(self).next_liquid() >= old(self).next_liquid(),
            r is Some <==> (match old(self).table().index_of(symbol_id@) {
                Some(i) => old(self).table().symbols@[i].1.ty is Some,
                None => false,
            }),
    {
        let ty = match self.symbol_table.get_symbol(symbol_id) {
            Some(info) => match &info.ty {
                Some(t) => t,
                None => {
                    proof {
                        lemma_index_of(self.table(), symbol_id@);
                    }
                    return None;
                },
            },
            None => {
                proof {
                    lemma_index_of(self.table(), symbol_id@);
                }
                return None;
            },
        };
        proof {
            lemma_index_of(self.table(), symbol_id@);
        }
        Some(Template::from_type(ty, &mut self.liquid_gen))
    }
}

/// `index_of` names the first entry of the symbol.
pub proof fn lemma_index_of(t: &SymbolTable, id: SymbolIdV)
    ensures
        match t.index_of(id) {
            Some(i) => 0 <= i < t.symbols.len() && t.symbols@[i].0@ == id && forall|j: int| 0 <= j < i ==> (#[trigger] t.symbols@[j]).0@ != id,
            None => forall|i: int| 0 <= i < t.symbols.len() ==> (#[trigger] t.symbols@[i]).0@ != id,
        },
{
    if exists|i: int| 0 <= i < t.symbols.len() && (#[trigger] t.symbols@[i]).0@ == id {
        let w = choose|i: int| 0 <= i < t.symbols.len() && (#[trigger] t.symbols@[i]).0@ == id;
        lemma_first_exists(t, id, w);
    }
}

proof fn lemma_first_exists(t: &SymbolTable, id: SymbolIdV, w: int)
    requires
        0 <= w < t.symbols.len(),
        t.symbols@[w].0@ == id,
    ensures
        exists|i: int| 0 <= i < t.symbols.len() && (#[trigger] t.symbols@[i]).0@ == id
            && forall|j: int| 0 <= j < i ==> (#[trigger] t.symbols@[j]).0@ != id,
    decreases w,
{
    if exists|j: int| 0 <= j < w && (#[trigger] t.symbols@[j]).0@ == id {
        let j = choose|j: int| 0 <= j < w && (#[trigger] t.symbols@[j]).0@ == id;
        lemma_first_exists(t, id, j);
    } else {
        assert(t.symbols@[w].0@ == id);
    }
}

} // verus!
