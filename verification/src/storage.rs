use vstd::prelude::*;

use crate::ast::function::Modifier;
use crate::ast::meta::SourceRef;
use crate::ast::node_id::NodeId;
use crate::ast::types::Type;
use crate::errors::MerakError;
use crate::ir::{CallTarget, CallTargetV, InstrV, SsaCfg, SsaContract, SsaInstruction, SymbolId, SymbolIdV, Terminator, symbol_eq};
use crate::refinements::inference::{grows, lemma_unvisited_mark, lemma_unvisited_monotone, unvisited};
use crate::symbols::{SymbolKind, SymbolTable};

verus! {

// ---------------------------------------------------------------------------
// Which storage variables are unfolded
// ---------------------------------------------------------------------------

/// The symbols a list holds.
pub open spec fn symbol_set(v: Seq<SymbolId>) -> Set<SymbolIdV> {
    Set::new(|s: SymbolIdV| exists|i: int| 0 <= i < v.len() && (#[trigger] v[i])@ == s)
}

/// Whether a list holds a symbol.
fn holds_symbol(v: &Vec<SymbolId>, s: &SymbolId) -> (r: bool)
    ensures
        r == symbol_set(v@).contains(s@),
{
    let mut i: usize = 0;
    while i < v.len()
        invariant
            i <= v.len(),
            forall|j: int| 0 <= j < i ==> (#[trigger] v@[j])@ != s@,
        decreases v.len() - i,
    {
        if symbol_eq(&v[i], s) {
            return true;
        }
        i = i + 1;
    }
    false
}

/// The storage variables that are unfolded at a program point: their
/// refinement may be broken there. Every other variable is folded.
#[derive(Debug)]
pub struct StorageState {
    unfolded: Vec<SymbolId>,
}

impl View for StorageState {
    type V = Set<SymbolIdV>;

    closed spec fn view(&self) -> Set<SymbolIdV> {
        symbol_set(self.unfolded@)
    }
}

impl Clone for StorageState {
    fn clone(&self) -> (r: Self)
        ensures
            r@ == self@,
    {
        let mut out: Vec<SymbolId> = Vec::new();
        let mut i: usize = 0;
        while i < self.unfolded.len()
            invariant
                i <= self.unfolded.len(),
                out.len() == i,
                forall|j: int| 0 <= j < i ==> (#[trigger] out@[j])@ == self.unfolded@[j]@,
            decreases self.unfolded.len() - i,
        {
            out.push(self.unfolded[i].clone());
            i = i + 1;
        }
        let r = StorageState { unfolded: out };
        proof {
            assert(r@ =~= self@) by {
                assert forall|s: SymbolIdV| #[trigger] r@.contains(s) implies self@.contains(s) by {
                    let j = choose|j: int| 0 <= j < out.len() && (#[trigger] out@[j])@ == s;
                    assert(self.unfolded@[j]@ == s);
                }
                assert forall|s: SymbolIdV| #[trigger] self@.contains(s) implies r@.contains(s) by {
                    let j = choose|j: int| 0 <= j < self.unfolded.len() && (#[trigger] self.unfolded@[j])@ == s;
                    assert(out@[j]@ == s);
                }
            }
        }
        r
    }
}

impl StorageState {
    /// Every variable folded.
    pub fn empty() -> (r: Self)
        ensures
            r@ == Set::<SymbolIdV>::empty(),
    {
        let r = StorageState { unfolded: Vec::new() };
        proof {
            assert(r@ =~= Set::<SymbolIdV>::empty());
        }
        r
    }

    pub fn is_folded(&self, loc: &SymbolId) -> (r: bool)
        ensures
            r == !self@.contains(loc@),
    {
        !holds_symbol(&self.unfolded, loc)
    }

    pub fn is_unfolded(&self, loc: &SymbolId) -> (r: bool)
        ensures
            r == self@.contains(loc@),
    {
        holds_symbol(&self.unfolded, loc)
    }

    /// Marks a variable unfolded.
    pub fn unfold(&mut self, loc: &SymbolId)
        ensures
            final(self)@ == old(self)@.insert(loc@),
    {
        if !holds_symbol(&self.unfolded, loc) {
            let ghost before = self.unfolded@;
            self.unfolded.push(loc.clone());
            proof {
                assert(self@ =~= old(self)@.insert(loc@)) by {
                    assert forall|s: SymbolIdV| #[trigger] old(self)@.insert(loc@).contains(s) implies self@.contains(s) by {
                        if s == loc@ {
                            assert(self.unfolded@[before.len() as int]@ == s);
                        } else {
                            let j = choose|j: int| 0 <= j < before.len() && (#[trigger] before[j])@ == s;
                            assert(self.unfolded@[j] == before[j]);
                        }
                    }
                    assert forall|s: SymbolIdV| #[trigger] self@.contains(s) implies old(self)@.insert(loc@).contains(s) by {
                        let j = choose|j: int| 0 <= j < self.unfolded.len() && (#[trigger] self.unfolded@[j])@ == s;
                        if j < before.len() {
                            assert(before[j] == self.unfolded@[j]);
                        }
                    }
                }
            }
        } else {
            proof {
                assert(self@ =~= old(self)@.insert(loc@));
            }
        }
    }

    /// Marks a variable folded.
    pub fn fold(&mut self, loc: &SymbolId)
        ensures
            final(self)@ == old(self)@.remove(loc@),
    {
        let mut kept: Vec<SymbolId> = Vec::new();
        let mut i: usize = 0;
        while i < self.unfolded.len()
            invariant
                i <= self.unfolded.len(),
                forall|s: SymbolIdV| #[trigger] symbol_set(kept@).contains(s) <==> (s != loc@ && exists|j: int| 0 <= j < i && (#[trigger] self.unfolded@[j])@ == s),
            decreases self.unfolded.len() - i,
        {
            let ghost before = kept@;
            if !symbol_eq(&self.unfolded[i], loc) {
                kept.push(self.unfolded[i].clone());
            }
            proof {
                assert forall|s: SymbolIdV| #[trigger] symbol_set(kept@).contains(s) <==> (s != loc@ && exists|j: int| 0 <= j < i + 1 && (#[trigger] self.unfolded@[j])@ == s) by {
                    if symbol_set(kept@).contains(s) {
                        let j = choose|j: int| 0 <= j < kept.len() && (#[trigger] kept@[j])@ == s;
                        if j < before.len() {
                            assert(symbol_set(before).contains(s));
                        } else {
                            assert(self.unfolded@[i as int]@ == s);
                        }
                    }
                    if s != loc@ && exists|j: int| 0 <= j < i + 1 && (#[trigger] self.unfolded@[j])@ == s {
                        let j = choose|j: int| 0 <= j < i + 1 && (#[trigger] self.unfolded@[j])@ == s;
                        if j < i {
                            assert(symbol_set(before).contains(s));
                            let k = choose|k: int| 0 <= k < before.len() && (#[trigger] before[k])@ == s;
                            assert(kept@[k] == before[k]);
                        } else {
                            assert(kept@[before.len() as int]@ == s);
                        }
                    }
                }
            }
            i = i + 1;
        }
        let ghost old_set = self@;
        self.unfolded = kept;
        proof {
            assert(self@ =~= old_set.remove(loc@));
        }
    }

    /// Marks every mutable location unfolded.
    pub fn unfold_all_mutable(&mut self, locations: &StorageLocationSet)
        ensures
            final(self)@ == old(self)@.union(mutable_symbols(locations.locations@)),
    {
        let mut i: usize = 0;
        while i < locations.locations.len()
            invariant
                i <= locations.locations.len(),
                self@ == old(self)@.union(mutable_symbols(locations.locations@.take(i as int))),
            decreases locations.locations.len() - i,
        {
            let loc = &locations.locations[i];
            proof {
                assert(locations.locations@.take(i + 1).drop_last() =~= locations.locations@.take(i as int));
            }
            if loc.mutability.is_mutable() {
                self.unfold(&loc.symbol);
                proof {
                    assert(self@ =~= old(self)@.union(mutable_symbols(locations.locations@.take(i + 1))));
                }
            } else {
                proof {
                    assert(self@ =~= old(self)@.union(mutable_symbols(locations.locations@.take(i + 1))));
                }
            }
            i = i + 1;
        }
        proof {
            assert(locations.locations@.take(locations.locations.len() as int) =~= locations.locations@);
        }
    }

    /// Marks every variable folded.
    pub fn fold_all(&mut self)
        ensures
            final(self)@ == Set::<SymbolIdV>::empty(),
    {
        self.unfolded = Vec::new();
        proof {
            assert(self@ =~= Set::<SymbolIdV>::empty());
        }
    }

    /// The state at a join: unfolded only where both sides are.
    pub fn merge(&self, other: &StorageState) -> (r: StorageState)
        ensures
            r@ == self@.intersect(other@),
    {
        let mut both: Vec<SymbolId> = Vec::new();
        let mut i: usize = 0;
        while i < self.unfolded.len()
            invariant
                i <= self.unfolded.len(),
                forall|s: SymbolIdV| #[trigger] symbol_set(both@).contains(s) <==> (other@.contains(s) && exists|j: int| 0 <= j < i && (#[trigger] self.unfolded@[j])@ == s),
            decreases self.unfolded.len() - i,
        {
            let ghost before = both@;
            if holds_symbol(&other.unfolded, &self.unfolded[i]) {
                both.push(self.unfolded[i].clone());
            }
            proof {
                assert forall|s: SymbolIdV| #[trigger] symbol_set(both@).contains(s) <==> (other@.contains(s) && exists|j: int| 0 <= j < i + 1 && (#[trigger] self.unfolded@[j])@ == s) by {
                    if symbol_set(both@).contains(s) {
                        let j = choose|j: int| 0 <= j < both.len() && (#[trigger] both@[j])@ == s;
                        if j < before.len() {
                            assert(symbol_set(before).contains(s));
                        } else {
                            assert(self.unfolded@[i as int]@ == s);
                        }
                    }
                    if other@.contains(s) && exists|j: int| 0 <= j < i + 1 && (#[trigger] self.unfolded@[j])@ == s {
                        let j = choose|j: int| 0 <= j < i + 1 && (#[trigger] self.unfolded@[j])@ == s;
                        if j < i {
                            assert(symbol_set(before).contains(s));
                            let k = choose|k: int| 0 <= k < before.len() && (#[trigger] before[k])@ == s;
                            assert(both@[k] == before[k]);
                        } else {
                            assert(both@[before.len() as int]@ == s);
                        }
                    }
                }
            }
            i = i + 1;
        }
        let r = StorageState { unfolded: both };
        proof {
            assert(r@ =~= self@.intersect(other@));
        }
        r
    }

    /// Whether two states unfold the same variables.
    pub fn same_as(&self, other: &StorageState) -> (r: bool)
        ensures
            r == (self@ == other@),
    {
        let mut i: usize = 0;
        while i < self.unfolded.len()
            invariant
                i <= self.unfolded.len(),
                forall|j: int| 0 <= j < i ==> other@.contains((#[trigger] self.unfolded@[j])@),
            decreases self.unfolded.len() - i,
        {
            if !holds_symbol(&other.unfolded, &self.unfolded[i]) {
                proof {
                    assert(self@.contains(self.unfolded@[i as int]@));
                }
                return false;
            }
            i = i + 1;
        }
        let mut k: usize = 0;
        while k < other.unfolded.len()
            invariant
                k <= other.unfolded.len(),
                forall|j: int| 0 <= j < k ==> self@.contains((#[trigger] other.unfolded@[j])@),
            decreases other.unfolded.len() - k,
        {
            if !holds_symbol(&self.unfolded, &other.unfolded[k]) {
                proof {
                    assert(other@.contains(other.unfolded@[k as int]@));
                }
                return false;
            }
            k = k + 1;
        }
        proof {
            assert(self@ =~= other@) by {
                assert forall|s: SymbolIdV| #[trigger] self@.contains(s) implies other@.contains(s) by {
                    let j = choose|j: int| 0 <= j < self.unfolded.len() && (#[trigger] self.unfolded@[j])@ == s;
                }
                assert forall|s: SymbolIdV| #[trigger] other@.contains(s) implies self@.contains(s) by {
                    let j = choose|j: int| 0 <= j < other.unfolded.len() && (#[trigger] other.unfolded@[j])@ == s;
                }
            }
        }
        true
    }
}

// ---------------------------------------------------------------------------
// The storage locations of a contract
// ---------------------------------------------------------------------------

/// Whether a location may be written.
#[derive(Debug, PartialEq, Eq, Structural, Clone, Copy)]
pub enum StorageMutability {
    Mutable,
    Immutable,
}

impl StorageMutability {
    pub fn is_mutable(&self) -> (r: bool)
        ensures
            r == (*self == StorageMutability::Mutable),
    {
        match self {
            StorageMutability::Mutable => true,
            StorageMutability::Immutable => false,
        }
    }
}

/// A state variable or constant, with its declared type and the name that
/// errors about it show.
#[derive(Debug)]
pub struct StorageLocation {
    pub symbol: SymbolId,
    pub refined_type: Type,
    pub mutability: StorageMutability,
    pub var_name: String,
}

/// The storage locations of a contract; a later location of a symbol
/// stands for it.
#[derive(Debug)]
pub struct StorageLocationSet {
    pub locations: Vec<StorageLocation>,
}

/// The symbols of the mutable locations of a list.
pub open spec fn mutable_symbols(v: Seq<StorageLocation>) -> Set<SymbolIdV>
    decreases v.len(),
{
    if v.len() == 0 {
        Set::empty()
    } else if v.last().mutability == StorageMutability::Mutable {
        mutable_symbols(v.drop_last()).insert(v.last().symbol@)
    } else {
        mutable_symbols(v.drop_last())
    }
}

/// The position of the location that stands for a symbol: its last one.
pub open spec fn location_index(v: Seq<StorageLocation>, s: SymbolIdV) -> Option<int>
    decreases v.len(),
{
    if v.len() == 0 {
        None
    } else if v.last().symbol@ == s {
        Some(v.len() - 1)
    } else {
        location_index(v.drop_last(), s)
    }
}

pub proof fn lemma_location_index(v: Seq<StorageLocation>, s: SymbolIdV)
    ensures
        location_index(v, s) matches Some(i) ==> 0 <= i < v.len() && v[i].symbol@ == s,
    decreases v.len(),
{
    if v.len() > 0 && v.last().symbol@ != s {
        lemma_location_index(v.drop_last(), s);
    }
}

/// A qualified name written with `::` between its parts.
pub open spec fn join_path(parts: Seq<Seq<char>>) -> Seq<char>
    decreases parts.len(),
{
    if parts.len() == 0 {
        Seq::empty()
    } else if parts.len() == 1 {
        parts[0]
    } else {
        join_path(parts.drop_last()) + "::"@ + parts.last()
    }
}

pub open spec fn strings_view(v: Seq<String>) -> Seq<Seq<char>> {
    Seq::new(v.len(), |i: int| v[i]@)
}

/// A qualified name with `::` between its parts.
pub fn join_qualified_name(parts: &Vec<String>) -> (r: String)
    ensures
        r@ == join_path(strings_view(parts@)),
{
    proof {
        reveal_strlit("::");
    }
    let mut out = String::new();
    let mut i: usize = 0;
    while i < parts.len()
        invariant
            i <= parts.len(),
            out@ == join_path(strings_view(parts@.take(i as int))),
        decreases parts.len() - i,
    {
        proof {
            assert(strings_view(parts@.take(i + 1)).drop_last() =~= strings_view(parts@.take(i as int)));
            if i == 0 {
                assert(strings_view(parts@.take(1)) =~= seq![parts@[0]@]);
            }
        }
        if i > 0 {
            out.append("::");
        }
        out.append(parts[i].as_str());
        i = i + 1;
    }
    proof {
        assert(parts@.take(parts.len() as int) =~= parts@);
    }
    out
}

/// Whether the symbol table holds a typed symbol declared by a node: its
/// first symbol of that node has a type.
pub open spec fn declares_typed(t: &SymbolTable, node: NodeId) -> bool {
    exists|i: int| 0 <= i < t.symbols.len() && (#[trigger] t.symbols@[i]).1.node_id == node
        && (forall|j: int| 0 <= j < i ==> (#[trigger] t.symbols@[j]).1.node_id != node)
        && t.symbols@[i].1.ty is Some
}

/// Whether a location is the one the symbol table gives for a node.
pub open spec fn location_for(t: &SymbolTable, node: NodeId, l: StorageLocation, m: StorageMutability) -> bool {
    exists|i: int| 0 <= i < t.symbols.len() && (#[trigger] t.symbols@[i]).1.node_id == node
        && (forall|j: int| 0 <= j < i ==> (#[trigger] t.symbols@[j]).1.node_id != node)
        && l.symbol@ == t.symbols@[i].0@
        && t.symbols@[i].1.ty is Some && l.refined_type@ == t.symbols@[i].1.ty->0@
        && l.mutability == m
        && l.var_name@ == join_path(strings_view(t.symbols@[i].1.qualified_name@))
}

impl StorageLocationSet {
    /// The contract's state variables, mutable, then its constants,
    /// immutable, each with the type and name the symbol table gives it.
    pub fn from_contract(contract: &SsaContract, symbol_table: &SymbolTable) -> (r: StorageLocationSet)
        requires
            forall|k: int| 0 <= k < contract.variables.len() ==> declares_typed(symbol_table, (#[trigger] contract.variables@[k]).id),
            forall|k: int| 0 <= k < contract.constants.len() ==> declares_typed(symbol_table, (#[trigger] contract.constants@[k]).id),
        ensures
            r.locations.len() == contract.variables.len() + contract.constants.len(),
            forall|k: int| 0 <= k < contract.variables.len() ==> location_for(
                symbol_table,
                (#[trigger] contract.variables@[k]).id,
                r.locations@[k],
                StorageMutability::Mutable,
            ),
            forall|k: int| 0 <= k < contract.constants.len() ==> location_for(
                symbol_table,
                (#[trigger] contract.constants@[k]).id,
                r.locations@[contract.variables.len() + k],
                StorageMutability::Immutable,
            ),
    {
        let mut locations: Vec<StorageLocation> = Vec::new();
        let mut k: usize = 0;
        while k < contract.variables.len()
            invariant
                k <= contract.variables.len(),
                locations.len() == k,
                forall|k: int| 0 <= k < contract.variables.len() ==> declares_typed(symbol_table, (#[trigger] contract.variables@[k]).id),
                forall|q: int| 0 <= q < k ==> location_for(symbol_table, (#[trigger] contract.variables@[q]).id, locations@[q], StorageMutability::Mutable),
            decreases contract.variables.len() - k,
        {
            let node = contract.variables[k].id;
            proof {
                assert(declares_typed(symbol_table, contract.variables@[k as int].id));
            }
            let loc = Self::location_of(symbol_table, node, StorageMutability::Mutable);
            locations.push(loc);
            k = k + 1;
        }
        let mut c: usize = 0;
        while c < contract.constants.len()
            invariant
                c <= contract.constants.len(),
                locations.len() == contract.variables.len() + c,
                forall|k: int| 0 <= k < contract.constants.len() ==> declares_typed(symbol_table, (#[trigger] contract.constants@[k]).id),
                forall|q: int| 0 <= q < contract.variables.len() ==> location_for(symbol_table, (#[trigger] contract.variables@[q]).id, locations@[q], StorageMutability::Mutable),
                forall|q: int| 0 <= q < c ==> location_for(
                    symbol_table,
                    (#[trigger] contract.constants@[q]).id,
                    locations@[contract.variables.len() + q],
                    StorageMutability::Immutable,
                ),
            decreases contract.constants.len() - c,
        {
            let node = contract.constants[c].id;
            proof {
                assert(declares_typed(symbol_table, contract.constants@[c as int].id));
            }
            let loc = Self::location_of(symbol_table, node, StorageMutability::Immutable);
            locations.push(loc);
            c = c + 1;
        }
        StorageLocationSet { locations }
    }

    fn location_of(symbol_table: &SymbolTable, node: NodeId, mutability: StorageMutability) -> (r: StorageLocation)
        requires
            declares_typed(symbol_table, node),
        ensures
            location_for(symbol_table, node, r, mutability),
    {
        let entry = match symbol_table.get_symbol_by_node_id(node) {
            Some(e) => e,
            None => {
                proof {
                    let i = choose|i: int| 0 <= i < symbol_table.symbols.len() && (#[trigger] symbol_table.symbols@[i]).1.node_id == node
                        && (forall|j: int| 0 <= j < i ==> (#[trigger] symbol_table.symbols@[j]).1.node_id != node)
                        && symbol_table.symbols@[i].1.ty is Some;
                    assert(false);
                }
                return vstd::pervasive::unreached();
            },
        };
        proof {
            let i = choose|i: int| 0 <= i < symbol_table.symbols.len() && (#[trigger] symbol_table.symbols@[i]).1.node_id == node
                && (forall|j: int| 0 <= j < i ==> (#[trigger] symbol_table.symbols@[j]).1.node_id != node)
                && symbol_table.symbols@[i].1.ty is Some;
            let i2 = choose|i2: int| 0 <= i2 < symbol_table.symbols.len() && symbol_table.symbols@[i2] == *entry
                && (#[trigger] symbol_table.symbols@[i2]).1.node_id == node
                && forall|j: int| 0 <= j < i2 ==> (#[trigger] symbol_table.symbols@[j]).1.node_id != node;
            if i < i2 {
                assert(symbol_table.symbols@[i].1.node_id != node);
            }
            if i2 < i {
                assert(symbol_table.symbols@[i2].1.node_id != node);
            }
        }
        let ty = match &entry.1.ty {
            Some(t) => t.clone(),
            None => return vstd::pervasive::unreached(),
        };
        StorageLocation {
            symbol: entry.0.clone(),
            refined_type: ty,
            mutability,
            var_name: join_qualified_name(&entry.1.qualified_name),
        }
    }

    /// The location that stands for a symbol.
    pub fn get(&self, symbol_id: &SymbolId) -> (r: Option<&StorageLocation>)
        ensures
            match location_index(self.locations@, symbol_id@) {
                Some(i) => r == Some(&self.locations@[i]),
                None => r is None,
            },
    {
        let mut i: usize = self.locations.len();
        proof {
            assert(self.locations@.take(i as int) =~= self.locations@);
        }
        while i > 0
            invariant
                i <= self.locations.len(),
                location_index(self.locations@, symbol_id@) == location_index(self.locations@.take(i as int), symbol_id@),
            decreases i,
        {
            proof {
                assert(self.locations@.take(i as int).drop_last() =~= self.locations@.take(i - 1));
            }
            if symbol_eq(&self.locations[i - 1].symbol, symbol_id) {
                return Some(&self.locations[i - 1]);
            }
            i = i - 1;
        }
        None
    }

    pub fn is_storage(&self, symbol_id: &SymbolId) -> (r: bool)
        ensures
            r == location_index(self.locations@, symbol_id@) is Some,
    {
        self.get(symbol_id).is_some()
    }
}

// ---------------------------------------------------------------------------
// Laws of storage states
// ---------------------------------------------------------------------------

/// Joining two states does not depend on their order.
pub proof fn lemma_merge_commutative(a: Set<SymbolIdV>, b: Set<SymbolIdV>)
    ensures
        a.intersect(b) == b.intersect(a),
{
    assert(a.intersect(b) =~= b.intersect(a));
}

/// Joining a state with itself gives it back.
pub proof fn lemma_merge_idempotent(a: Set<SymbolIdV>)
    ensures
        a.intersect(a) == a,
{
    assert(a.intersect(a) =~= a);
}

/// Joins can be grouped either way.
pub proof fn lemma_merge_associative(a: Set<SymbolIdV>, b: Set<SymbolIdV>, c: Set<SymbolIdV>)
    ensures
        a.intersect(b).intersect(c) == a.intersect(b.intersect(c)),
{
    assert(a.intersect(b).intersect(c) =~= a.intersect(b.intersect(c)));
}

/// A join unfolds no more than either side, and joining with the empty
/// state folds everything.
pub proof fn lemma_merge_shrinks(a: Set<SymbolIdV>, b: Set<SymbolIdV>)
    ensures
        a.intersect(b).subset_of(a),
        a.intersect(b).subset_of(b),
        Set::<SymbolIdV>::empty().intersect(a) == Set::<SymbolIdV>::empty(),
{
    assert(Set::<SymbolIdV>::empty().intersect(a) =~= Set::<SymbolIdV>::empty());
}

/// Folding a variable after unfolding it leaves it folded and the others
/// as they were; unfolding after folding leaves it unfolded.
pub proof fn lemma_fold_unfold(a: Set<SymbolIdV>, x: SymbolIdV)
    ensures
        !a.insert(x).remove(x).contains(x),
        a.insert(x).remove(x) == a.remove(x),
        a.remove(x).insert(x) == a.insert(x),
        a.remove(x).insert(x).contains(x),
{
    assert(a.insert(x).remove(x) =~= a.remove(x));
    assert(a.remove(x).insert(x) =~= a.insert(x));
}

// ---------------------------------------------------------------------------
// States per block
// ---------------------------------------------------------------------------

/// The states recorded for blocks; a later record of a block replaces an
/// earlier one.
pub open spec fn records_map(v: Seq<(usize, StorageState)>) -> Map<usize, Set<SymbolIdV>>
    decreases v.len(),
{
    if v.len() == 0 {
        Map::empty()
    } else {
        records_map(v.drop_last()).insert(v.last().0, v.last().1@)
    }
}

/// Looks a block up from the latest record down.
fn find_record(v: &Vec<(usize, StorageState)>, block_id: usize) -> (r: Option<&StorageState>)
    ensures
        match r {
            Some(st) => records_map(v@).contains_key(block_id) && records_map(v@)[block_id] == st@,
            None => !records_map(v@).contains_key(block_id),
        },
{
    let mut i: usize = v.len();
    proof {
        assert(v@.take(i as int) =~= v@);
    }
    while i > 0
        invariant
            i <= v.len(),
            forall|k: usize| #[trigger] records_map(v@).contains_key(k) && !records_map(v@.take(i as int)).contains_key(k) ==> false
                || (records_map(v@).contains_key(k) && k != block_id),
            records_map(v@).contains_key(block_id) == records_map(v@.take(i as int)).contains_key(block_id),
            records_map(v@).contains_key(block_id) ==> records_map(v@)[block_id] == records_map(v@.take(i as int))[block_id],
        decreases i,
    {
        proof {
            assert(v@.take(i as int).drop_last() =~= v@.take(i - 1));
        }
        if v[i - 1].0 == block_id {
            return Some(&v[i - 1].1);
        }
        i = i - 1;
    }
    None
}

/// For each block, the storage state at its entry and at its exit.
#[derive(Debug)]
pub struct StorageStateMap {
    block_entry_states: Vec<(usize, StorageState)>,
    block_exit_states: Vec<(usize, StorageState)>,
    /// What a block without a record gets.
    none: StorageState,
}

impl StorageStateMap {
    pub closed spec fn entries(&self) -> Map<usize, Set<SymbolIdV>> {
        records_map(self.block_entry_states@)
    }

    pub closed spec fn exits(&self) -> Map<usize, Set<SymbolIdV>> {
        records_map(self.block_exit_states@)
    }

    /// The recorded state, or every variable folded.
    pub open spec fn entry_of(&self, b: usize) -> Set<SymbolIdV> {
        if self.entries().contains_key(b) {
            self.entries()[b]
        } else {
            Set::empty()
        }
    }

    pub open spec fn exit_of(&self, b: usize) -> Set<SymbolIdV> {
        if self.exits().contains_key(b) {
            self.exits()[b]
        } else {
            Set::empty()
        }
    }

    pub fn new() -> (r: Self)
        ensures
            r.entries() == Map::<usize, Set<SymbolIdV>>::empty(),
            r.exits() == Map::<usize, Set<SymbolIdV>>::empty(),
    {
        StorageStateMap { block_entry_states: Vec::new(), block_exit_states: Vec::new(), none: StorageState::empty() }
    }

    pub fn entry_state(&self, block_id: usize) -> (r: &StorageState)
        ensures
            r@ == self.entry_of(block_id),
    {
        match find_record(&self.block_entry_states, block_id) {
            Some(st) => st,
            None => {
                proof {
                    use_type_invariant(self);
                }
                &self.none
            },
        }
    }

    pub fn exit_state(&self, block_id: usize) -> (r: &StorageState)
        ensures
            r@ == self.exit_of(block_id),
    {
        match find_record(&self.block_exit_states, block_id) {
            Some(st) => st,
            None => {
                proof {
                    use_type_invariant(self);
                }
                &self.none
            },
        }
    }

    pub fn set_entry_state(&mut self, block_id: usize, state: StorageState)
        ensures
            final(self).entries() == old(self).entries().insert(block_id, state@),
            final(self).exits() == old(self).exits(),
    {
        proof {
            use_type_invariant(&*self);
        }
        let mut records: Vec<(usize, StorageState)> = Vec::new();
        std::mem::swap(&mut records, &mut self.block_entry_states);
        let ghost before = records@;
        records.push((block_id, state));
        proof {
            assert(records@.drop_last() =~= before);
        }
        self.block_entry_states = records;
    }

    /// Records a block's exit state; says whether it differs from the one
    /// recorded before.
    pub fn update_exit_state(&mut self, block_id: usize, state: StorageState) -> (r: bool)
        ensures
            r == !(old(self).exits().contains_key(block_id) && old(self).exits()[block_id] == state@),
            final(self).exits() == old(self).exits().insert(block_id, state@),
            final(self).entries() == old(self).entries(),
    {
        if let Some(existing) = find_record(&self.block_exit_states, block_id) {
            if existing.same_as(&state) {
                proof {
                    assert(old(self).exits().insert(block_id, state@) =~= old(self).exits());
                }
                return false;
            }
        }
        proof {
            use_type_invariant(&*self);
        }
        let mut records: Vec<(usize, StorageState)> = Vec::new();
        std::mem::swap(&mut records, &mut self.block_exit_states);
        let ghost before = records@;
        records.push((block_id, state));
        proof {
            assert(records@.drop_last() =~= before);
        }
        self.block_exit_states = records;
        true
    }

    #[verifier::type_invariant]
    spec fn none_is_empty(self) -> bool {
        self.none@ == Set::<SymbolIdV>::empty()
    }
}

// ---------------------------------------------------------------------------
// Which functions reach an external call
// ---------------------------------------------------------------------------

/// Whether an instruction calls out of the contract.
pub open spec fn is_external_call(i: InstrV) -> bool {
    i is Call && i->Call_1 is External
}

/// The function an instruction calls inside the contract.
pub open spec fn internal_callee(i: InstrV) -> Option<SymbolIdV> {
    match i {
        InstrV::Call(_, CallTargetV::Internal(f), _, _) => Some(f),
        _ => None,
    }
}

/// Whether a function itself calls out of the contract.
pub open spec fn has_external_call(cfg: SsaCfg) -> bool {
    exists|b: int, k: int| 0 <= b < cfg.blocks.len() && 0 <= k < cfg.blocks@[b].instructions.len()
        && is_external_call(#[trigger] cfg.blocks@[b].instructions@[k]@)
}

/// Whether `i` is the position of the first function of the contract with
/// the id.
pub open spec fn is_first_fn(c: &SsaContract, id: SymbolIdV, i: int) -> bool {
    &&& 0 <= i < c.functions.len()
    &&& c.functions@[i].function_id@ == id
    &&& forall|j: int| 0 <= j < i ==> (#[trigger] c.functions@[j]).function_id@ != id
}

/// Whether function `a` of the contract calls function `b`.
pub open spec fn calls_fn(c: &SsaContract, a: int, b: int) -> bool {
    exists|bb: int, k: int| 0 <= bb < c.functions@[a].blocks.len() && 0 <= k < c.functions@[a].blocks@[bb].instructions.len()
        && (#[trigger] internal_callee(c.functions@[a].blocks@[bb].instructions@[k]@)) is Some
        && is_first_fn(c, internal_callee(c.functions@[a].blocks@[bb].instructions@[k]@)->0, b)
}

/// A chain of functions, each calling the next.
pub open spec fn is_call_path(c: &SsaContract, p: Seq<int>) -> bool {
    &&& p.len() > 0
    &&& forall|k: int| 0 <= k < p.len() ==> 0 <= #[trigger] p[k] < c.functions.len()
    &&& forall|k: int| 0 <= k < p.len() - 1 ==> calls_fn(c, #[trigger] p[k], p[k + 1])
}

/// Whether function `a`, or a function it reaches by internal calls, calls
/// out of the contract.
pub open spec fn reaches_external(c: &SsaContract, a: int) -> bool {
    exists|p: Seq<int>| #[trigger] is_call_path(c, p) && p[0] == a && has_external_call(c.functions@[p.last()])
}

/// Every internal call of the contract names one of its functions.
pub open spec fn calls_resolved(c: &SsaContract) -> bool {
    forall|a: int, bb: int, k: int| 0 <= a < c.functions.len() && 0 <= bb < c.functions@[a].blocks.len()
        && 0 <= k < c.functions@[a].blocks@[bb].instructions.len()
        && (#[trigger] internal_callee(c.functions@[a].blocks@[bb].instructions@[k]@)) is Some
        ==> exists|j: int| is_first_fn(c, internal_callee(c.functions@[a].blocks@[bb].instructions@[k]@)->0, j)
}

/// The functions of a contract that may call out of it, directly or
/// through internal calls.
pub struct CallGraphAnalysis {
    functions_with_external_calls: Vec<SymbolId>,
}

impl View for CallGraphAnalysis {
    type V = Set<SymbolIdV>;

    closed spec fn view(&self) -> Set<SymbolIdV> {
        symbol_set(self.functions_with_external_calls@)
    }
}

/// The first function of a contract with an id.
fn find_fn(fn_id: &SymbolId, contract: &SsaContract) -> (r: usize)
    requires
        exists|i: int| is_first_fn(contract, fn_id@, i),
    ensures
        is_first_fn(contract, fn_id@, r as int),
{
    let mut idx: usize = 0;
    while idx < contract.functions.len()
        invariant
            idx <= contract.functions.len(),
            exists|i: int| is_first_fn(contract, fn_id@, i),
            forall|j: int| 0 <= j < idx ==> (#[trigger] contract.functions@[j]).function_id@ != fn_id@,
        decreases contract.functions.len() - idx,
    {
        if symbol_eq(&contract.functions[idx].function_id, fn_id) {
            return idx;
        }
        idx = idx + 1;
    }
    proof {
        let i = choose|i: int| is_first_fn(contract, fn_id@, i);
        assert(contract.functions@[i].function_id@ == fn_id@);
    }
    vstd::pervasive::unreached()
}

impl CallGraphAnalysis {
    /// Finds, for each function of the contract, whether it may call out.
    pub fn analyze(contract: &SsaContract) -> (r: Self)
        requires
            calls_resolved(contract),
        ensures
            forall|i: int| #[trigger] is_first_fn(contract, contract.functions@[i].function_id@, i)
                && has_external_call(contract.functions@[i]) ==> r@.contains(contract.functions@[i].function_id@),
            forall|x: SymbolIdV| #[trigger] r@.contains(x) ==> exists|i: int| #[trigger] is_first_fn(contract, x, i) && reaches_external(contract, i),
    {
        let mut found: Vec<SymbolId> = Vec::new();
        let mut n: usize = 0;
        while n < contract.functions.len()
            invariant
                n <= contract.functions.len(),
                calls_resolved(contract),
                forall|i: int| 0 <= i < n && #[trigger] is_first_fn(contract, contract.functions@[i].function_id@, i)
                    && has_external_call(contract.functions@[i]) ==> symbol_set(found@).contains(contract.functions@[i].function_id@),
                forall|x: SymbolIdV| #[trigger] symbol_set(found@).contains(x) ==> exists|i: int| #[trigger] is_first_fn(contract, x, i) && reaches_external(contract, i),
            decreases contract.functions.len() - n,
        {
            let mut visited = unmarked(contract.functions.len());
            let id = &contract.functions[n].function_id;
            proof {
                lemma_first_fn_exists(contract, id@, n as int);
            }
            let ghost before = found@;
            if Self::contains_external_calls_recursive(id, contract, &mut visited) {
                found.push(id.clone());
            }
            proof {
                assert forall|x: SymbolIdV| #[trigger] symbol_set(found@).contains(x) implies exists|i: int| #[trigger] is_first_fn(contract, x, i) && reaches_external(contract, i) by {
                    let j = choose|j: int| 0 <= j < found.len() && (#[trigger] found@[j])@ == x;
                    if j < before.len() {
                        assert(symbol_set(before).contains(x));
                    }
                }
                assert forall|i: int| 0 <= i < n + 1 && #[trigger] is_first_fn(contract, contract.functions@[i].function_id@, i)
                    && has_external_call(contract.functions@[i]) implies symbol_set(found@).contains(contract.functions@[i].function_id@) by {
                    if i < n {
                        assert(symbol_set(before).contains(contract.functions@[i].function_id@));
                        let j = choose|j: int| 0 <= j < before.len() && (#[trigger] before[j])@ == contract.functions@[i].function_id@;
                        assert(found@[j] == before[j]);
                    } else {
                        assert(found@[found.len() - 1]@ == id@);
                    }
                }
            }
            n = n + 1;
        }
        CallGraphAnalysis { functions_with_external_calls: found }
    }

    /// Whether a function may call out of the contract.
    pub fn contains_external_calls(&self, fn_id: &SymbolId) -> (r: bool)
        ensures
            r == self@.contains(fn_id@),
    {
        holds_symbol(&self.functions_with_external_calls, fn_id)
    }

    /// Whether a function, or one it calls and that is not marked visited,
    /// calls out; marks the functions it looks into.
    fn contains_external_calls_recursive(fn_id: &SymbolId, contract: &SsaContract, visited: &mut Vec<bool>) -> (r: bool)
        requires
            calls_resolved(contract),
            old(visited).len() == contract.functions.len(),
            exists|i: int| is_first_fn(contract, fn_id@, i),
        ensures
            final(visited).len() == old(visited).len(),
            grows(old(visited)@, final(visited)@),
            forall|i: int| #[trigger] is_first_fn(contract, fn_id@, i) ==> {
                &&& old(visited)@[i] ==> !r
                &&& !old(visited)@[i] && has_external_call(contract.functions@[i]) ==> r
                &&& r ==> reaches_external(contract, i)
            },
        decreases unvisited(old(visited)@),
    {
        let idx = find_fn(fn_id, contract);
        proof {
            assert forall|i: int| #[trigger] is_first_fn(contract, fn_id@, i) implies i == idx by {
                if i < idx {
                    assert(contract.functions@[i].function_id@ != fn_id@);
                }
                if idx < i {
                    assert(contract.functions@[idx as int].function_id@ != fn_id@);
                }
            }
            assert(grows(visited@, visited@));
        }
        if visited[idx] {
            return false;
        }
        let ghost v0 = visited@;
        visited.set(idx, true);
        let ghost v1 = visited@;
        proof {
            assert(v0 == old(visited)@);
        }
        proof {
            lemma_unvisited_mark(v0, idx as int);
        }
        let cfg = &contract.functions[idx];
        let mut b: usize = 0;
        while b < cfg.blocks.len()
            invariant
                b <= cfg.blocks.len(),
                *cfg == contract.functions@[idx as int],
                idx < contract.functions.len(),
                calls_resolved(contract),
                v0 == old(visited)@,
                !v0[idx as int],
                forall|i: int| #[trigger] is_first_fn(contract, fn_id@, i) ==> i == idx,
                visited.len() == contract.functions.len(),
                grows(v0, visited@),
                grows(v1, visited@),
                v1.len() == v0.len(),
                unvisited(v1) < unvisited(v0),
                forall|bb: int, k: int| 0 <= bb < b && 0 <= k < cfg.blocks@[bb].instructions.len()
                    ==> !is_external_call(#[trigger] cfg.blocks@[bb].instructions@[k]@),
            decreases cfg.blocks.len() - b,
        {
            let block = &cfg.blocks[b];
            let mut k: usize = 0;
            while k < block.instructions.len()
                invariant
                    k <= block.instructions.len(),
                    b < cfg.blocks.len(),
                    *block == cfg.blocks@[b as int],
                    *cfg == contract.functions@[idx as int],
                    idx < contract.functions.len(),
                    calls_resolved(contract),
                    v0 == old(visited)@,
                    !v0[idx as int],
                    forall|i: int| #[trigger] is_first_fn(contract, fn_id@, i) ==> i == idx,
                    visited.len() == contract.functions.len(),
                    grows(v0, visited@),
                    grows(v1, visited@),
                    v1.len() == v0.len(),
                    unvisited(v1) < unvisited(v0),
                    forall|bb: int, kk: int| 0 <= bb < b && 0 <= kk < cfg.blocks@[bb].instructions.len()
                        ==> !is_external_call(#[trigger] cfg.blocks@[bb].instructions@[kk]@),
                    forall|kk: int| 0 <= kk < k ==> !is_external_call(#[trigger] block.instructions@[kk]@),
                decreases block.instructions.len() - k,
            {
                match &block.instructions[k] {
                    SsaInstruction::Call { target: CallTarget::External { .. }, .. } => {
                        proof {
                            let p = seq![idx as int];
                            assert(is_external_call(cfg.blocks@[b as int].instructions@[k as int]@));
                            assert(has_external_call(contract.functions@[idx as int]));
                            assert(is_call_path(contract, p));
                            assert(reaches_external(contract, idx as int));
                        }
                        return true;
                    },
                    SsaInstruction::Call { target: CallTarget::Internal(callee), .. } => {
                        proof {
                            assert(internal_callee(contract.functions@[idx as int].blocks@[b as int].instructions@[k as int]@) == Some(callee@));
                            lemma_unvisited_monotone(v1, visited@);
                        }
                        let ghost vc = visited@;
                        if Self::contains_external_calls_recursive(callee, contract, visited) {
                            proof {
                                let j = choose|j: int| is_first_fn(contract, callee@, j);
                                assert(reaches_external(contract, j));
                                let p = choose|p: Seq<int>| #[trigger] is_call_path(contract, p) && p[0] == j
                                    && has_external_call(contract.functions@[p.last()]);
                                let p2 = seq![idx as int] + p;
                                assert(calls_fn(contract, idx as int, j));
                                assert forall|q: int| 0 <= q < p2.len() - 1 implies calls_fn(contract, #[trigger] p2[q], p2[q + 1]) by {
                                    if q > 0 {
                                        assert(p2[q] == p[q - 1]);
                                        assert(p2[q + 1] == p[q]);
                                    }
                                }
                                assert(is_call_path(contract, p2));
                                assert(p2.last() == p.last());
                                lemma_grows_bool_trans(v0, vc, visited@);
                            }
                            return true;
                        }
                        proof {
                            lemma_grows_bool_trans(v0, vc, visited@);
                            lemma_grows_bool_trans(v1, vc, visited@);
                        }
                    },
                    _ => {},
                }
                k = k + 1;
            }
            b = b + 1;
        }
        false
    }
}

/// A list of `n` unmarked flags.
fn unmarked(n: usize) -> (r: Vec<bool>)
    ensures
        r.len() == n,
        forall|j: int| 0 <= j < n ==> !(#[trigger] r@[j]),
{
    let mut v: Vec<bool> = Vec::new();
    let mut q: usize = 0;
    while q < n
        invariant
            q <= n,
            v.len() == q,
            forall|j: int| 0 <= j < q ==> !(#[trigger] v@[j]),
        decreases n - q,
    {
        v.push(false);
        q = q + 1;
    }
    v
}

/// A function with an id makes some function the first with that id.
pub proof fn lemma_first_fn_exists(c: &SsaContract, id: SymbolIdV, n: int)
    requires
        0 <= n < c.functions.len(),
        c.functions@[n].function_id@ == id,
    ensures
        exists|i: int| is_first_fn(c, id, i),
    decreases n,
{
    if exists|j: int| 0 <= j < n && (#[trigger] c.functions@[j]).function_id@ == id {
        let j = choose|j: int| 0 <= j < n && (#[trigger] c.functions@[j]).function_id@ == id;
        lemma_first_fn_exists(c, id, j);
    } else {
        assert(is_first_fn(c, id, n));
    }
}

pub proof fn lemma_grows_bool_trans(a: Seq<bool>, b: Seq<bool>, c: Seq<bool>)
    requires
        grows(a, b),
        grows(b, c),
    ensures
        grows(a, c),
{
    assert forall|i: int| 0 <= i < a.len() && #[trigger] a[i] implies c[i] by {
        assert(b[i]);
    }
}

// ---------------------------------------------------------------------------
// The storage state through a block, and across the function
// ---------------------------------------------------------------------------

pub open spec fn instr_views(v: Seq<SsaInstruction>) -> Seq<InstrV> {
    Seq::new(v.len(), |i: int| v[i]@)
}

/// What one instruction does to the unfolded variables: a load unfolds
/// its variable, a store folds it, and a call that may call out folds
/// everything.
pub open spec fn transfer_one(s: Set<SymbolIdV>, i: InstrV, ext: Set<SymbolIdV>) -> Set<SymbolIdV> {
    match i {
        InstrV::StorageLoad(_, var, _) => s.insert(var),
        InstrV::StorageStore(var, _, _) => s.remove(var),
        InstrV::Call(_, CallTargetV::External(..), _, _) => Set::empty(),
        InstrV::Call(_, CallTargetV::Internal(f), _, _) => if ext.contains(f) {
            Set::empty()
        } else {
            s
        },
        _ => s,
    }
}

pub open spec fn transfer(s: Set<SymbolIdV>, instrs: Seq<InstrV>, ext: Set<SymbolIdV>) -> Set<SymbolIdV>
    decreases instrs.len(),
{
    if instrs.len() == 0 {
        s
    } else {
        transfer_one(transfer(s, instrs.drop_last(), ext), instrs.last(), ext)
    }
}

/// The state at the exit of a block, from the state at its entry.
pub fn apply_transfer_function(
    block_entry_state: &StorageState,
    instructions: &Vec<SsaInstruction>,
    symbol_table: &SymbolTable,
    call_graph: &CallGraphAnalysis,
) -> (r: StorageState)
    ensures
        r@ == transfer(block_entry_state@, instr_views(instructions@), call_graph@),
{
    let mut state = block_entry_state.clone();
    let mut k: usize = 0;
    while k < instructions.len()
        invariant
            k <= instructions.len(),
            state@ == transfer(block_entry_state@, instr_views(instructions@).take(k as int), call_graph@),
        decreases instructions.len() - k,
    {
        proof {
            assert(instr_views(instructions@).take(k + 1).drop_last() =~= instr_views(instructions@).take(k as int));
            assert(instr_views(instructions@).take(k + 1).last() == instructions@[k as int]@);
        }
        match &instructions[k] {
            SsaInstruction::StorageLoad { var, .. } => state.unfold(var),
            SsaInstruction::StorageStore { var, .. } => state.fold(var),
            SsaInstruction::Call { target: CallTarget::External { .. }, .. } => state.fold_all(),
            SsaInstruction::Call { target: CallTarget::Internal(fn_id), .. } => {
                if call_graph.contains_external_calls(fn_id) {
                    state.fold_all();
                }
            },
            _ => {},
        }
        k = k + 1;
    }
    proof {
        assert(instr_views(instructions@).take(instructions.len() as int) =~= instr_views(instructions@));
    }
    state
}

/// The exit state a block reaches from an entry with every variable folded.
pub open spec fn block_transfer(cfg: &SsaCfg, b: int, ext: Set<SymbolIdV>) -> Set<SymbolIdV> {
    transfer(Set::empty(), instr_views(cfg.blocks@[b].instructions@), ext)
}

/// Whether a block's recorded exit state is the one it reaches.
pub open spec fn settled_at(cfg: &SsaCfg, m: Map<usize, Set<SymbolIdV>>, ext: Set<SymbolIdV>, b: usize) -> bool {
    m[b] == block_transfer(cfg, b as int, ext)
}

/// The successors still owed by the blocks whose exit state is not yet
/// the one they reach.
pub open spec fn pending(cfg: &SsaCfg, m: Map<usize, Set<SymbolIdV>>, ext: Set<SymbolIdV>, n: nat) -> nat
    decreases n,
{
    if n == 0 {
        0
    } else {
        pending(cfg, m, ext, (n - 1) as nat) + if settled_at(cfg, m, ext, (n - 1) as usize) {
            0nat
        } else {
            cfg.blocks@[n - 1].successors@.len()
        }
    }
}

pub proof fn lemma_pending_settle(cfg: &SsaCfg, m: Map<usize, Set<SymbolIdV>>, ext: Set<SymbolIdV>, n: nat, b: usize)
    requires
        b < n,
        n <= cfg.blocks.len(),
        n <= usize::MAX,
        !settled_at(cfg, m, ext, b),
    ensures
        pending(cfg, m.insert(b, block_transfer(cfg, b as int, ext)), ext, n) + cfg.blocks@[b as int].successors@.len() == pending(cfg, m, ext, n),
    decreases n,
{
    let m2 = m.insert(b, block_transfer(cfg, b as int, ext));
    if b < n - 1 {
        lemma_pending_settle(cfg, m, ext, (n - 1) as nat, b);
        assert(m2[(n - 1) as usize] == m[(n - 1) as usize]);
    } else {
        lemma_pending_unchanged(cfg, m, m2, ext, (n - 1) as nat);
    }
}

pub proof fn lemma_pending_unchanged(cfg: &SsaCfg, m: Map<usize, Set<SymbolIdV>>, m2: Map<usize, Set<SymbolIdV>>, ext: Set<SymbolIdV>, n: nat)
    requires
        n <= usize::MAX,
        forall|k: usize| k < n ==> #[trigger] m2[k] == m[k],
    ensures
        pending(cfg, m2, ext, n) == pending(cfg, m, ext, n),
    decreases n,
{
    if n > 0 {
        lemma_pending_unchanged(cfg, m, m2, ext, (n - 1) as nat);
        assert(m2[(n - 1) as usize] == m[(n - 1) as usize]);
    }
}

/// What the storage analysis of a function gives: every block is entered
/// with every variable folded; each exit state is either still folded or
/// the one its block reaches; the entry block's is reached; and a block
/// whose reached exit unfolds something passes it to each successor,
/// whose own exit is then reached too.
pub open spec fn storage_states_settled(cfg: &SsaCfg, m: &StorageStateMap, ext: Set<SymbolIdV>) -> bool {
    &&& forall|b: usize| b < cfg.blocks.len() ==> #[trigger] m.entry_of(b) == Set::<SymbolIdV>::empty()
    &&& forall|b: usize| b < cfg.blocks.len() ==> #[trigger] m.exit_of(b) == Set::<SymbolIdV>::empty() || m.exit_of(b) == block_transfer(cfg, b as int, ext)
    &&& m.exit_of(cfg.entry) == block_transfer(cfg, cfg.entry as int, ext)
    &&& forall|b: usize, q: int| b < cfg.blocks.len() && m.exit_of(b) == block_transfer(cfg, b as int, ext) && m.exit_of(b) != Set::<SymbolIdV>::empty()
        && 0 <= q < cfg.blocks@[b as int].successors.len()
        ==> #[trigger] m.exit_of(cfg.blocks@[b as int].successors@[q]) == block_transfer(cfg, cfg.blocks@[b as int].successors@[q] as int, ext)
}

/// The worklist owes a visit to every successor of a settled block that
/// unfolds something, unless that successor is settled.
pub open spec fn successors_owed(cfg: &SsaCfg, m: Map<usize, Set<SymbolIdV>>, ext: Set<SymbolIdV>, w: Seq<usize>) -> bool {
    forall|b: usize, q: int| b < cfg.blocks.len() && settled_at(cfg, m, ext, b) && m[b] != Set::<SymbolIdV>::empty()
        && 0 <= q < cfg.blocks@[b as int].successors.len()
        ==> settled_at(cfg, m, ext, #[trigger] cfg.blocks@[b as int].successors@[q]) || w.contains(cfg.blocks@[b as int].successors@[q])
}

/// Computes the storage state at the entry and exit of each block, by a
/// worklist from the entry block: a block's entry is the join of its
/// predecessors' exits, starting from every variable folded, and a block
/// whose exit changes sends its successors back to the worklist.
#[verifier::rlimit(80)]
#[verifier::spinoff_prover]
pub fn compute_storage_states(cfg: &SsaCfg, symbol_table: &SymbolTable, call_graph: &CallGraphAnalysis) -> (r: Result<StorageStateMap, MerakError>)
    requires
        cfg.well_formed(),
    ensures
        r matches Ok(m) && storage_states_settled(cfg, &m, call_graph@),
{
    let ghost ext = call_graph@;
    let n = cfg.blocks.len();
    let mut states = StorageStateMap::new();
    let mut i: usize = 0;
    while i < n
        invariant
            i <= n,
            n == cfg.blocks.len(),
            forall|b: usize| b < i ==> #[trigger] states.entries().contains_key(b) && states.entries()[b] == Set::<SymbolIdV>::empty(),
            forall|b: usize| b < i ==> #[trigger] states.exits().contains_key(b) && states.exits()[b] == Set::<SymbolIdV>::empty(),
        decreases n - i,
    {
        states.set_entry_state(i, StorageState::empty());
        let _ = states.update_exit_state(i, StorageState::empty());
        i = i + 1;
    }
    let mut worklist: Vec<usize> = Vec::new();
    worklist.push(cfg.entry);
    proof {
        assert(worklist@[0] == cfg.entry);
        assert forall|b: usize, q: int| b < cfg.blocks.len() && settled_at(cfg, states.exits(), ext, b) && states.exits()[b] != Set::<SymbolIdV>::empty()
            && 0 <= q < cfg.blocks@[b as int].successors.len()
            implies settled_at(cfg, states.exits(), ext, #[trigger] cfg.blocks@[b as int].successors@[q]) || worklist@.contains(cfg.blocks@[b as int].successors@[q]) by {
            assert(states.exits().contains_key(b));
        }
    }
    while worklist.len() > 0
        invariant
            n == cfg.blocks.len(),
            cfg.well_formed(),
            ext == call_graph@,
            forall|b: usize| b < n ==> #[trigger] states.entries().contains_key(b) && states.entries()[b] == Set::<SymbolIdV>::empty(),
            forall|b: usize| b < n ==> #[trigger] states.exits().contains_key(b) && (states.exits()[b] == Set::<SymbolIdV>::empty()
                || settled_at(cfg, states.exits(), ext, b)),
            settled_at(cfg, states.exits(), ext, cfg.entry) || worklist@.contains(cfg.entry),
            successors_owed(cfg, states.exits(), ext, worklist@),
            forall|j: int| 0 <= j < worklist.len() ==> #[trigger] worklist@[j] < n,
        decreases pending(cfg, states.exits(), ext, n as nat) + worklist.len(),
    {
        let ghost w0 = worklist@;
        let ghost m0 = states.exits();
        let ghost e0 = states.entries();
        let block_id = worklist.pop().unwrap();
        proof {
            assert(w0.last() == block_id);
            assert(block_id < n);
            assert(cfg.blocks@[block_id as int].edges_within(n as nat));
        }
        let block = &cfg.blocks[block_id];
        let mut entry = StorageState::empty();
        let mut p: usize = 0;
        while p < block.predecessors.len()
            invariant
                p <= block.predecessors.len(),
                entry@ == Set::<SymbolIdV>::empty(),
            decreases block.predecessors.len() - p,
        {
            let pred_exit = states.exit_state(block.predecessors[p]);
            let merged = entry.merge(pred_exit);
            proof {
                lemma_merge_shrinks(pred_exit@, Set::<SymbolIdV>::empty());
                assert(merged@ =~= Set::<SymbolIdV>::empty());
            }
            entry = merged;
            p = p + 1;
        }
        let exit = apply_transfer_function(&entry, &block.instructions, symbol_table, call_graph);
        proof {
            assert(exit@ == block_transfer(cfg, block_id as int, ext));
        }
        states.set_entry_state(block_id, entry);
        let ghost m1 = states.exits();
        let changed = states.update_exit_state(block_id, exit);
        let ghost w1 = worklist@;
        if changed {
            let mut q: usize = 0;
            while q < block.successors.len()
                invariant
                    q <= block.successors.len(),
                    *block == cfg.blocks@[block_id as int],
                    block.edges_within(n as nat),
                    worklist@ == w1 + block.successors@.take(q as int),
                    forall|j: int| 0 <= j < w1.len() ==> #[trigger] w1[j] < n,
                decreases block.successors.len() - q,
            {
                worklist.push(block.successors[q]);
                proof {
                    assert(block.successors@.take(q + 1) =~= block.successors@.take(q as int).push(block.successors@[q as int]));
                }
                q = q + 1;
            }
            proof {
                assert(block.successors@.take(block.successors.len() as int) =~= block.successors@);
                lemma_pending_settle(cfg, m1, ext, n as nat, block_id);
            }
        } else {
            proof {
                assert(states.exits() =~= m1);
            }
        }
        proof {
            let m2 = states.exits();
            assert(m2 == m0.insert(block_id, block_transfer(cfg, block_id as int, ext)));
            assert(states.entries() == e0.insert(block_id, Set::<SymbolIdV>::empty()));
            assert forall|b: usize| b < n implies #[trigger] states.entries().contains_key(b) && states.entries()[b] == Set::<SymbolIdV>::empty() by {
                if b != block_id {
                    assert(e0.contains_key(b));
                }
            }
            assert forall|b: usize| b < n implies #[trigger] states.exits().contains_key(b) && (states.exits()[b] == Set::<SymbolIdV>::empty()
                || settled_at(cfg, states.exits(), ext, b)) by {
                if b != block_id {
                    assert(m0.contains_key(b));
                    assert(m2[b] == m0[b]);
                }
            }
            assert(w1 == w0.drop_last());
            assert forall|s: usize| settled_at(cfg, m0, ext, s) || #[trigger] w0.contains(s) implies settled_at(cfg, m2, ext, s) || worklist@.contains(s) by {
                if s == block_id {
                } else if w0.contains(s) {
                    let j = choose|j: int| 0 <= j < w0.len() && w0[j] == s;
                    assert(w1[j] == s);
                    if changed {
                        assert(worklist@[j] == s);
                    }
                } else {
                    assert(m2[s] == m0[s]);
                }
            }
            assert forall|b: usize, q: int| b < cfg.blocks.len() && settled_at(cfg, m2, ext, b) && m2[b] != Set::<SymbolIdV>::empty()
                && 0 <= q < cfg.blocks@[b as int].successors.len()
                implies settled_at(cfg, m2, ext, #[trigger] cfg.blocks@[b as int].successors@[q]) || worklist@.contains(cfg.blocks@[b as int].successors@[q]) by {
                let sq = cfg.blocks@[b as int].successors@[q];
                if b == block_id && changed {
                    assert(worklist@[w1.len() + q] == sq);
                } else {
                    if b != block_id {
                        assert(m2[b] == m0[b]);
                    }
                    assert(settled_at(cfg, m0, ext, sq) || w0.contains(sq));
                }
            }
            assert(settled_at(cfg, m0, ext, cfg.entry) || w0.contains(cfg.entry));
            assert forall|j: int| 0 <= j < worklist.len() implies #[trigger] worklist@[j] < n by {
                if j < w1.len() {
                    assert(worklist@[j] == w1[j]);
                    assert(w1[j] == w0[j]);
                } else {
                    assert(block.edges_within(n as nat));
                    assert(worklist@[j] == block.successors@[j - w1.len()]);
                }
            }
            if !changed {
                assert(m0 =~= m2);
            }
        }
    }
    proof {
        assert forall|b: usize, q: int| b < cfg.blocks.len() && states.exit_of(b) == block_transfer(cfg, b as int, ext) && states.exit_of(b) != Set::<SymbolIdV>::empty()
            && 0 <= q < cfg.blocks@[b as int].successors.len()
            implies #[trigger] states.exit_of(cfg.blocks@[b as int].successors@[q]) == block_transfer(cfg, cfg.blocks@[b as int].successors@[q] as int, ext) by {
            assert(states.exits().contains_key(b));
            assert(settled_at(cfg, states.exits(), ext, b));
            assert(cfg.blocks@[b as int].edges_within(n as nat));
            let sq = cfg.blocks@[b as int].successors@[q];
            assert(settled_at(cfg, states.exits(), ext, sq) || worklist@.contains(sq));
            assert(states.exits().contains_key(sq));
        }
        assert(states.exits().contains_key(cfg.entry));
        assert forall|b: usize| b < cfg.blocks.len() implies #[trigger] states.exit_of(b) == Set::<SymbolIdV>::empty() || states.exit_of(b) == block_transfer(cfg, b as int, ext) by {
            assert(states.exits().contains_key(b));
        }
        assert forall|b: usize| b < cfg.blocks.len() implies #[trigger] states.entry_of(b) == Set::<SymbolIdV>::empty() by {
            assert(states.entries().contains_key(b));
        }
    }
    Ok(states)
}

// ---------------------------------------------------------------------------
// Fold and unfold instructions
// ---------------------------------------------------------------------------

/// Whether an instruction is a fold or an unfold.
pub open spec fn is_fold_like(i: InstrV) -> bool {
    i is Fold || i is Unfold
}

/// The instructions without their folds and unfolds.
pub open spec fn erase_folds(s: Seq<InstrV>) -> Seq<InstrV>
    decreases s.len(),
{
    if s.len() == 0 {
        Seq::empty()
    } else if is_fold_like(s.last()) {
        erase_folds(s.drop_last())
    } else {
        erase_folds(s.drop_last()).push(s.last())
    }
}

/// Whether a sequence holds no fold or unfold.
pub open spec fn no_folds(s: Seq<InstrV>) -> bool {
    forall|k: int| 0 <= k < s.len() ==> !is_fold_like(#[trigger] s[k])
}

/// What a fold or unfold does to the unfolded variables.
pub open spec fn fold_step(st: Set<SymbolIdV>, i: InstrV) -> Set<SymbolIdV> {
    match i {
        InstrV::Unfold(v, _) => st.insert(v),
        InstrV::Fold(v, _) => st.remove(v),
        _ => st,
    }
}

/// The variables that the folds and unfolds of a sequence leave unfolded.
pub open spec fn sim(start: Set<SymbolIdV>, s: Seq<InstrV>) -> Set<SymbolIdV>
    decreases s.len(),
{
    if s.len() == 0 {
        start
    } else {
        fold_step(sim(start, s.drop_last()), s.last())
    }
}

/// The variable a load or store reads or writes.
pub open spec fn accessed(i: InstrV) -> Option<SymbolIdV> {
    match i {
        InstrV::StorageLoad(_, v, _) => Some(v),
        InstrV::StorageStore(v, _, _) => Some(v),
        _ => None,
    }
}

/// Every load and store finds its variable unfolded.
pub open spec fn accesses_unfolded(start: Set<SymbolIdV>, s: Seq<InstrV>) -> bool {
    forall|k: int| 0 <= k < s.len() && (#[trigger] accessed(s[k])) is Some ==> sim(start, s.take(k)).contains(accessed(s[k])->0)
}

/// Every store is followed at once by a fold of its variable.
pub open spec fn stores_refolded(s: Seq<InstrV>) -> bool {
    forall|k: int| 0 <= k < s.len() && (#[trigger] s[k]) is StorageStore ==> k + 1 < s.len() && s[k + 1] is Fold && s[k + 1]->Fold_0 == s[k]->StorageStore_0
}

/// The symbol of the first entry of an id.
pub open spec fn first_symbol(t: &SymbolTable, id: SymbolIdV, i: int) -> bool {
    &&& 0 <= i < t.symbols.len()
    &&& t.symbols@[i].0@ == id
    &&& forall|j: int| 0 <= j < i ==> (#[trigger] t.symbols@[j]).0@ != id
}

/// Whether the symbol table knows an id as a function or entrypoint.
pub open spec fn is_function_symbol(t: &SymbolTable, id: SymbolIdV) -> bool {
    exists|i: int| #[trigger] first_symbol(t, id, i) && (t.symbols@[i].1.kind is Function || t.symbols@[i].1.kind is Entrypoint)
}

/// The reentrancy modifier of a function or entrypoint.
pub open spec fn reentrancy_of(t: &SymbolTable, id: SymbolIdV) -> Modifier {
    let i = choose|i: int| first_symbol(t, id, i);
    match t.symbols@[i].1.kind {
        SymbolKind::Function { reentrancy, .. } => reentrancy,
        SymbolKind::Entrypoint { reentrancy, .. } => reentrancy,
        _ => Modifier::Checked,
    }
}

/// Whether a call may let control leave the contract: an external call,
/// or an internal one to a reentrant function or to one that calls out.
pub open spec fn may_reenter(i: InstrV, t: &SymbolTable, ext: Set<SymbolIdV>) -> bool {
    ||| is_external_call(i)
    ||| internal_callee(i) is Some && (reentrancy_of(t, internal_callee(i)->0) == Modifier::Reentrant || ext.contains(internal_callee(i)->0))
}

/// Every call that may let control leave finds all mutable locations
/// unfolded.
pub open spec fn calls_unfolded(start: Set<SymbolIdV>, s: Seq<InstrV>, t: &SymbolTable, ext: Set<SymbolIdV>, mutable: Set<SymbolIdV>) -> bool {
    forall|k: int| 0 <= k < s.len() && #[trigger] may_reenter(s[k], t, ext) ==> mutable.subset_of(sim(start, s.take(k)))
}

/// What the rewriting of a block keeps true of what it has emitted.
pub open spec fn emitted_ok(start: Set<SymbolIdV>, s: Seq<InstrV>, t: &SymbolTable, ext: Set<SymbolIdV>, mutable: Set<SymbolIdV>) -> bool {
    &&& accesses_unfolded(start, s)
    &&& stores_refolded(s)
    &&& calls_unfolded(start, s, t, ext, mutable)
}

pub proof fn lemma_push_instr(start: Set<SymbolIdV>, s: Seq<InstrV>, x: InstrV)
    ensures
        sim(start, s.push(x)) == fold_step(sim(start, s), x),
        erase_folds(s.push(x)) == (if is_fold_like(x) { erase_folds(s) } else { erase_folds(s).push(x) }),
        accesses_unfolded(start, s) && (accessed(x) is Some ==> sim(start, s).contains(accessed(x)->0)) ==> accesses_unfolded(start, s.push(x)),
        stores_refolded(s) && !(x is StorageStore) ==> stores_refolded(s.push(x)),
        forall|t: &SymbolTable, ext: Set<SymbolIdV>, mutable: Set<SymbolIdV>| #[trigger] calls_unfolded(start, s, t, ext, mutable)
            && (may_reenter(x, t, ext) ==> mutable.subset_of(sim(start, s)))
            ==> calls_unfolded(start, s.push(x), t, ext, mutable),
{
    assert(s.push(x).drop_last() =~= s);
    assert forall|k: int| 0 <= k < s.len() implies #[trigger] s.push(x).take(k) == s.take(k) by {
        assert(s.push(x).take(k) =~= s.take(k));
    }
    assert(s.push(x).take(s.len() as int) =~= s);
    if accesses_unfolded(start, s) && (accessed(x) is Some ==> sim(start, s).contains(accessed(x)->0)) {
        assert forall|k: int| 0 <= k < s.push(x).len() && (#[trigger] accessed(s.push(x)[k])) is Some implies sim(start, s.push(x).take(k)).contains(
            accessed(s.push(x)[k])->0,
        ) by {
            if k < s.len() {
                assert(s.push(x)[k] == s[k]);
                assert(s.push(x).take(k) == s.take(k));
            }
        }
    }
    if stores_refolded(s) && !(x is StorageStore) {
        assert forall|k: int| 0 <= k < s.push(x).len() && (#[trigger] s.push(x)[k]) is StorageStore implies k + 1 < s.push(x).len()
            && s.push(x)[k + 1] is Fold && s.push(x)[k + 1]->Fold_0 == s.push(x)[k]->StorageStore_0 by {
            assert(k < s.len());
            assert(s.push(x)[k] == s[k]);
            assert(s.push(x)[k + 1] == s[k + 1]);
        }
    }
    assert forall|t: &SymbolTable, ext: Set<SymbolIdV>, mutable: Set<SymbolIdV>| #[trigger] calls_unfolded(start, s, t, ext, mutable)
        && (may_reenter(x, t, ext) ==> mutable.subset_of(sim(start, s)))
        implies calls_unfolded(start, s.push(x), t, ext, mutable) by {
        assert forall|k: int| 0 <= k < s.push(x).len() && #[trigger] may_reenter(s.push(x)[k], t, ext) implies mutable.subset_of(
            sim(start, s.push(x).take(k)),
        ) by {
            if k < s.len() {
                assert(s.push(x)[k] == s[k]);
                assert(s.push(x).take(k) == s.take(k));
            }
        }
    }
}

pub proof fn lemma_no_folds_push(s: Seq<InstrV>, x: InstrV)
    ensures
        no_folds(s.push(x)) <==> no_folds(s) && !is_fold_like(x),
{
    if no_folds(s.push(x)) {
        assert forall|k: int| 0 <= k < s.len() implies !is_fold_like(#[trigger] s[k]) by {
            assert(s.push(x)[k] == s[k]);
        }
        assert(s.push(x)[s.len() as int] == x);
    }
    if no_folds(s) && !is_fold_like(x) {
        assert forall|k: int| 0 <= k < s.push(x).len() implies !is_fold_like(#[trigger] s.push(x)[k]) by {
            if k < s.len() {
                assert(s.push(x)[k] == s[k]);
            }
        }
    }
}

/// Inserting folds and unfolds keeps the other instructions' checks as
/// they were.
pub proof fn lemma_erase_folds_ok(s: Seq<InstrV>)
    ensures
        (forall|k: int| 0 <= k < s.len() ==> crate::refinements::inference::instr_predicates_ok(#[trigger] s[k]))
            <==> (forall|k: int| 0 <= k < erase_folds(s).len() ==> crate::refinements::inference::instr_predicates_ok(#[trigger] erase_folds(s)[k])),
    decreases s.len(),
{
    if s.len() > 0 {
        let t = s.drop_last();
        lemma_erase_folds_ok(t);
        if forall|k: int| 0 <= k < s.len() ==> crate::refinements::inference::instr_predicates_ok(#[trigger] s[k]) {
            assert forall|k: int| 0 <= k < t.len() implies crate::refinements::inference::instr_predicates_ok(#[trigger] t[k]) by {
                assert(t[k] == s[k]);
            }
            assert(crate::refinements::inference::instr_predicates_ok(s[s.len() - 1]));
            if !is_fold_like(s.last()) {
                assert forall|k: int| 0 <= k < erase_folds(s).len() implies crate::refinements::inference::instr_predicates_ok(#[trigger] erase_folds(s)[k]) by {
                    if k < erase_folds(t).len() {
                        assert(erase_folds(s)[k] == erase_folds(t)[k]);
                    }
                }
            }
        }
        if forall|k: int| 0 <= k < erase_folds(s).len() ==> crate::refinements::inference::instr_predicates_ok(#[trigger] erase_folds(s)[k]) {
            assert forall|k: int| 0 <= k < erase_folds(t).len() implies crate::refinements::inference::instr_predicates_ok(#[trigger] erase_folds(t)[k]) by {
                assert(erase_folds(s)[k] == erase_folds(t)[k]);
            }
            if !is_fold_like(s.last()) {
                assert(erase_folds(s)[erase_folds(t).len() as int] == s.last());
            }
            assert(forall|k: int| 0 <= k < t.len() ==> crate::refinements::inference::instr_predicates_ok(#[trigger] t[k]));
            assert forall|k: int| 0 <= k < s.len() implies crate::refinements::inference::instr_predicates_ok(#[trigger] s[k]) by {
                if k < t.len() {
                    assert(t[k] == s[k]);
                }
            }
        }
    }
}

/// The reentrancy modifier of a function or entrypoint.
fn get_reentrancy_modifier(fn_id: &SymbolId, symbol_table: &SymbolTable) -> (r: Modifier)
    requires
        is_function_symbol(symbol_table, fn_id@),
    ensures
        r == reentrancy_of(symbol_table, fn_id@),
{
    let info = match symbol_table.get_symbol(fn_id) {
        Some(info) => info,
        None => {
            proof {
                let i = choose|i: int| #[trigger] first_symbol(symbol_table, fn_id@, i)
                    && (symbol_table.symbols@[i].1.kind is Function || symbol_table.symbols@[i].1.kind is Entrypoint);
                assert(symbol_table.symbols@[i].0@ == fn_id@);
            }
            return vstd::pervasive::unreached();
        },
    };
    proof {
        let i = choose|i: int| #[trigger] first_symbol(symbol_table, fn_id@, i)
            && (symbol_table.symbols@[i].1.kind is Function || symbol_table.symbols@[i].1.kind is Entrypoint);
        let i2 = choose|i2: int| 0 <= i2 < symbol_table.symbols.len() && (#[trigger] symbol_table.symbols@[i2]).0@ == fn_id@
            && symbol_table.symbols@[i2].1 == *info
            && forall|j: int| 0 <= j < i2 ==> (#[trigger] symbol_table.symbols@[j]).0@ != fn_id@;
        let c = choose|c: int| first_symbol(symbol_table, fn_id@, c);
        assert(first_symbol(symbol_table, fn_id@, i2));
        if i < i2 {
            assert(symbol_table.symbols@[i].0@ != fn_id@);
        }
        if i2 < i {
            assert(symbol_table.symbols@[i2].0@ != fn_id@);
        }
        if c < i {
            assert(symbol_table.symbols@[c].0@ != fn_id@);
        }
        if i < c {
            assert(symbol_table.symbols@[i].0@ != fn_id@);
        }
    }
    match &info.kind {
        SymbolKind::Function { reentrancy, .. } => *reentrancy,
        SymbolKind::Entrypoint { reentrancy, .. } => *reentrancy,
        _ => vstd::pervasive::unreached(),
    }
}

/// The symbols of all locations of a list.
pub open spec fn location_symbols(v: Seq<StorageLocation>) -> Set<SymbolIdV> {
    Set::new(|s: SymbolIdV| exists|j: int| 0 <= j < v.len() && (#[trigger] v[j]).symbol@ == s)
}

/// Before a call that may let control leave: unfolds each mutable
/// location that is folded.
fn unfold_mutable(
    out: &mut Vec<SsaInstruction>,
    current: &mut StorageState,
    locations: &StorageLocationSet,
    source_ref: SourceRef,
    Ghost(start): Ghost<Set<SymbolIdV>>,
    Ghost(valid): Ghost<bool>,
    Ghost(t): Ghost<&SymbolTable>,
    Ghost(ext): Ghost<Set<SymbolIdV>>,
)
    requires
        valid ==> old(current)@ == sim(start, instr_views(old(out)@)),
        valid ==> emitted_ok(start, instr_views(old(out)@), t, ext, mutable_symbols(locations.locations@)),
    ensures
        final(current)@ == old(current)@.union(mutable_symbols(locations.locations@)),
        erase_folds(instr_views(final(out)@)) == erase_folds(instr_views(old(out)@)),
        valid ==> final(current)@ == sim(start, instr_views(final(out)@)),
        valid ==> emitted_ok(start, instr_views(final(out)@), t, ext, mutable_symbols(locations.locations@)),
{
    let ghost mutable = mutable_symbols(locations.locations@);
    let mut i: usize = 0;
    while i < locations.locations.len()
        invariant
            i <= locations.locations.len(),
            mutable == mutable_symbols(locations.locations@),
            current@ == old(current)@.union(mutable_symbols(locations.locations@.take(i as int))),
            erase_folds(instr_views(out@)) == erase_folds(instr_views(old(out)@)),
            valid ==> current@ == sim(start, instr_views(out@)),
            valid ==> emitted_ok(start, instr_views(out@), t, ext, mutable),
        decreases locations.locations.len() - i,
    {
        let loc = &locations.locations[i];
        proof {
            assert(locations.locations@.take(i + 1).drop_last() =~= locations.locations@.take(i as int));
        }
        if loc.mutability.is_mutable() && current.is_folded(&loc.symbol) {
            let x = SsaInstruction::Unfold { var: loc.symbol.clone(), source_ref };
            let ghost before = instr_views(out@);
            proof {
                lemma_push_instr(start, before, x@);
            }
            out.push(x);
            proof {
                assert(instr_views(out@) =~= before.push(x@));
            }
            current.unfold(&loc.symbol);
        }
        proof {
            assert(current@ =~= old(current)@.union(mutable_symbols(locations.locations@.take(i + 1))));
        }
        i = i + 1;
    }
    proof {
        assert(locations.locations@.take(locations.locations.len() as int) =~= locations.locations@);
    }
}

/// After such a call, or at the end of a block: folds each location that
/// is unfolded, the mutable ones only when `only_mutable` holds.
fn fold_unfolded(
    out: &mut Vec<SsaInstruction>,
    current: &mut StorageState,
    locations: &StorageLocationSet,
    only_mutable: bool,
    source_ref: SourceRef,
    Ghost(start): Ghost<Set<SymbolIdV>>,
    Ghost(valid): Ghost<bool>,
    Ghost(t): Ghost<&SymbolTable>,
    Ghost(ext): Ghost<Set<SymbolIdV>>,
)
    requires
        valid ==> old(current)@ == sim(start, instr_views(old(out)@)),
        valid ==> emitted_ok(start, instr_views(old(out)@), t, ext, mutable_symbols(locations.locations@)),
    ensures
        only_mutable ==> final(current)@ == old(current)@.difference(mutable_symbols(locations.locations@)),
        !only_mutable ==> final(current)@ == old(current)@.difference(location_symbols(locations.locations@)),
        erase_folds(instr_views(final(out)@)) == erase_folds(instr_views(old(out)@)),
        valid ==> final(current)@ == sim(start, instr_views(final(out)@)),
        valid ==> emitted_ok(start, instr_views(final(out)@), t, ext, mutable_symbols(locations.locations@)),
{
    let ghost mutable = mutable_symbols(locations.locations@);
    let mut i: usize = 0;
    while i < locations.locations.len()
        invariant
            i <= locations.locations.len(),
            mutable == mutable_symbols(locations.locations@),
            only_mutable ==> current@ == old(current)@.difference(mutable_symbols(locations.locations@.take(i as int))),
            !only_mutable ==> current@ == old(current)@.difference(location_symbols(locations.locations@.take(i as int))),
            erase_folds(instr_views(out@)) == erase_folds(instr_views(old(out)@)),
            valid ==> current@ == sim(start, instr_views(out@)),
            valid ==> emitted_ok(start, instr_views(out@), t, ext, mutable),
        decreases locations.locations.len() - i,
    {
        let loc = &locations.locations[i];
        proof {
            assert(locations.locations@.take(i + 1).drop_last() =~= locations.locations@.take(i as int));
        }
        if (!only_mutable || loc.mutability.is_mutable()) && current.is_unfolded(&loc.symbol) {
            let x = SsaInstruction::Fold { var: loc.symbol.clone(), source_ref };
            let ghost before = instr_views(out@);
            proof {
                lemma_push_instr(start, before, x@);
            }
            out.push(x);
            proof {
                assert(instr_views(out@) =~= before.push(x@));
            }
            current.fold(&loc.symbol);
        }
        proof {
            if only_mutable {
                assert(current@ =~= old(current)@.difference(mutable_symbols(locations.locations@.take(i + 1))));
            } else {
                assert(current@ =~= old(current)@.difference(location_symbols(locations.locations@.take(i + 1)))) by {
                    assert forall|s: SymbolIdV| #[trigger] location_symbols(locations.locations@.take(i + 1)).contains(s)
                        <==> location_symbols(locations.locations@.take(i as int)).contains(s) || s == loc.symbol@ by {
                        let v = locations.locations@.take(i + 1);
                        if location_symbols(v).contains(s) {
                            let j = choose|j: int| 0 <= j < v.len() && (#[trigger] v[j]).symbol@ == s;
                            if j < i {
                                assert(locations.locations@.take(i as int)[j] == v[j]);
                            }
                        }
                        if location_symbols(locations.locations@.take(i as int)).contains(s) {
                            let j = choose|j: int| 0 <= j < i && (#[trigger] locations.locations@.take(i as int)[j]).symbol@ == s;
                            assert(v[j] == locations.locations@.take(i as int)[j]);
                        }
                        if s == loc.symbol@ {
                            assert(v[i as int] == *loc);
                        }
                    }
                }
            }
        }
        i = i + 1;
    }
    proof {
        assert(locations.locations@.take(locations.locations.len() as int) =~= locations.locations@);
    }
}

/// Whether every internal call of the instructions names a function the
/// symbol table knows.
pub open spec fn callees_known(t: &SymbolTable, s: Seq<InstrV>) -> bool {
    forall|k: int| 0 <= k < s.len() && (#[trigger] internal_callee(s[k])) is Some ==> is_function_symbol(t, internal_callee(s[k])->0)
}

/// Appends an instruction that is not a store.
fn emit(
    out: &mut Vec<SsaInstruction>,
    x: SsaInstruction,
    Ghost(start): Ghost<Set<SymbolIdV>>,
    Ghost(valid): Ghost<bool>,
    Ghost(t): Ghost<&SymbolTable>,
    Ghost(ext): Ghost<Set<SymbolIdV>>,
    Ghost(mutable): Ghost<Set<SymbolIdV>>,
)
    requires
        valid ==> emitted_ok(start, instr_views(old(out)@), t, ext, mutable),
        valid && accessed(x@) is Some ==> sim(start, instr_views(old(out)@)).contains(accessed(x@)->0),
        valid && may_reenter(x@, t, ext) ==> mutable.subset_of(sim(start, instr_views(old(out)@))),
        valid ==> !(x@ is StorageStore),
    ensures
        instr_views(final(out)@) == instr_views(old(out)@).push(x@),
        sim(start, instr_views(final(out)@)) == fold_step(sim(start, instr_views(old(out)@)), x@),
        erase_folds(instr_views(final(out)@)) == (if is_fold_like(x@) {
            erase_folds(instr_views(old(out)@))
        } else {
            erase_folds(instr_views(old(out)@)).push(x@)
        }),
        valid ==> emitted_ok(start, instr_views(final(out)@), t, ext, mutable),
{
    let ghost before = instr_views(out@);
    let ghost xv = x@;
    proof {
        lemma_push_instr(start, before, xv);
    }
    out.push(x);
    proof {
        assert(instr_views(out@) =~= before.push(xv));
    }
}

/// Appends a store and, at once, the fold of its variable.
fn emit_store(
    out: &mut Vec<SsaInstruction>,
    store: SsaInstruction,
    fold: SsaInstruction,
    Ghost(start): Ghost<Set<SymbolIdV>>,
    Ghost(valid): Ghost<bool>,
    Ghost(t): Ghost<&SymbolTable>,
    Ghost(ext): Ghost<Set<SymbolIdV>>,
    Ghost(mutable): Ghost<Set<SymbolIdV>>,
)
    requires
        store@ is StorageStore,
        fold@ is Fold,
        fold@->Fold_0 == store@->StorageStore_0,
        valid ==> emitted_ok(start, instr_views(old(out)@), t, ext, mutable),
        valid ==> sim(start, instr_views(old(out)@)).contains(store@->StorageStore_0),
    ensures
        instr_views(final(out)@) == instr_views(old(out)@).push(store@).push(fold@),
        sim(start, instr_views(final(out)@)) == sim(start, instr_views(old(out)@)).remove(store@->StorageStore_0),
        erase_folds(instr_views(final(out)@)) == erase_folds(instr_views(old(out)@)).push(store@),
        valid ==> emitted_ok(start, instr_views(final(out)@), t, ext, mutable),
{
    let ghost s0 = instr_views(out@);
    let ghost sv = store@;
    let ghost fv = fold@;
    proof {
        lemma_push_instr(start, s0, sv);
        lemma_push_instr(start, s0.push(sv), fv);
        assert(!may_reenter(sv, t, ext));
        assert(!may_reenter(fv, t, ext));
    }
    out.push(store);
    out.push(fold);
    proof {
        let s2 = s0.push(sv).push(fv);
        assert(instr_views(out@) =~= s2);
        if valid {
            assert forall|k: int| 0 <= k < s2.len() && (#[trigger] s2[k]) is StorageStore implies k + 1 < s2.len()
                && s2[k + 1] is Fold && s2[k + 1]->Fold_0 == s2[k]->StorageStore_0 by {
                if k < s0.len() {
                    assert(s2[k] == s0[k]);
                    assert(s2[k + 1] == s0[k + 1] || k + 1 == s0.len());
                    if k + 1 == s0.len() {
                        assert(s0[k] is StorageStore);
                    } else {
                        assert(s2[k + 1] == s0[k + 1]);
                    }
                }
            }
        }
    }
}

/// A block's instructions with folds and unfolds put in: a folded
/// variable is unfolded before its load or store, a store is followed by
/// the fold of its variable, a call that may let control leave has every
/// mutable location unfolded before it and folded after it, and whatever
/// is still unfolded at the end of the block is folded.
fn rewrite_block(
    instrs: &Vec<SsaInstruction>,
    entry: &StorageState,
    locations: &StorageLocationSet,
    symbol_table: &SymbolTable,
    call_graph: &CallGraphAnalysis,
) -> (r: Vec<SsaInstruction>)
    requires
        callees_known(symbol_table, instr_views(instrs@)),
    ensures
        erase_folds(instr_views(r@)) == erase_folds(instr_views(instrs@)),
        no_folds(instr_views(instrs@)) ==> emitted_ok(entry@, instr_views(r@), symbol_table, call_graph@, mutable_symbols(locations.locations@)),
        no_folds(instr_views(instrs@)) ==> forall|j: int| 0 <= j < locations.locations.len()
            ==> !sim(entry@, instr_views(r@)).contains((#[trigger] locations.locations@[j]).symbol@),
{
    let ghost start = entry@;
    let ghost ext = call_graph@;
    let ghost mutable = mutable_symbols(locations.locations@);
    let ghost iv = instr_views(instrs@);
    let mut current = entry.clone();
    let mut out: Vec<SsaInstruction> = Vec::new();
    proof {
        assert(instr_views(out@) =~= Seq::<InstrV>::empty());
        assert(iv.take(0) =~= Seq::<InstrV>::empty());
    }
    let mut k: usize = 0;
    while k < instrs.len()
        invariant
            k <= instrs.len(),
            iv == instr_views(instrs@),
            ext == call_graph@,
            mutable == mutable_symbols(locations.locations@),
            callees_known(symbol_table, iv),
            erase_folds(instr_views(out@)) == erase_folds(iv.take(k as int)),
            no_folds(iv.take(k as int)) ==> current@ == sim(start, instr_views(out@)),
            no_folds(iv.take(k as int)) ==> emitted_ok(start, instr_views(out@), symbol_table, ext, mutable),
        decreases instrs.len() - k,
    {
        let instr = &instrs[k];
        let ghost prefix = iv.take(k as int);
        let ghost valid = no_folds(iv.take(k + 1));
        let ghost out0 = instr_views(out@);
        proof {
            assert(iv.take(k + 1) =~= prefix.push(instr@));
            lemma_no_folds_push(prefix, instr@);
            lemma_push_instr(start, prefix, instr@);
        }
        match instr {
            SsaInstruction::StorageLoad { var, source_ref, .. } => {
                if current.is_folded(var) {
                    emit(&mut out, SsaInstruction::Unfold { var: var.clone(), source_ref: *source_ref }, Ghost(start), Ghost(valid), Ghost(symbol_table), Ghost(ext), Ghost(mutable));
                    current.unfold(var);
                }
                emit(&mut out, instr.clone(), Ghost(start), Ghost(valid), Ghost(symbol_table), Ghost(ext), Ghost(mutable));
            },
            SsaInstruction::StorageStore { var, source_ref, .. } => {
                if current.is_folded(var) {
                    emit(&mut out, SsaInstruction::Unfold { var: var.clone(), source_ref: *source_ref }, Ghost(start), Ghost(valid), Ghost(symbol_table), Ghost(ext), Ghost(mutable));
                    current.unfold(var);
                }
                emit_store(&mut out, instr.clone(), SsaInstruction::Fold { var: var.clone(), source_ref: *source_ref }, Ghost(start), Ghost(valid), Ghost(symbol_table), Ghost(ext), Ghost(mutable));
                current.fold(var);
            },
            SsaInstruction::Call { target: CallTarget::External { .. }, source_ref, .. } => {
                unfold_mutable(&mut out, &mut current, locations, *source_ref, Ghost(start), Ghost(valid), Ghost(symbol_table), Ghost(ext));
                emit(&mut out, instr.clone(), Ghost(start), Ghost(valid), Ghost(symbol_table), Ghost(ext), Ghost(mutable));
                fold_unfolded(&mut out, &mut current, locations, true, *source_ref, Ghost(start), Ghost(valid), Ghost(symbol_table), Ghost(ext));
            },
            SsaInstruction::Call { target: CallTarget::Internal(fn_id), source_ref, .. } => {
                proof {
                    assert(internal_callee(iv[k as int]) == Some(fn_id@));
                }
                let reentrancy = get_reentrancy_modifier(fn_id, symbol_table);
                let needs = reentrancy == Modifier::Reentrant || call_graph.contains_external_calls(fn_id);
                if needs {
                    unfold_mutable(&mut out, &mut current, locations, *source_ref, Ghost(start), Ghost(valid), Ghost(symbol_table), Ghost(ext));
                    emit(&mut out, instr.clone(), Ghost(start), Ghost(valid), Ghost(symbol_table), Ghost(ext), Ghost(mutable));
                    fold_unfolded(&mut out, &mut current, locations, true, *source_ref, Ghost(start), Ghost(valid), Ghost(symbol_table), Ghost(ext));
                } else {
                    emit(&mut out, instr.clone(), Ghost(start), Ghost(valid), Ghost(symbol_table), Ghost(ext), Ghost(mutable));
                }
            },
            _ => {
                emit(&mut out, instr.clone(), Ghost(start), Ghost(valid), Ghost(symbol_table), Ghost(ext), Ghost(mutable));
            },
        }
        k = k + 1;
    }
    proof {
        assert(iv.take(instrs.len() as int) =~= iv);
    }
    let ghost valid = no_folds(iv);
    fold_unfolded(&mut out, &mut current, locations, false, SourceRef::unknown(), Ghost(start), Ghost(valid), Ghost(symbol_table), Ghost(ext));
    proof {
        if valid {
            assert forall|j: int| 0 <= j < locations.locations.len() implies !sim(start, instr_views(out@)).contains(
                (#[trigger] locations.locations@[j]).symbol@,
            ) by {
                assert(location_symbols(locations.locations@).contains(locations.locations@[j].symbol@));
            }
        }
    }
    out
}

/// Whether every internal call of a function names a function the symbol
/// table knows.
pub open spec fn cfg_callees_known(t: &SymbolTable, cfg: &SsaCfg) -> bool {
    forall|b: int| 0 <= b < cfg.blocks.len() ==> callees_known(t, instr_views(#[trigger] cfg.blocks@[b].instructions@))
}

/// Whether two functions differ at most in the instructions of their
/// blocks.
pub open spec fn same_but_instructions(a: &SsaCfg, b: &SsaCfg) -> bool {
    &&& a.function_id == b.function_id
    &&& a.name == b.name
    &&& a.parameters == b.parameters
    &&& a.entry == b.entry
    &&& a.requires == b.requires
    &&& a.ensures == b.ensures
    &&& a.local_temps == b.local_temps
    &&& a.blocks.len() == b.blocks.len()
    &&& forall|k: int| 0 <= k < a.blocks.len() ==> {
        &&& (#[trigger] a.blocks@[k]).terminator == b.blocks@[k].terminator
        &&& a.blocks@[k].predecessors == b.blocks@[k].predecessors
        &&& a.blocks@[k].successors == b.blocks@[k].successors
    }
}

/// What the insertion of folds and unfolds guarantees of a block that had
/// none: loads and stores find their variable unfolded, stores are folded
/// at once, calls that may let control leave find the mutable locations
/// unfolded, and the block ends with every location folded.
pub open spec fn block_folds_ok(
    start: Set<SymbolIdV>,
    s: Seq<InstrV>,
    t: &SymbolTable,
    ext: Set<SymbolIdV>,
    locs: Seq<StorageLocation>,
) -> bool {
    &&& emitted_ok(start, s, t, ext, mutable_symbols(locs))
    &&& forall|j: int| 0 <= j < locs.len() ==> !sim(start, s).contains((#[trigger] locs[j]).symbol@)
}

/// Puts folds and unfolds into every block of a function, starting each
/// block from the state recorded at its entry.
pub fn insert_fold_unfold_instructions(
    cfg: &mut SsaCfg,
    state_map: &StorageStateMap,
    locations: &StorageLocationSet,
    symbol_table: &SymbolTable,
    call_graph: &CallGraphAnalysis,
)
    requires
        cfg_callees_known(symbol_table, old(cfg)),
    ensures
        same_but_instructions(old(cfg), final(cfg)),
        forall|b: int| 0 <= b < old(cfg).blocks.len() ==> erase_folds(instr_views(#[trigger] final(cfg).blocks@[b].instructions@))
            == erase_folds(instr_views(old(cfg).blocks@[b].instructions@)),
        forall|b: int| 0 <= b < old(cfg).blocks.len() && no_folds(instr_views(old(cfg).blocks@[b].instructions@)) ==> block_folds_ok(
            state_map.entry_of(b as usize),
            instr_views(#[trigger] final(cfg).blocks@[b].instructions@),
            symbol_table,
            call_graph@,
            locations.locations@,
        ),
{
    let mut b: usize = 0;
    while b < cfg.blocks.len()
        invariant
            b <= cfg.blocks.len(),
            same_but_instructions(old(cfg), cfg),
            cfg_callees_known(symbol_table, old(cfg)),
            forall|k: int| b <= k < cfg.blocks.len() ==> (#[trigger] cfg.blocks@[k]).instructions == old(cfg).blocks@[k].instructions,
            forall|k: int| 0 <= k < b ==> erase_folds(instr_views(#[trigger] cfg.blocks@[k].instructions@))
                == erase_folds(instr_views(old(cfg).blocks@[k].instructions@)),
            forall|k: int| 0 <= k < b && no_folds(instr_views(old(cfg).blocks@[k].instructions@)) ==> block_folds_ok(
                state_map.entry_of(k as usize),
                instr_views(#[trigger] cfg.blocks@[k].instructions@),
                symbol_table,
                call_graph@,
                locations.locations@,
            ),
        decreases cfg.blocks.len() - b,
    {
        let entry_state = state_map.entry_state(b);
        proof {
            assert(callees_known(symbol_table, instr_views(old(cfg).blocks@[b as int].instructions@)));
        }
        let new_instructions = rewrite_block(&cfg.blocks[b].instructions, entry_state, locations, symbol_table, call_graph);
        let ghost before = cfg.blocks@;
        cfg.blocks[b].instructions = new_instructions;
        proof {
            assert forall|k: int| 0 <= k < cfg.blocks.len() && k != b implies #[trigger] cfg.blocks@[k] == before[k] by {}
        }
        b = b + 1;
    }
}

// ---------------------------------------------------------------------------
// Checks on storage writes
// ---------------------------------------------------------------------------

/// How an error names a storage variable: by its name, or a temporary by
/// its number.
pub open spec fn symbol_label(s: SymbolIdV) -> Seq<char> {
    match s {
        SymbolIdV::Named(n, _) => n,
        SymbolIdV::Temp(t) => crate::ir::temp_prefix() + crate::names::decimal(t as nat),
    }
}

pub fn symbol_label_string(s: &SymbolId) -> (r: String)
    ensures
        r@ == symbol_label(s@),
{
    proof {
        reveal_strlit("__temp_");
    }
    match s {
        SymbolId::Named(n, _) => n.clone(),
        SymbolId::Temp(t) => {
            let mut out = String::from_str("__temp_");
            let digits = crate::names::usize_to_string(*t);
            out.append(digits.as_str());
            out
        },
    }
}

/// A chain of blocks, each a listed successor of the one before.
pub open spec fn is_succ_path(cfg: &SsaCfg, p: Seq<usize>) -> bool {
    &&& p.len() > 0
    &&& forall|i: int| 0 <= i < p.len() ==> (#[trigger] p[i]) < cfg.blocks.len()
    &&& forall|i: int| 0 <= i < p.len() - 1 ==> cfg.blocks@[#[trigger] p[i] as int].successors@.contains(p[i + 1])
}

/// Whether control can go from one block to another through at least one
/// edge.
pub open spec fn reaches(cfg: &SsaCfg, from: usize, to: usize) -> bool {
    exists|p: Seq<usize>| #[trigger] is_succ_path(cfg, p) && p.len() >= 2 && p[0] == from && p.last() == to
}

/// Whether a block stores from position `start` on.
pub open spec fn stores_from(cfg: &SsaCfg, b: usize, start: int) -> bool {
    exists|k: int| start <= k < cfg.blocks@[b as int].instructions.len() && 0 <= k
        && (#[trigger] cfg.blocks@[b as int].instructions@[k]@) is StorageStore
}

/// Whether storage may be written after the instruction at `idx` of block
/// `b`: later in that block, or anywhere in a block control can reach from
/// it through at least one edge (`b` itself too, through a back edge).
pub open spec fn store_after(cfg: &SsaCfg, b: usize, idx: int) -> bool {
    ||| stores_from(cfg, b, idx + 1)
    ||| exists|t: usize| #[trigger] reaches(cfg, b, t) && stores_from(cfg, t, 0)
}

/// Whether an error reports a write after the call at `call_point`.
pub open spec fn reports_write_after(cfg: &SsaCfg, e: MerakError, call_point: SourceRef) -> bool {
    e matches MerakError::StorageAccessAfterExternalCall { operation, location_name, access_point, call_point: cp }
        && operation@ == "write"@ && cp == call_point
        && exists|b: int, k: int| 0 <= b < cfg.blocks.len() && 0 <= k < cfg.blocks@[b].instructions.len()
            && (#[trigger] cfg.blocks@[b].instructions@[k]@) is StorageStore
            && access_point == cfg.blocks@[b].instructions@[k]@->StorageStore_2
            && location_name@ == symbol_label(cfg.blocks@[b].instructions@[k]@->StorageStore_0)
}

/// The successors still owed by the unvisited blocks.
pub open spec fn owed(cfg: &SsaCfg, v: Seq<bool>, n: nat) -> nat
    decreases n,
{
    if n == 0 {
        0
    } else {
        owed(cfg, v, (n - 1) as nat) + if v[n - 1] {
            0nat
        } else {
            cfg.blocks@[n - 1].successors@.len()
        }
    }
}

pub proof fn lemma_owed_mark(cfg: &SsaCfg, v: Seq<bool>, n: nat, b: int)
    requires
        0 <= b < n,
        n <= v.len(),
        !v[b],
    ensures
        owed(cfg, v.update(b, true), n) + cfg.blocks@[b].successors@.len() == owed(cfg, v, n),
    decreases n,
{
    if b < n - 1 {
        lemma_owed_mark(cfg, v, (n - 1) as nat, b);
    } else {
        lemma_owed_same(cfg, v, v.update(b, true), (n - 1) as nat);
    }
}

pub proof fn lemma_owed_same(cfg: &SsaCfg, v: Seq<bool>, w: Seq<bool>, n: nat)
    requires
        n <= v.len(),
        n <= w.len(),
        forall|k: int| 0 <= k < n ==> #[trigger] v[k] == w[k],
    ensures
        owed(cfg, w, n) == owed(cfg, v, n),
    decreases n,
{
    if n > 0 {
        lemma_owed_same(cfg, v, w, (n - 1) as nat);
    }
}

/// A set of blocks that holds each successor of its blocks holds every
/// block along a path from one of them.
pub proof fn lemma_closed_holds_path(cfg: &SsaCfg, v: Seq<bool>, p: Seq<usize>)
    requires
        v.len() == cfg.blocks.len(),
        is_succ_path(cfg, p),
        v[p[0] as int],
        forall|c: int, q: int| 0 <= c < v.len() && v[c] && 0 <= q < cfg.blocks@[c].successors.len()
            ==> v[#[trigger] cfg.blocks@[c].successors@[q] as int],
    ensures
        v[p.last() as int],
    decreases p.len(),
{
    if p.len() > 1 {
        let p2 = p.drop_last();
        assert forall|i: int| 0 <= i < p2.len() - 1 implies cfg.blocks@[#[trigger] p2[i] as int].successors@.contains(p2[i + 1]) by {
            assert(p2[i] == p[i]);
            assert(p2[i + 1] == p[i + 1]);
        }
        assert(is_succ_path(cfg, p2));
        lemma_closed_holds_path(cfg, v, p2);
        let c = p[p.len() - 2];
        assert(cfg.blocks@[c as int].successors@.contains(p.last()));
        let q = choose|q: int| 0 <= q < cfg.blocks@[c as int].successors.len() && cfg.blocks@[c as int].successors@[q] == p.last();
        assert(v[cfg.blocks@[c as int].successors@[q] as int]);
    }
}

/// The first store of a block from position `start` on.
fn find_store(cfg: &SsaCfg, b: usize, start: usize) -> (r: Option<usize>)
    requires
        b < cfg.blocks.len(),
    ensures
        match r {
            Some(k) => start <= k < cfg.blocks@[b as int].instructions.len() && cfg.blocks@[b as int].instructions@[k as int]@ is StorageStore,
            None => !stores_from(cfg, b, start as int),
        },
{
    let block = &cfg.blocks[b];
    let mut k: usize = start;
    while k < block.instructions.len()
        invariant
            start <= k,
            b < cfg.blocks.len(),
            *block == cfg.blocks@[b as int],
            forall|j: int| start <= j < k ==> !((#[trigger] block.instructions@[j]@) is StorageStore),
        decreases block.instructions.len() - k,
    {
        match &block.instructions[k] {
            SsaInstruction::StorageStore { .. } => return Some(k),
            _ => {},
        }
        k = k + 1;
    }
    None
}

fn write_after_call_error(cfg: &SsaCfg, b: usize, k: usize, call_source_ref: SourceRef) -> (r: MerakError)
    requires
        b < cfg.blocks.len(),
        k < cfg.blocks@[b as int].instructions.len(),
        cfg.blocks@[b as int].instructions@[k as int]@ is StorageStore,
    ensures
        reports_write_after(cfg, r, call_source_ref),
{
    proof {
        reveal_strlit("write");
    }
    match &cfg.blocks[b].instructions[k] {
        SsaInstruction::StorageStore { var, source_ref, .. } => MerakError::StorageAccessAfterExternalCall {
            operation: String::from_str("write"),
            location_name: symbol_label_string(var),
            access_point: *source_ref,
            call_point: call_source_ref,
        },
        _ => vstd::pervasive::unreached(),
    }
}

/// Looks for a store after a call: in the call's block after the call,
/// then, once each, in every block control can reach from there.
fn check_no_stores_after_call(cfg: &SsaCfg, block_id: usize, call_instruction_index: usize, call_source_ref: &SourceRef) -> (r: Result<(), MerakError>)
    requires
        cfg.well_formed(),
        block_id < cfg.blocks.len(),
        call_instruction_index < cfg.blocks@[block_id as int].instructions.len(),
    ensures
        r is Ok <==> !store_after(cfg, block_id, call_instruction_index as int),
        r is Err ==> reports_write_after(cfg, r->Err_0, *call_source_ref),
{
    let n = cfg.blocks.len();
    let mut visited: Vec<bool> = unmarked(n);
    if let Some(k) = find_store(cfg, block_id, call_instruction_index + 1) {
        return Err(write_after_call_error(cfg, block_id, k, *call_source_ref));
    }
    proof {
        assert(cfg.blocks@[block_id as int].edges_within(n as nat));
    }
    let mut worklist: Vec<usize> = Vec::new();
    let first = &cfg.blocks[block_id];
    let mut q: usize = 0;
    while q < first.successors.len()
        invariant
            q <= first.successors.len(),
            *first == cfg.blocks@[block_id as int],
            first.edges_within(n as nat),
            worklist@ == first.successors@.take(q as int),
        decreases first.successors.len() - q,
    {
        worklist.push(first.successors[q]);
        proof {
            assert(first.successors@.take(q + 1) =~= first.successors@.take(q as int).push(first.successors@[q as int]));
        }
        q = q + 1;
    }
    proof {
        assert(first.successors@.take(first.successors.len() as int) =~= first.successors@);
        assert forall|j: int| 0 <= j < worklist.len() implies #[trigger] reaches(cfg, block_id, worklist@[j]) by {
            let p = seq![block_id, worklist@[j]];
            assert(first.successors@[j] == worklist@[j]);
            assert(first.successors@.contains(worklist@[j]));
            assert(is_succ_path(cfg, p));
        }
        assert forall|q: int| 0 <= q < cfg.blocks@[block_id as int].successors.len()
            implies visited@[#[trigger] cfg.blocks@[block_id as int].successors@[q] as int] || worklist@.contains(cfg.blocks@[block_id as int].successors@[q]) by {
            assert(worklist@[q] == cfg.blocks@[block_id as int].successors@[q]);
        }
    }
    while worklist.len() > 0
        invariant
            n == cfg.blocks.len(),
            cfg.well_formed(),
            block_id < n,
            visited.len() == n,
            !stores_from(cfg, block_id, call_instruction_index + 1),
            forall|j: int| 0 <= j < worklist.len() ==> #[trigger] worklist@[j] < n,
            forall|j: int| 0 <= j < worklist.len() ==> #[trigger] reaches(cfg, block_id, worklist@[j]),
            forall|c: int| 0 <= c < n && #[trigger] visited@[c] ==> reaches(cfg, block_id, c as usize) && !stores_from(cfg, c as usize, 0),
            forall|q: int| 0 <= q < cfg.blocks@[block_id as int].successors.len()
                ==> visited@[#[trigger] cfg.blocks@[block_id as int].successors@[q] as int] || worklist@.contains(cfg.blocks@[block_id as int].successors@[q]),
            forall|c: int, q: int| 0 <= c < n && visited@[c] && 0 <= q < cfg.blocks@[c].successors.len()
                ==> visited@[#[trigger] cfg.blocks@[c].successors@[q] as int] || worklist@.contains(cfg.blocks@[c].successors@[q]),
        decreases owed(cfg, visited@, n as nat) + worklist.len(),
    {
        let ghost w0 = worklist@;
        let current = worklist.pop().unwrap();
        proof {
            assert(w0.last() == current);
            assert(w0.drop_last() == worklist@);
            assert(reaches(cfg, block_id, current));
        }
        if !visited[current] {
            if let Some(k) = find_store(cfg, current, 0) {
                return Err(write_after_call_error(cfg, current, k, *call_source_ref));
            }
            let ghost v1 = visited@;
            visited.set(current, true);
            proof {
                lemma_owed_mark(cfg, v1, n as nat, current as int);
                assert(cfg.blocks@[current as int].edges_within(n as nat));
            }
            let block = &cfg.blocks[current];
            let ghost w1 = worklist@;
            let mut q: usize = 0;
            while q < block.successors.len()
                invariant
                    q <= block.successors.len(),
                    *block == cfg.blocks@[current as int],
                    block.edges_within(n as nat),
                    worklist@ == w1 + block.successors@.take(q as int),
                decreases block.successors.len() - q,
            {
                worklist.push(block.successors[q]);
                proof {
                    assert(block.successors@.take(q + 1) =~= block.successors@.take(q as int).push(block.successors@[q as int]));
                }
                q = q + 1;
            }
            proof {
                assert(block.successors@.take(block.successors.len() as int) =~= block.successors@);
                assert forall|j: int| 0 <= j < worklist.len() implies #[trigger] worklist@[j] < n && reaches(cfg, block_id, worklist@[j]) by {
                    if j < w1.len() {
                        assert(worklist@[j] == w1[j]);
                        assert(w1[j] == w0[j]);
                    } else {
                        let s = worklist@[j];
                        assert(s == block.successors@[j - w1.len()]);
                        assert(block.successors@.contains(s));
                        let p = choose|p: Seq<usize>| #[trigger] is_succ_path(cfg, p) && p.len() >= 2 && p[0] == block_id && p.last() == current;
                        let p2 = p.push(s);
                        assert forall|i: int| 0 <= i < p2.len() - 1 implies cfg.blocks@[#[trigger] p2[i] as int].successors@.contains(p2[i + 1]) by {
                            if i < p.len() - 1 {
                                assert(p2[i] == p[i]);
                                assert(p2[i + 1] == p[i + 1]);
                            }
                        }
                        assert(is_succ_path(cfg, p2));
                    }
                }
                assert forall|c: int, qq: int| 0 <= c < n && visited@[c] && 0 <= qq < cfg.blocks@[c].successors.len()
                    implies visited@[#[trigger] cfg.blocks@[c].successors@[qq] as int] || worklist@.contains(cfg.blocks@[c].successors@[qq]) by {
                    let s = cfg.blocks@[c].successors@[qq];
                    assert(cfg.blocks@[c].edges_within(n as nat));
                    if c == current {
                        assert(worklist@[w1.len() + qq] == s);
                    } else {
                        assert(v1[c]);
                        if !v1[s as int] && s != current {
                            assert(w0.contains(s));
                            let j = choose|j: int| 0 <= j < w0.len() && w0[j] == s;
                            if j == w0.len() - 1 {
                                assert(w0[j] == current);
                            }
                            assert(j < w1.len());
                            assert(worklist@[j] == s);
                        }
                    }
                }
                assert forall|qq: int| 0 <= qq < cfg.blocks@[block_id as int].successors.len()
                    implies visited@[#[trigger] cfg.blocks@[block_id as int].successors@[qq] as int] || worklist@.contains(cfg.blocks@[block_id as int].successors@[qq]) by {
                    let s = cfg.blocks@[block_id as int].successors@[qq];
                    assert(cfg.blocks@[block_id as int].edges_within(n as nat));
                    if !v1[s as int] && s != current {
                        assert(w0.contains(s));
                        let j = choose|j: int| 0 <= j < w0.len() && w0[j] == s;
                        if j == w0.len() - 1 {
                            assert(w0[j] == current);
                        }
                        assert(j < w1.len());
                        assert(worklist@[j] == s);
                    }
                }
            }
        } else {
            proof {
                assert forall|c: int, qq: int| 0 <= c < n && visited@[c] && 0 <= qq < cfg.blocks@[c].successors.len()
                    implies visited@[#[trigger] cfg.blocks@[c].successors@[qq] as int] || worklist@.contains(cfg.blocks@[c].successors@[qq]) by {
                    let s = cfg.blocks@[c].successors@[qq];
                    assert(cfg.blocks@[c].edges_within(n as nat));
                    if !visited@[s as int] {
                        assert(w0.contains(s));
                        let j = choose|j: int| 0 <= j < w0.len() && w0[j] == s;
                        if j == w0.len() - 1 {
                            assert(s == current);
                        } else {
                            assert(worklist@[j] == s);
                        }
                    }
                }
                assert forall|qq: int| 0 <= qq < cfg.blocks@[block_id as int].successors.len()
                    implies visited@[#[trigger] cfg.blocks@[block_id as int].successors@[qq] as int] || worklist@.contains(cfg.blocks@[block_id as int].successors@[qq]) by {
                    let s = cfg.blocks@[block_id as int].successors@[qq];
                    assert(cfg.blocks@[block_id as int].edges_within(n as nat));
                    if !visited@[s as int] {
                        assert(w0.contains(s));
                        let j = choose|j: int| 0 <= j < w0.len() && w0[j] == s;
                        if j == w0.len() - 1 {
                            assert(s == current);
                        } else {
                            assert(worklist@[j] == s);
                        }
                    }
                }
            }
        }
    }
    proof {
        assert forall|t: usize| #[trigger] reaches(cfg, block_id, t) implies !stores_from(cfg, t, 0) by {
            let p = choose|p: Seq<usize>| #[trigger] is_succ_path(cfg, p) && p.len() >= 2 && p[0] == block_id && p.last() == t;
            let p1 = p.subrange(1, p.len() as int);
            assert(cfg.blocks@[p[0] as int].successors@.contains(p[1]));
            let q = choose|q: int| 0 <= q < cfg.blocks@[block_id as int].successors.len() && cfg.blocks@[block_id as int].successors@[q] == p[1];
            assert(visited@[cfg.blocks@[block_id as int].successors@[q] as int]);
            assert forall|i: int| 0 <= i < p1.len() - 1 implies cfg.blocks@[#[trigger] p1[i] as int].successors@.contains(p1[i + 1]) by {
                assert(p1[i] == p[i + 1]);
                assert(p1[i + 1] == p[i + 2]);
            }
            assert(is_succ_path(cfg, p1));
            assert(p1.last() == t);
            lemma_closed_holds_path(cfg, visited@, p1);
        }
    }
    Ok(())
}

/// The function's calls after which storage is checked not to be
/// written: external calls, and internal calls to reentrant functions.
pub open spec fn cei_call(i: InstrV, t: &SymbolTable) -> bool {
    ||| is_external_call(i)
    ||| internal_callee(i) is Some && reentrancy_of(t, internal_callee(i)->0) == Modifier::Reentrant
}

pub open spec fn call_point(i: InstrV) -> SourceRef {
    match i {
        InstrV::Call(_, _, _, sr) => sr,
        _ => crate::refinements::qualifiers::unknown_ref(),
    }
}

/// For a function marked checked (the default): no storage write may
/// follow, along any path, an external call or a call to a reentrant
/// function. Other functions are not checked.
pub fn validate_cei_pattern(cfg: &SsaCfg, symbol_table: &SymbolTable) -> (r: Result<(), MerakError>)
    requires
        cfg.well_formed(),
        is_function_symbol(symbol_table, cfg.function_id@),
        cfg_callees_known(symbol_table, cfg),
    ensures
        reentrancy_of(symbol_table, cfg.function_id@) != Modifier::Checked ==> r is Ok,
        reentrancy_of(symbol_table, cfg.function_id@) == Modifier::Checked ==> (r is Ok <==> forall|b: int, k: int|
            0 <= b < cfg.blocks.len() && 0 <= k < cfg.blocks@[b].instructions.len() && #[trigger] cei_call(cfg.blocks@[b].instructions@[k]@, symbol_table)
            ==> !store_after(cfg, b as usize, k)),
        r is Err ==> exists|b: int, k: int| 0 <= b < cfg.blocks.len() && 0 <= k < cfg.blocks@[b].instructions.len()
            && #[trigger] cei_call(cfg.blocks@[b].instructions@[k]@, symbol_table)
            && reports_write_after(cfg, r->Err_0, call_point(cfg.blocks@[b].instructions@[k]@)),
{
    let reentrancy = get_reentrancy_modifier(&cfg.function_id, symbol_table);
    if reentrancy != Modifier::Checked {
        return Ok(());
    }
    let mut b: usize = 0;
    while b < cfg.blocks.len()
        invariant
            b <= cfg.blocks.len(),
            cfg.well_formed(),
            reentrancy_of(symbol_table, cfg.function_id@) == Modifier::Checked,
            cfg_callees_known(symbol_table, cfg),
            forall|bb: int, k: int| 0 <= bb < b && 0 <= k < cfg.blocks@[bb].instructions.len()
                && #[trigger] cei_call(cfg.blocks@[bb].instructions@[k]@, symbol_table) ==> !store_after(cfg, bb as usize, k),
        decreases cfg.blocks.len() - b,
    {
        let block = &cfg.blocks[b];
        let mut idx: usize = 0;
        while idx < block.instructions.len()
            invariant
                idx <= block.instructions.len(),
                b < cfg.blocks.len(),
                *block == cfg.blocks@[b as int],
                cfg.well_formed(),
                reentrancy_of(symbol_table, cfg.function_id@) == Modifier::Checked,
                cfg_callees_known(symbol_table, cfg),
                forall|bb: int, k: int| 0 <= bb < b && 0 <= k < cfg.blocks@[bb].instructions.len()
                    && #[trigger] cei_call(cfg.blocks@[bb].instructions@[k]@, symbol_table) ==> !store_after(cfg, bb as usize, k),
                forall|k: int| 0 <= k < idx && #[trigger] cei_call(block.instructions@[k]@, symbol_table) ==> !store_after(cfg, b, k),
            decreases block.instructions.len() - idx,
        {
            let checked = match &block.instructions[idx] {
                SsaInstruction::Call { target: CallTarget::External { .. }, source_ref, .. } => Some(*source_ref),
                SsaInstruction::Call { target: CallTarget::Internal(fn_id), source_ref, .. } => {
                    proof {
                        assert(callees_known(symbol_table, instr_views(cfg.blocks@[b as int].instructions@)));
                        assert(instr_views(cfg.blocks@[b as int].instructions@)[idx as int] == block.instructions@[idx as int]@);
                    }
                    if get_reentrancy_modifier(fn_id, symbol_table) == Modifier::Reentrant {
                        Some(*source_ref)
                    } else {
                        None
                    }
                },
                _ => None,
            };
            proof {
                assert(checked is Some <==> cei_call(block.instructions@[idx as int]@, symbol_table));
                assert(checked is Some ==> checked->0 == call_point(block.instructions@[idx as int]@));
            }
            if let Some(sr) = checked {
                match check_no_stores_after_call(cfg, b, idx, &sr) {
                    Ok(()) => {},
                    Err(e) => {
                        proof {
                            assert(cei_call(cfg.blocks@[b as int].instructions@[idx as int]@, symbol_table));
                        }
                        return Err(e);
                    },
                }
            }
            idx = idx + 1;
        }
        b = b + 1;
    }
    Ok(())
}

/// Whether every store of a function writes a known location.
pub open spec fn stores_located(cfg: &SsaCfg, locs: Seq<StorageLocation>) -> bool {
    forall|b: int, k: int| 0 <= b < cfg.blocks.len() && 0 <= k < cfg.blocks@[b].instructions.len()
        && (#[trigger] cfg.blocks@[b].instructions@[k]@) is StorageStore
        ==> location_index(locs, cfg.blocks@[b].instructions@[k]@->StorageStore_0) is Some
}

/// Whether an instruction stores to an immutable location.
pub open spec fn writes_immutable(i: InstrV, locs: Seq<StorageLocation>) -> bool {
    i is StorageStore && location_index(locs, i->StorageStore_0) is Some
        && locs[location_index(locs, i->StorageStore_0)->0].mutability == StorageMutability::Immutable
}

/// No store may write a constant.
pub fn validate_immutability(cfg: &SsaCfg, locations: &StorageLocationSet) -> (r: Result<(), MerakError>)
    requires
        stores_located(cfg, locations.locations@),
    ensures
        r is Ok <==> forall|b: int, k: int| 0 <= b < cfg.blocks.len() && 0 <= k < cfg.blocks@[b].instructions.len()
            ==> !writes_immutable(#[trigger] cfg.blocks@[b].instructions@[k]@, locations.locations@),
        r is Err ==> exists|b: int, k: int| 0 <= b < cfg.blocks.len() && 0 <= k < cfg.blocks@[b].instructions.len()
            && writes_immutable(#[trigger] cfg.blocks@[b].instructions@[k]@, locations.locations@)
            && r->Err_0 == (MerakError::WriteToImmutable {
                location_name: locations.locations@[location_index(locations.locations@, cfg.blocks@[b].instructions@[k]@->StorageStore_0)->0].var_name,
                write_point: cfg.blocks@[b].instructions@[k]@->StorageStore_2,
            }),
{
    let mut b: usize = 0;
    while b < cfg.blocks.len()
        invariant
            b <= cfg.blocks.len(),
            stores_located(cfg, locations.locations@),
            forall|bb: int, k: int| 0 <= bb < b && 0 <= k < cfg.blocks@[bb].instructions.len()
                ==> !writes_immutable(#[trigger] cfg.blocks@[bb].instructions@[k]@, locations.locations@),
        decreases cfg.blocks.len() - b,
    {
        let block = &cfg.blocks[b];
        let mut k: usize = 0;
        while k < block.instructions.len()
            invariant
                k <= block.instructions.len(),
                b < cfg.blocks.len(),
                *block == cfg.blocks@[b as int],
                stores_located(cfg, locations.locations@),
                forall|bb: int, kk: int| 0 <= bb < b && 0 <= kk < cfg.blocks@[bb].instructions.len()
                    ==> !writes_immutable(#[trigger] cfg.blocks@[bb].instructions@[kk]@, locations.locations@),
                forall|kk: int| 0 <= kk < k ==> !writes_immutable(#[trigger] block.instructions@[kk]@, locations.locations@),
            decreases block.instructions.len() - k,
        {
            if let SsaInstruction::StorageStore { var, source_ref, .. } = &block.instructions[k] {
                proof {
                    assert(cfg.blocks@[b as int].instructions@[k as int]@ is StorageStore);
                    lemma_location_index(locations.locations@, var@);
                }
                let location = match locations.get(var) {
                    Some(l) => l,
                    None => vstd::pervasive::unreached(),
                };
                if !location.mutability.is_mutable() {
                    let e = MerakError::WriteToImmutable { location_name: location.var_name.clone(), write_point: *source_ref };
                    proof {
                        assert(writes_immutable(cfg.blocks@[b as int].instructions@[k as int]@, locations.locations@));
                    }
                    return Err(e);
                }
            }
            k = k + 1;
        }
        b = b + 1;
    }
    Ok(())
}

// ---------------------------------------------------------------------------
// The analysis of a function
// ---------------------------------------------------------------------------

/// The symbol the symbol table gives to a node: that of its first entry.
pub open spec fn declared_symbol(t: &SymbolTable, node: NodeId) -> SymbolIdV {
    t.symbols@[choose|i: int| 0 <= i < t.symbols.len() && (#[trigger] t.symbols@[i]).1.node_id == node
        && (forall|j: int| 0 <= j < i ==> (#[trigger] t.symbols@[j]).1.node_id != node)].0@
}

pub proof fn lemma_location_for_symbol(t: &SymbolTable, node: NodeId, l: StorageLocation, m: StorageMutability)
    requires
        location_for(t, node, l, m),
    ensures
        l.symbol@ == declared_symbol(t, node),
{
    let i = choose|i: int| 0 <= i < t.symbols.len() && (#[trigger] t.symbols@[i]).1.node_id == node
        && (forall|j: int| 0 <= j < i ==> (#[trigger] t.symbols@[j]).1.node_id != node)
        && l.symbol@ == t.symbols@[i].0@
        && t.symbols@[i].1.ty is Some && l.refined_type@ == t.symbols@[i].1.ty->0@
        && l.mutability == m
        && l.var_name@ == join_path(strings_view(t.symbols@[i].1.qualified_name@));
    let c = choose|c: int| 0 <= c < t.symbols.len() && (#[trigger] t.symbols@[c]).1.node_id == node
        && (forall|j: int| 0 <= j < c ==> (#[trigger] t.symbols@[j]).1.node_id != node);
    if c < i {
        assert(t.symbols@[c].1.node_id != node);
    }
    if i < c {
        assert(t.symbols@[i].1.node_id != node);
    }
}

/// `location_index` gives the last location of the symbol.
pub proof fn lemma_location_index_last(v: Seq<StorageLocation>, s: SymbolIdV, j: int)
    requires
        location_index(v, s) is Some,
        location_index(v, s)->0 < j < v.len(),
    ensures
        v[j].symbol@ != s,
    decreases v.len(),
{
    lemma_location_index(v, s);
    if v.last().symbol@ != s {
        if j < v.len() - 1 {
            assert(v.drop_last()[j] == v[j]);
            lemma_location_index_last(v.drop_last(), s, j);
        }
    }
}

/// Whether every block of a rewritten function folds and unfolds as the
/// storage rules ask, starting with everything folded, for a set `ext` of
/// functions that may call out (every function that calls out directly is
/// in it, and each in it reaches such a call) and the contract's storage
/// locations `locs` (its variables, mutable, then its constants).
pub open spec fn folds_placed(cfg: &SsaCfg, contract: &SsaContract, t: &SymbolTable, ext: Set<SymbolIdV>, locs: Seq<StorageLocation>) -> bool {
    &&& (forall|i: int| #[trigger] is_first_fn(contract, contract.functions@[i].function_id@, i) && has_external_call(
        contract.functions@[i],
    ) ==> ext.contains(contract.functions@[i].function_id@))
    &&& (forall|x: SymbolIdV| #[trigger] ext.contains(x) ==> exists|i: int| #[trigger] is_first_fn(contract, x, i) && reaches_external(contract, i))
    &&& locs.len() == contract.variables.len() + contract.constants.len()
    &&& (forall|k: int| 0 <= k < contract.variables.len() ==> location_for(t, (#[trigger] contract.variables@[k]).id, locs[k], StorageMutability::Mutable))
    &&& (forall|k: int| 0 <= k < contract.constants.len() ==> location_for(
        t,
        (#[trigger] contract.constants@[k]).id,
        locs[contract.variables.len() + k],
        StorageMutability::Immutable,
    ))
    &&& forall|b: int| 0 <= b < cfg.blocks.len() ==> block_folds_ok(
        Set::<SymbolIdV>::empty(),
        instr_views(#[trigger] cfg.blocks@[b].instructions@),
        t,
        ext,
        locs,
    )
}

/// Whether no block of a function holds a fold or an unfold yet.
pub open spec fn no_folds_anywhere(cfg: &SsaCfg) -> bool {
    forall|b: int| 0 <= b < cfg.blocks.len() ==> no_folds(instr_views(#[trigger] cfg.blocks@[b].instructions@))
}

/// Whether an instruction writes one of the contract's constants.
pub open spec fn store_to_constant(i: InstrV, contract: &SsaContract, t: &SymbolTable) -> bool {
    i is StorageStore && exists|q: int| 0 <= q < contract.constants.len() && declared_symbol(t, (#[trigger] contract.constants@[q]).id)
        == i->StorageStore_0
}

/// Over the locations of a contract (variables, then constants), a store
/// writes an immutable location exactly when it writes a constant.
pub proof fn lemma_writes_constant(locs: Seq<StorageLocation>, contract: &SsaContract, t: &SymbolTable, i: InstrV)
    requires
        locs.len() == contract.variables.len() + contract.constants.len(),
        forall|k: int| 0 <= k < contract.variables.len() ==> location_for(t, (#[trigger] contract.variables@[k]).id, locs[k], StorageMutability::Mutable),
        forall|k: int| 0 <= k < contract.constants.len() ==> location_for(
            t,
            (#[trigger] contract.constants@[k]).id,
            locs[contract.variables.len() + k],
            StorageMutability::Immutable,
        ),
        i is StorageStore ==> location_index(locs, i->StorageStore_0) is Some,
    ensures
        writes_immutable(i, locs) <==> store_to_constant(i, contract, t),
{
    let nv = contract.variables.len() as int;
    if i is StorageStore {
        let var = i->StorageStore_0;
        lemma_location_index(locs, var);
        let idx = location_index(locs, var)->0;
        if writes_immutable(i, locs) {
            if idx < nv {
                assert(location_for(t, contract.variables@[idx].id, locs[idx], StorageMutability::Mutable));
            }
            let q = idx - nv;
            assert(location_for(t, contract.constants@[q].id, locs[nv + q], StorageMutability::Immutable));
            lemma_location_for_symbol(t, contract.constants@[q].id, locs[nv + q], StorageMutability::Immutable);
            assert(declared_symbol(t, contract.constants@[q].id) == var);
        }
        if store_to_constant(i, contract, t) {
            let q = choose|q: int| 0 <= q < contract.constants.len() && declared_symbol(t, (#[trigger] contract.constants@[q]).id) == var;
            assert(location_for(t, contract.constants@[q].id, locs[nv + q], StorageMutability::Immutable));
            lemma_location_for_symbol(t, contract.constants@[q].id, locs[nv + q], StorageMutability::Immutable);
            if idx < nv + q {
                lemma_location_index_last(locs, var, nv + q);
            }
            if idx < nv {
                assert(false);
            }
            let q2 = idx - nv;
            assert(location_for(t, contract.constants@[q2].id, locs[nv + q2], StorageMutability::Immutable));
        }
    }
}

pub proof fn lemma_location_index_some(v: Seq<StorageLocation>, j: int, s: SymbolIdV)
    requires
        0 <= j < v.len(),
        v[j].symbol@ == s,
    ensures
        location_index(v, s) is Some,
    decreases v.len(),
{
    if v.last().symbol@ != s {
        assert(j < v.len() - 1);
        assert(v.drop_last()[j] == v[j]);
        lemma_location_index_some(v.drop_last(), j, s);
    }
}

/// Whether every store of a function writes a declared state variable or
/// constant of the contract.
pub open spec fn stores_declared(cfg: &SsaCfg, contract: &SsaContract, t: &SymbolTable) -> bool {
    forall|b: int, k: int| 0 <= b < cfg.blocks.len() && 0 <= k < cfg.blocks@[b].instructions.len()
        && (#[trigger] cfg.blocks@[b].instructions@[k]@) is StorageStore ==> {
            let var = cfg.blocks@[b].instructions@[k]@->StorageStore_0;
            ||| exists|q: int| 0 <= q < contract.variables.len() && declared_symbol(t, (#[trigger] contract.variables@[q]).id) == var
            ||| exists|q: int| 0 <= q < contract.constants.len() && declared_symbol(t, (#[trigger] contract.constants@[q]).id) == var
        }
}

pub proof fn lemma_erase_contains(s: Seq<InstrV>)
    ensures
        forall|k: int| 0 <= k < s.len() && !is_fold_like(#[trigger] s[k]) ==> erase_folds(s).contains(s[k]),
        forall|x: InstrV| #[trigger] erase_folds(s).contains(x) ==> exists|k: int| 0 <= k < s.len() && s[k] == x,
    decreases s.len(),
{
    if s.len() > 0 {
        let t = s.drop_last();
        lemma_erase_contains(t);
        assert forall|k: int| 0 <= k < s.len() && !is_fold_like(#[trigger] s[k]) implies erase_folds(s).contains(s[k]) by {
            if k < t.len() {
                assert(t[k] == s[k]);
                assert(erase_folds(t).contains(s[k]));
                let j = choose|j: int| 0 <= j < erase_folds(t).len() && erase_folds(t)[j] == s[k];
                if !is_fold_like(s.last()) {
                    assert(erase_folds(s)[j] == s[k]);
                }
            } else {
                assert(erase_folds(s)[erase_folds(t).len() as int] == s[k]);
            }
        }
        assert forall|x: InstrV| #[trigger] erase_folds(s).contains(x) implies exists|k: int| 0 <= k < s.len() && s[k] == x by {
            let j = choose|j: int| 0 <= j < erase_folds(s).len() && erase_folds(s)[j] == x;
            if j < erase_folds(t).len() {
                assert(erase_folds(t)[j] == x);
                assert(erase_folds(t).contains(x));
                let k = choose|k: int| 0 <= k < t.len() && t[k] == x;
                assert(s[k] == x);
            } else {
                assert(s[s.len() - 1] == x);
            }
        }
    }
}

/// Rewriting that only puts folds and unfolds in keeps what the checks
/// need: well-formed edges, known callees, declared stores, and the
/// operands that stand as predicates.
pub proof fn lemma_rewrite_keeps(a: &SsaCfg, b: &SsaCfg, contract: &SsaContract, t: &SymbolTable)
    requires
        same_but_instructions(a, b),
        forall|k: int| 0 <= k < a.blocks.len() ==> erase_folds(instr_views(#[trigger] b.blocks@[k].instructions@))
            == erase_folds(instr_views(a.blocks@[k].instructions@)),
    ensures
        a.well_formed() ==> b.well_formed(),
        cfg_callees_known(t, a) ==> cfg_callees_known(t, b),
        stores_declared(a, contract, t) ==> stores_declared(b, contract, t),
        crate::refinements::inference::cfg_ok(a) ==> crate::refinements::inference::cfg_ok(b),
{
    assert forall|k: int| 0 <= k < b.blocks.len() implies #[trigger] b.blocks@[k].edges_within(b.blocks.len() as nat)
        == a.blocks@[k].edges_within(a.blocks.len() as nat) by {
        assert(a.blocks@[k].terminator == b.blocks@[k].terminator);
    }
    assert forall|bb: int, k: int| 0 <= bb < b.blocks.len() && 0 <= k < b.blocks@[bb].instructions.len()
        && !is_fold_like(#[trigger] b.blocks@[bb].instructions@[k]@)
        implies exists|k2: int| 0 <= k2 < a.blocks@[bb].instructions.len() && a.blocks@[bb].instructions@[k2]@ == b.blocks@[bb].instructions@[k]@ by {
        let sb = instr_views(b.blocks@[bb].instructions@);
        let sa = instr_views(a.blocks@[bb].instructions@);
        lemma_erase_contains(sb);
        lemma_erase_contains(sa);
        assert(sb[k] == b.blocks@[bb].instructions@[k]@);
        assert(erase_folds(sb).contains(sb[k]));
        let k2 = choose|k2: int| 0 <= k2 < sa.len() && sa[k2] == sb[k];
        assert(a.blocks@[bb].instructions@[k2]@ == sa[k2]);
    }
    if cfg_callees_known(t, a) {
        assert forall|bb: int| 0 <= bb < b.blocks.len() implies callees_known(t, instr_views(#[trigger] b.blocks@[bb].instructions@)) by {
            let sb = instr_views(b.blocks@[bb].instructions@);
            assert forall|k: int| 0 <= k < sb.len() && (#[trigger] internal_callee(sb[k])) is Some implies is_function_symbol(t, internal_callee(sb[k])->0) by {
                assert(sb[k] == b.blocks@[bb].instructions@[k]@);
                assert(!is_fold_like(b.blocks@[bb].instructions@[k]@));
                let k2 = choose|k2: int| 0 <= k2 < a.blocks@[bb].instructions.len() && a.blocks@[bb].instructions@[k2]@ == b.blocks@[bb].instructions@[k]@;
                assert(callees_known(t, instr_views(a.blocks@[bb].instructions@)));
                assert(instr_views(a.blocks@[bb].instructions@)[k2] == a.blocks@[bb].instructions@[k2]@);
            }
        }
    }
    if stores_declared(a, contract, t) {
        assert forall|bb: int, k: int| 0 <= bb < b.blocks.len() && 0 <= k < b.blocks@[bb].instructions.len()
            && (#[trigger] b.blocks@[bb].instructions@[k]@) is StorageStore implies {
                let var = b.blocks@[bb].instructions@[k]@->StorageStore_0;
                ||| exists|q: int| 0 <= q < contract.variables.len() && declared_symbol(t, (#[trigger] contract.variables@[q]).id) == var
                ||| exists|q: int| 0 <= q < contract.constants.len() && declared_symbol(t, (#[trigger] contract.constants@[q]).id) == var
            } by {
            assert(!is_fold_like(b.blocks@[bb].instructions@[k]@));
            let k2 = choose|k2: int| 0 <= k2 < a.blocks@[bb].instructions.len() && a.blocks@[bb].instructions@[k2]@ == b.blocks@[bb].instructions@[k]@;
            assert(a.blocks@[bb].instructions@[k2]@ is StorageStore);
        }
    }
    if crate::refinements::inference::cfg_ok(a) {
        assert forall|bb: int, k: int| 0 <= bb < b.blocks.len() && 0 <= k < b.blocks@[bb].instructions.len()
            implies #[trigger] crate::refinements::inference::instr_predicates_ok(b.blocks@[bb].instructions@[k]@) by {
            let sa = instr_views(a.blocks@[bb].instructions@);
            let sb = instr_views(b.blocks@[bb].instructions@);
            lemma_erase_folds_ok(sa);
            lemma_erase_folds_ok(sb);
            assert forall|j: int| 0 <= j < sa.len() implies crate::refinements::inference::instr_predicates_ok(#[trigger] sa[j]) by {
                assert(sa[j] == a.blocks@[bb].instructions@[j]@);
            }
            assert(sb[k] == b.blocks@[bb].instructions@[k]@);
        }
        assert forall|bb: int| 0 <= bb < b.blocks.len() implies #[trigger] crate::refinements::inference::branch_predicate_ok(b.blocks@[bb].terminator) by {
            assert(crate::refinements::inference::branch_predicate_ok(a.blocks@[bb].terminator));
        }
    }
}

/// The storage analysis of a function of a contract: the state of every
/// storage variable is computed per block, folds and unfolds are put in,
/// then the function is checked not to write storage after a call that
/// may let control leave (when it is marked checked) and not to write a
/// constant.
pub fn analyze_storage(contract: &SsaContract, cfg: &mut SsaCfg, symbol_table: &SymbolTable) -> (r: Result<(), MerakError>)
    requires
        forall|k: int| 0 <= k < contract.variables.len() ==> declares_typed(symbol_table, (#[trigger] contract.variables@[k]).id),
        forall|k: int| 0 <= k < contract.constants.len() ==> declares_typed(symbol_table, (#[trigger] contract.constants@[k]).id),
        calls_resolved(contract),
        old(cfg).well_formed(),
        is_function_symbol(symbol_table, old(cfg).function_id@),
        cfg_callees_known(symbol_table, old(cfg)),
        stores_declared(old(cfg), contract, symbol_table),
    ensures
        same_but_instructions(old(cfg), final(cfg)),
        forall|b: int| 0 <= b < old(cfg).blocks.len() ==> erase_folds(instr_views(#[trigger] final(cfg).blocks@[b].instructions@))
            == erase_folds(instr_views(old(cfg).blocks@[b].instructions@)),
        crate::refinements::inference::cfg_ok(old(cfg)) ==> crate::refinements::inference::cfg_ok(final(cfg)),
        r is Ok && reentrancy_of(symbol_table, old(cfg).function_id@) == Modifier::Checked ==> forall|b: int, k: int|
            0 <= b < final(cfg).blocks.len() && 0 <= k < final(cfg).blocks@[b].instructions.len()
            && #[trigger] cei_call(final(cfg).blocks@[b].instructions@[k]@, symbol_table)
            ==> !store_after(final(cfg), b as usize, k),
        no_folds_anywhere(old(cfg)) ==> exists|ext: Set<SymbolIdV>, locs: Seq<StorageLocation>| #[trigger] folds_placed(
            final(cfg),
            contract,
            symbol_table,
            ext,
            locs,
        ),
        r is Ok <==> {
            &&& reentrancy_of(symbol_table, old(cfg).function_id@) == Modifier::Checked ==> forall|b: int, k: int|
                0 <= b < final(cfg).blocks.len() && 0 <= k < final(cfg).blocks@[b].instructions.len()
                && #[trigger] cei_call(final(cfg).blocks@[b].instructions@[k]@, symbol_table)
                ==> !store_after(final(cfg), b as usize, k)
            &&& forall|b: int, k: int| 0 <= b < final(cfg).blocks.len() && 0 <= k < final(cfg).blocks@[b].instructions.len()
                ==> !store_to_constant(#[trigger] final(cfg).blocks@[b].instructions@[k]@, contract, symbol_table)
        },
{
    let locations = StorageLocationSet::from_contract(contract, symbol_table);
    let call_graph = CallGraphAnalysis::analyze(contract);
    let storage_states = match compute_storage_states(cfg, symbol_table, &call_graph) {
        Ok(s) => s,
        Err(e) => return Err(e),
    };
    let ghost before = *cfg;
    insert_fold_unfold_instructions(cfg, &storage_states, &locations, symbol_table, &call_graph);
    proof {
        if no_folds_anywhere(&before) {
            assert forall|b: int| 0 <= b < before.blocks.len() implies block_folds_ok(
                Set::<SymbolIdV>::empty(),
                instr_views(#[trigger] cfg.blocks@[b].instructions@),
                symbol_table,
                call_graph@,
                locations.locations@,
            ) by {
                assert(no_folds(instr_views(before.blocks@[b].instructions@)));
                assert(storage_states.entry_of(b as usize) == Set::<SymbolIdV>::empty());
            }
            assert(folds_placed(cfg, contract, symbol_table, call_graph@, locations.locations@));
        }
    }
    proof {
        lemma_rewrite_keeps(&before, cfg, contract, symbol_table);
    }
    match validate_cei_pattern(cfg, symbol_table) {
        Ok(()) => {},
        Err(e) => return Err(e),
    }
    proof {
        assert forall|b: int, k: int| 0 <= b < cfg.blocks.len() && 0 <= k < cfg.blocks@[b].instructions.len()
            && (#[trigger] cfg.blocks@[b].instructions@[k]@) is StorageStore
            implies location_index(locations.locations@, cfg.blocks@[b].instructions@[k]@->StorageStore_0) is Some by {
            let var = cfg.blocks@[b].instructions@[k]@->StorageStore_0;
            if exists|q: int| 0 <= q < contract.variables.len() && declared_symbol(symbol_table, (#[trigger] contract.variables@[q]).id) == var {
                let q = choose|q: int| 0 <= q < contract.variables.len() && declared_symbol(symbol_table, (#[trigger] contract.variables@[q]).id) == var;
                lemma_location_for_symbol(symbol_table, contract.variables@[q].id, locations.locations@[q], StorageMutability::Mutable);
                lemma_location_index_some(locations.locations@, q, var);
            } else {
                let q = choose|q: int| 0 <= q < contract.constants.len() && declared_symbol(symbol_table, (#[trigger] contract.constants@[q]).id) == var;
                lemma_location_for_symbol(symbol_table, contract.constants@[q].id, locations.locations@[contract.variables.len() + q], StorageMutability::Immutable);
                lemma_location_index_some(locations.locations@, contract.variables.len() + q, var);
            }
        }
    }
    proof {
        assert forall|b: int, k: int| 0 <= b < cfg.blocks.len() && 0 <= k < cfg.blocks@[b].instructions.len()
            implies (writes_immutable(#[trigger] cfg.blocks@[b].instructions@[k]@, locations.locations@) <==> store_to_constant(
            cfg.blocks@[b].instructions@[k]@,
            contract,
            symbol_table,
        )) by {
            lemma_writes_constant(locations.locations@, contract, symbol_table, cfg.blocks@[b].instructions@[k]@);
        }
    }
    match validate_immutability(cfg, &locations) {
        Ok(()) => {},
        Err(e) => return Err(e),
    }
    Ok(())
}

} // verus!
