use vstd::prelude::*;

use crate::ast::contract::Param;
use crate::ast::function::{Modifier, Visibility};
use crate::ast::node_id::NodeId;
use crate::ast::predicate::Predicate;
use crate::ast::types::Type;
use crate::ast::types::BaseType;
use crate::errors::MerakError;
use crate::ir::{SymbolId, SymbolIdV, symbol_eq};
use crate::names::str_eq;
use crate::storage::{join_path, join_qualified_name, strings_view};
use vstd::string::StringExecFns;

verus! {

/// What a symbol declares.
#[derive(Debug)]
#[allow(inconsistent_fields)]
pub enum SymbolKind {
    Contract,
    ContractInit { contract: String },
    Interface { functions: Vec<SymbolId> },
    InterfaceFunction { params: Vec<Param>, return_type: Type },
    StateVar,
    StateConst,
    Parameter,
    LocalVar,
    Function {
        visibility: Visibility,
        reentrancy: Modifier,
        parameters: Vec<Param>,
        requires: Vec<Predicate>,
        ensures: Vec<Predicate>,
        return_type: Type,
    },
    Entrypoint {
        reentrancy: Modifier,
        parameters: Vec<Param>,
        requires: Vec<Predicate>,
        ensures: Vec<Predicate>,
        return_type: Type,
    },
}

/// What the symbol table knows of one symbol.
#[derive(Debug)]
pub struct SymbolInfo {
    /// The path of names that leads to the symbol; its last element is the
    /// symbol's own name.
    pub qualified_name: Vec<String>,
    pub kind: SymbolKind,
    pub ty: Option<Type>,
    /// The node that declared the symbol.
    pub node_id: NodeId,
}

impl SymbolInfo {
    /// The symbol's own name (the empty string for an empty path).
    pub fn last_name(&self) -> (r: &str)
        ensures
            self.qualified_name.len() > 0 ==> r@ == self.qualified_name@.last()@,
            self.qualified_name.len() == 0 ==> r@ == Seq::<char>::empty(),
    {
        proof {
            reveal_strlit("");
        }
        if self.qualified_name.len() > 0 {
            self.qualified_name[self.qualified_name.len() - 1].as_str()
        } else {
            ""
        }
    }

    pub open spec fn is_storage(&self) -> bool {
        self.kind is StateVar || self.kind is StateConst
    }
}

/// The namespace a name is looked up in.
#[derive(Debug, Clone, Copy, PartialEq, Eq, Structural)]
pub enum SymbolNamespace {
    Value,
    Callable,
    Type,
}

/// The namespace a declaration of this kind is bound in.
pub open spec fn namespace_of(kind: SymbolKind) -> SymbolNamespace {
    match kind {
        SymbolKind::Contract | SymbolKind::Interface { .. } => SymbolNamespace::Type,
        SymbolKind::ContractInit { .. } | SymbolKind::InterfaceFunction { .. } | SymbolKind::Function { .. }
        | SymbolKind::Entrypoint { .. } => SymbolNamespace::Callable,
        _ => SymbolNamespace::Value,
    }
}

pub fn kind_namespace(kind: &SymbolKind) -> (r: SymbolNamespace)
    ensures
        r == namespace_of(*kind),
{
    match kind {
        SymbolKind::Contract | SymbolKind::Interface { .. } => SymbolNamespace::Type,
        SymbolKind::ContractInit { .. } | SymbolKind::InterfaceFunction { .. } | SymbolKind::Function { .. }
        | SymbolKind::Entrypoint { .. } => SymbolNamespace::Callable,
        _ => SymbolNamespace::Value,
    }
}

/// A name bound in a scope.
#[derive(Debug)]
pub struct ScopeEntry {
    pub name: String,
    pub namespace: SymbolNamespace,
    pub symbol: SymbolId,
}

/// The symbols of a program, each with its information; the first entry of
/// a symbol is the one that counts. Besides the symbols, the table holds the
/// stack of open scopes (the global scope first), the symbol each resolved
/// reference stands for, and the base type inferred for expression nodes.
#[derive(Debug)]
pub struct SymbolTable {
    pub symbols: Vec<(SymbolId, SymbolInfo)>,
    pub scopes: Vec<Vec<ScopeEntry>>,
    pub references: Vec<(NodeId, SymbolId)>,
    pub expr_types: Vec<(NodeId, BaseType)>,
}

/// The most recent binding of `name` in `ns` among some entries of a scope.
pub open spec fn entry_lookup(entries: Seq<ScopeEntry>, name: Seq<char>, ns: SymbolNamespace) -> Option<SymbolIdV>
    decreases entries.len(),
{
    if entries.len() == 0 {
        None
    } else if entries.last().name@ == name && entries.last().namespace == ns {
        Some(entries.last().symbol@)
    } else {
        entry_lookup(entries.drop_last(), name, ns)
    }
}

/// The binding of `name` in `ns` in the innermost scope that has one.
pub open spec fn scoped_lookup(scopes: Seq<Vec<ScopeEntry>>, name: Seq<char>, ns: SymbolNamespace) -> Option<SymbolIdV>
    decreases scopes.len(),
{
    if scopes.len() == 0 {
        None
    } else {
        match entry_lookup(scopes.last()@, name, ns) {
            Some(s) => Some(s),
            None => scoped_lookup(scopes.drop_last(), name, ns),
        }
    }
}

/// The first symbol whose qualified name, written with `::`, is `name`.
pub open spec fn qualified_lookup(symbols: Seq<(SymbolId, SymbolInfo)>, name: Seq<char>) -> Option<SymbolIdV>
    decreases symbols.len(),
{
    if symbols.len() == 0 {
        None
    } else if join_path(strings_view(symbols[0].1.qualified_name@)) == name {
        Some(symbols[0].0@)
    } else {
        qualified_lookup(symbols.subrange(1, symbols.len() as int), name)
    }
}

/// What a name stands for: its binding in the open scopes, or else the
/// symbol of that qualified name (in any namespace).
pub open spec fn lookup_spec(t: SymbolTable, name: Seq<char>, ns: SymbolNamespace) -> Option<SymbolIdV> {
    match scoped_lookup(t.scopes@, name, ns) {
        Some(s) => Some(s),
        None => qualified_lookup(t.symbols@, name),
    }
}

/// The symbol first recorded for a reference node.
pub open spec fn reference_lookup(refs: Seq<(NodeId, SymbolId)>, node: NodeId) -> Option<SymbolIdV>
    decreases refs.len(),
{
    if refs.len() == 0 {
        None
    } else if refs[0].0 == node {
        Some(refs[0].1@)
    } else {
        reference_lookup(refs.subrange(1, refs.len() as int), node)
    }
}

/// The information of the first entry of a symbol.
pub open spec fn info_of(symbols: Seq<(SymbolId, SymbolInfo)>, id: SymbolIdV) -> Option<SymbolInfo>
    decreases symbols.len(),
{
    if symbols.len() == 0 {
        None
    } else if symbols[0].0@ == id {
        Some(symbols[0].1)
    } else {
        info_of(symbols.subrange(1, symbols.len() as int), id)
    }
}

/// A name bound in the innermost scope is what a lookup finds, whatever
/// outer scopes bind it to.
pub proof fn lemma_innermost_binding_found(t: SymbolTable, e: ScopeEntry)
    requires
        t.scopes@.len() > 0,
        t.scopes@.last()@.len() > 0,
        t.scopes@.last()@.last() == e,
    ensures
        lookup_spec(t, e.name@, e.namespace) == Some(e.symbol@),
{
}

/// Closing a scope gives back the lookups of before it was opened: a name
/// that the scopes below bind is found as it was there.
pub proof fn lemma_outer_binding_found(scopes: Seq<Vec<ScopeEntry>>, inner: Vec<ScopeEntry>, name: Seq<char>, ns: SymbolNamespace)
    requires
        entry_lookup(inner@, name, ns) is None,
    ensures
        scoped_lookup(scopes.push(inner), name, ns) == scoped_lookup(scopes, name, ns),
{
    assert(scopes.push(inner).drop_last() =~= scopes);
}

/// Whether the innermost scope already binds `name` in `ns`.
pub open spec fn bound_in_current(t: SymbolTable, name: Seq<char>, ns: SymbolNamespace) -> bool {
    t.scopes@.len() > 0 && entry_lookup(t.scopes@.last()@, name, ns) is Some
}

/// The position of the first symbol declared by a node.
pub open spec fn decl_index(symbols: Seq<(SymbolId, SymbolInfo)>, node: NodeId) -> Option<nat>
    decreases symbols.len(),
{
    if symbols.len() == 0 {
        None
    } else if symbols[0].1.node_id == node {
        Some(0)
    } else {
        match decl_index(symbols.subrange(1, symbols.len() as int), node) {
            Some(k) => Some(k + 1),
            None => None,
        }
    }
}

/// The position a node's first declaration has is that of a declaration of
/// the node.
pub proof fn lemma_decl_index(symbols: Seq<(SymbolId, SymbolInfo)>, node: NodeId)
    requires
        decl_index(symbols, node) is Some,
    ensures
        decl_index(symbols, node)->0 < symbols.len(),
        symbols[decl_index(symbols, node)->0 as int].1.node_id == node,
    decreases symbols.len(),
{
    if symbols[0].1.node_id != node {
        lemma_decl_index(symbols.subrange(1, symbols.len() as int), node);
    }
}

/// Whether two kinds agree in everything but a function's or entrypoint's
/// return type.
pub open spec fn kinds_agree_but_return(a: SymbolKind, b: SymbolKind) -> bool {
    match (a, b) {
        (
            SymbolKind::Function { visibility: v1, reentrancy: r1, parameters: p1, requires: q1, ensures: e1, .. },
            SymbolKind::Function { visibility: v2, reentrancy: r2, parameters: p2, requires: q2, ensures: e2, .. },
        ) => v1 == v2 && r1 == r2 && p1 == p2 && q1 == q2 && e1 == e2,
        (
            SymbolKind::Entrypoint { reentrancy: r1, parameters: p1, requires: q1, ensures: e1, .. },
            SymbolKind::Entrypoint { reentrancy: r2, parameters: p2, requires: q2, ensures: e2, .. },
        ) => r1 == r2 && p1 == p2 && q1 == q2 && e1 == e2,
        (SymbolKind::Function { .. }, _) | (SymbolKind::Entrypoint { .. }, _) => false,
        (x, y) => x == y,
    }
}

proof fn lemma_first_match_step(symbols: Seq<(SymbolId, SymbolInfo)>, i: int)
    requires
        0 <= i < symbols.len(),
    ensures
        symbols.subrange(i, symbols.len() as int)[0] == symbols[i],
        symbols.subrange(i, symbols.len() as int).subrange(1, symbols.len() - i) =~= symbols.subrange(i + 1, symbols.len() as int),
{
}

proof fn lemma_refs_step(refs: Seq<(NodeId, SymbolId)>, i: int)
    requires
        0 <= i < refs.len(),
    ensures
        refs.subrange(i, refs.len() as int)[0] == refs[i],
        refs.subrange(i, refs.len() as int).subrange(1, refs.len() - i) =~= refs.subrange(i + 1, refs.len() as int),
{
}

/// The binding of a name in one scope, found from its newest entry.
fn find_in_scope(entries: &Vec<ScopeEntry>, name: &str, ns: SymbolNamespace) -> (r: Option<SymbolId>)
    ensures
        match r {
            Some(s) => entry_lookup(entries@, name@, ns) == Some(s@),
            None => entry_lookup(entries@, name@, ns) is None,
        },
{
    let mut i: usize = entries.len();
    assert(entries@.take(i as int) =~= entries@);
    while i > 0
        invariant
            i <= entries.len(),
            entry_lookup(entries@, name@, ns) == entry_lookup(entries@.take(i as int), name@, ns),
        decreases i,
    {
        let k = i - 1;
        assert(entries@.take(i as int).drop_last() =~= entries@.take(k as int));
        if entries[k].namespace == ns && str_eq(entries[k].name.as_str(), name) {
            return Some(entries[k].symbol.clone());
        }
        i = k;
    }
    None
}

impl SymbolTable {
    /// An empty table with the global scope open.
    pub fn new() -> (r: SymbolTable)
        ensures
            r.symbols@.len() == 0,
            r.scopes@.len() == 1,
            r.scopes@[0]@.len() == 0,
            r.references@.len() == 0,
            r.expr_types@.len() == 0,
    {
        let mut scopes: Vec<Vec<ScopeEntry>> = Vec::new();
        scopes.push(Vec::new());
        SymbolTable { symbols: Vec::new(), scopes, references: Vec::new(), expr_types: Vec::new() }
    }

    /// Records a symbol; a symbol already present keeps its first entry.
    pub fn insert(&mut self, id: SymbolId, info: SymbolInfo)
        ensures
            final(self).symbols@ == old(self).symbols@.push((id, info)),
            final(self).scopes@ == old(self).scopes@,
            final(self).references@ == old(self).references@,
            final(self).expr_types@ == old(self).expr_types@,
    {
        self.symbols.push((id, info));
    }

    /// Opens a new innermost scope.
    pub fn push_scope(&mut self)
        ensures
            final(self).scopes@.len() == old(self).scopes@.len() + 1,
            final(self).scopes@.drop_last() == old(self).scopes@,
            final(self).scopes@.last()@.len() == 0,
            final(self).symbols@ == old(self).symbols@,
            final(self).references@ == old(self).references@,
            final(self).expr_types@ == old(self).expr_types@,
    {
        self.scopes.push(Vec::new());
        proof {
            assert(self.scopes@.last()@ =~= Seq::<ScopeEntry>::empty());
        }
    }

    /// Closes the innermost scope; the global scope is never closed.
    pub fn pop_scope(&mut self)
        ensures
            old(self).scopes@.len() > 1 ==> final(self).scopes@ == old(self).scopes@.drop_last(),
            old(self).scopes@.len() <= 1 ==> final(self).scopes@ == old(self).scopes@,
            final(self).symbols@ == old(self).symbols@,
            final(self).references@ == old(self).references@,
            final(self).expr_types@ == old(self).expr_types@,
    {
        if self.scopes.len() > 1 {
            let _ = self.scopes.pop();
        }
    }

    /// Closes every scope but the global one.
    pub fn clean_scopes(&mut self)
        ensures
            old(self).scopes@.len() > 0 ==> final(self).scopes@ == old(self).scopes@.take(1),
            old(self).scopes@.len() == 0 ==> final(self).scopes@ == old(self).scopes@,
            final(self).symbols@ == old(self).symbols@,
            final(self).references@ == old(self).references@,
            final(self).expr_types@ == old(self).expr_types@,
    {
        if self.scopes.len() > 0 {
            self.scopes.truncate(1);
        }
    }

    /// Binds `name` in `ns` to a symbol in the innermost scope (an alias).
    pub fn insert_alias(&mut self, name: String, ns: SymbolNamespace, symbol: SymbolId)
        requires
            old(self).scopes@.len() > 0,
        ensures
            final(self).scopes@.len() == old(self).scopes@.len(),
            final(self).scopes@.drop_last() == old(self).scopes@.drop_last(),
            final(self).scopes@.last()@ == old(self).scopes@.last()@.push(
                ScopeEntry { name, namespace: ns, symbol },
            ),
            final(self).symbols@ == old(self).symbols@,
            final(self).references@ == old(self).references@,
            final(self).expr_types@ == old(self).expr_types@,
    {
        let mut top = self.scopes.pop().unwrap();
        top.push(ScopeEntry { name, namespace: ns, symbol });
        self.scopes.push(top);
    }

    /// What `name` stands for in `ns`: the innermost binding in the open
    /// scopes, or else the first symbol with that qualified name.
    pub fn lookup(&self, name: &str, ns: SymbolNamespace) -> (r: Option<SymbolId>)
        ensures
            match r {
                Some(s) => lookup_spec(*self, name@, ns) == Some(s@),
                None => lookup_spec(*self, name@, ns) is None,
            },
    {
        let mut k: usize = self.scopes.len();
        assert(self.scopes@.take(k as int) =~= self.scopes@);
        while k > 0
            invariant
                k <= self.scopes.len(),
                scoped_lookup(self.scopes@, name@, ns) == scoped_lookup(self.scopes@.take(k as int), name@, ns),
            decreases k,
        {
            let j = k - 1;
            assert(self.scopes@.take(k as int).drop_last() =~= self.scopes@.take(j as int));
            match find_in_scope(&self.scopes[j], name, ns) {
                Some(s) => {
                    return Some(s);
                },
                None => {},
            }
            k = j;
        }
        let mut i: usize = 0;
        assert(self.symbols@.subrange(0, self.symbols.len() as int) =~= self.symbols@);
        while i < self.symbols.len()
            invariant
                i <= self.symbols.len(),
                scoped_lookup(self.scopes@, name@, ns) is None,
                qualified_lookup(self.symbols@, name@) == qualified_lookup(
                    self.symbols@.subrange(i as int, self.symbols.len() as int),
                    name@,
                ),
            decreases self.symbols.len() - i,
        {
            proof {
                lemma_first_match_step(self.symbols@, i as int);
            }
            let text = join_qualified_name(&self.symbols[i].1.qualified_name);
            if str_eq(text.as_str(), name) {
                return Some(self.symbols[i].0.clone());
            }
            i = i + 1;
        }
        None
    }

    /// Looks `name` up and, when it stands for a symbol, records that the
    /// node `node` refers to it.
    pub fn resolve_reference(&mut self, node: NodeId, name: &str, ns: SymbolNamespace) -> (r: Option<SymbolId>)
        ensures
            match r {
                Some(s) => lookup_spec(*old(self), name@, ns) == Some(s@)
                    && final(self).references@.len() == old(self).references@.len() + 1
                    && final(self).references@.drop_last() == old(self).references@
                    && final(self).references@.last().0 == node
                    && final(self).references@.last().1@ == s@,
                None => lookup_spec(*old(self), name@, ns) is None
                    && final(self).references@ == old(self).references@,
            },
            final(self).symbols@ == old(self).symbols@,
            final(self).scopes@ == old(self).scopes@,
            final(self).expr_types@ == old(self).expr_types@,
    {
        let r = self.lookup(name, ns);
        match &r {
            Some(s) => {
                self.references.push((node, s.clone()));
            },
            None => {},
        }
        r
    }

    /// Declares a symbol in the innermost scope, under the last part of its
    /// qualified name; a name already bound there in the same namespace is
    /// refused. The symbol's id is that name with the declaring node's id.
    pub fn add_symbol(&mut self, node_id: NodeId, qualified_name: Vec<String>, kind: SymbolKind, ty: Option<Type>) -> (r:
        Result<SymbolId, MerakError>)
        requires
            old(self).scopes@.len() > 0,
            qualified_name@.len() > 0,
        ensures
            ({
                let name = qualified_name@.last();
                let ns = namespace_of(kind);
                if bound_in_current(*old(self), name@, ns) {
                    &&& r is Err
                    &&& r->Err_0 is DuplicateSymbol
                    &&& r->Err_0->DuplicateSymbol_name@ == name@
                    &&& final(self).symbols@ == old(self).symbols@
                    &&& final(self).scopes@ == old(self).scopes@
                } else {
                    &&& r is Ok
                    &&& r->Ok_0@ == SymbolIdV::Named(name@, node_id.0)
                    &&& final(self).symbols@.len() == old(self).symbols@.len() + 1
                    &&& final(self).symbols@.drop_last() == old(self).symbols@
                    &&& final(self).symbols@.last().0@ == SymbolIdV::Named(name@, node_id.0)
                    &&& final(self).symbols@.last().1 == (SymbolInfo { qualified_name, kind, ty, node_id })
                    &&& final(self).scopes@.len() == old(self).scopes@.len()
                    &&& final(self).scopes@.drop_last() == old(self).scopes@.drop_last()
                    &&& final(self).scopes@.last()@.len() == old(self).scopes@.last()@.len() + 1
                    &&& final(self).scopes@.last()@.drop_last() == old(self).scopes@.last()@
                    &&& final(self).scopes@.last()@.last().name@ == name@
                    &&& final(self).scopes@.last()@.last().namespace == ns
                    &&& final(self).scopes@.last()@.last().symbol@ == SymbolIdV::Named(name@, node_id.0)
                }
            }),
            final(self).references@ == old(self).references@,
            final(self).expr_types@ == old(self).expr_types@,
    {
        let name = qualified_name[qualified_name.len() - 1].clone();
        let ns = kind_namespace(&kind);
        let top = self.scopes.len() - 1;
        match find_in_scope(&self.scopes[top], name.as_str(), ns) {
            Some(_) => {
                return Err(MerakError::DuplicateSymbol { name });
            },
            None => {},
        }
        let id = SymbolId::Named(name.clone(), node_id.0);
        let mut scope = self.scopes.pop().unwrap();
        scope.push(ScopeEntry { name: name.clone(), namespace: ns, symbol: SymbolId::Named(name, node_id.0) });
        self.scopes.push(scope);
        self.symbols.push((id.clone(), SymbolInfo { qualified_name, kind, ty, node_id }));
        Ok(id)
    }

    /// The information of the symbol a reference node was resolved to by one
    /// of the first `limit` references.
    pub fn resolved_symbol_within(&self, node: NodeId, limit: usize) -> (r: Option<&SymbolInfo>)
        requires
            limit <= self.references.len(),
        ensures
            match r {
                Some(info) => match reference_lookup(self.references@.take(limit as int), node) {
                    Some(s) => info_of(self.symbols@, s) == Some(*info),
                    None => false,
                },
                None => match reference_lookup(self.references@.take(limit as int), node) {
                    Some(s) => info_of(self.symbols@, s) is None,
                    None => true,
                },
            },
    {
        let ghost refs = self.references@.take(limit as int);
        let mut i: usize = 0;
        assert(refs.subrange(0, limit as int) =~= refs);
        while i < limit
            invariant
                i <= limit,
                limit <= self.references.len(),
                refs == self.references@.take(limit as int),
                reference_lookup(refs, node) == reference_lookup(refs.subrange(i as int, limit as int), node),
            decreases limit - i,
        {
            proof {
                lemma_refs_step(refs, i as int);
            }
            if self.references[i].0.0 == node.0 {
                return self.get_symbol(&self.references[i].1);
            }
            i = i + 1;
        }
        None
    }

    /// Records the base type inferred for an expression node.
    pub fn insert_expr_type(&mut self, node: NodeId, base: BaseType)
        ensures
            final(self).expr_types@ == old(self).expr_types@.push((node, base)),
            final(self).symbols@ == old(self).symbols@,
            final(self).scopes@ == old(self).scopes@,
            final(self).references@ == old(self).references@,
    {
        self.expr_types.push((node, base));
    }

    /// Sets the type of the first symbol declared by a node.
    pub fn update_type(&mut self, node: NodeId, ty: Type) -> (r: Result<(), MerakError>)
        ensures
            match decl_index(old(self).symbols@, node) {
                Some(i) => r is Ok && i < old(self).symbols@.len() && final(self).symbols@ == old(self).symbols@.update(
                    i as int,
                    (old(self).symbols@[i as int].0, SymbolInfo { ty: Some(ty), ..old(self).symbols@[i as int].1 }),
                ),
                None => r is Err && r->Err_0 is SemanticError && final(self).symbols@ == old(self).symbols@,
            },
            final(self).scopes@ == old(self).scopes@,
            final(self).references@ == old(self).references@,
            final(self).expr_types@ == old(self).expr_types@,
    {
        let mut i: usize = 0;
        assert(self.symbols@.subrange(0, self.symbols.len() as int) =~= self.symbols@);
        while i < self.symbols.len()
            invariant
                i <= self.symbols.len(),
                self.symbols@ == old(self).symbols@,
                self.scopes@ == old(self).scopes@,
                self.references@ == old(self).references@,
                self.expr_types@ == old(self).expr_types@,
                decl_index(self.symbols@, node) == match decl_index(
                    self.symbols@.subrange(i as int, self.symbols.len() as int),
                    node,
                ) {
                    Some(k) => Some((k + i) as nat),
                    None => None,
                },
            decreases self.symbols.len() - i,
        {
            proof {
                lemma_first_match_step(self.symbols@, i as int);
            }
            if self.symbols[i].1.node_id.0 == node.0 {
                proof {
                    lemma_decl_index(self.symbols@, node);
                }
                let (sid, info) = self.symbols.remove(i);
                let SymbolInfo { qualified_name, kind, ty: _, node_id } = info;
                self.symbols.insert(i, (sid, SymbolInfo { qualified_name, kind, ty: Some(ty), node_id }));
                proof {
                    assert(self.symbols@ =~= old(self).symbols@.update(
                        i as int,
                        (old(self).symbols@[i as int].0, SymbolInfo { ty: Some(ty), ..old(self).symbols@[i as int].1 }),
                    ));
                }
                return Ok(());
            }
            i = i + 1;
        }
        Err(MerakError::SemanticError(String::from_str("no symbol is declared by this node")))
    }

    /// Gives the symbol entry at position `i` another type (and, for a
    /// function or entrypoint, that return type).
    pub fn set_return_type_at(&mut self, i: usize, ty: Type)
        requires
            i < old(self).symbols@.len(),
        ensures
            final(self).symbols@.len() == old(self).symbols@.len(),
            forall|j: int| 0 <= j < old(self).symbols@.len() && j != i ==> final(self).symbols@[j] == old(self).symbols@[j],
            final(self).symbols@[i as int].0 == old(self).symbols@[i as int].0,
            final(self).symbols@[i as int].1.qualified_name == old(self).symbols@[i as int].1.qualified_name,
            final(self).symbols@[i as int].1.node_id == old(self).symbols@[i as int].1.node_id,
            final(self).symbols@[i as int].1.ty is Some,
            final(self).symbols@[i as int].1.ty->0@ == ty@,
            final(self).symbols@[i as int].1.kind matches SymbolKind::Function { return_type, .. } ==> return_type@ == ty@,
            final(self).symbols@[i as int].1.kind matches SymbolKind::Entrypoint { return_type, .. } ==> return_type@ == ty@,
            kinds_agree_but_return(final(self).symbols@[i as int].1.kind, old(self).symbols@[i as int].1.kind),
            final(self).scopes@ == old(self).scopes@,
            final(self).references@ == old(self).references@,
            final(self).expr_types@ == old(self).expr_types@,
    {
        let (sid, info) = self.symbols.remove(i);
        let SymbolInfo { qualified_name, kind, ty: _, node_id } = info;
        let kind = match kind {
            SymbolKind::Function { visibility, reentrancy, parameters, requires: pre, ensures: post, return_type: _ } =>
                SymbolKind::Function { visibility, reentrancy, parameters, requires: pre, ensures: post, return_type: ty.clone() },
            SymbolKind::Entrypoint { reentrancy, parameters, requires: pre, ensures: post, return_type: _ } =>
                SymbolKind::Entrypoint { reentrancy, parameters, requires: pre, ensures: post, return_type: ty.clone() },
            k => k,
        };
        self.symbols.insert(i, (sid, SymbolInfo { qualified_name, kind, ty: Some(ty), node_id }));
    }

    /// The position of the first entry of a symbol.
    pub open spec fn index_of(&self, id: crate::ir::SymbolIdV) -> Option<int> {
        if exists|i: int| 0 <= i < self.symbols.len() && (#[trigger] self.symbols@[i]).0@ == id {
            Some(choose|i: int| 0 <= i < self.symbols.len() && (#[trigger] self.symbols@[i]).0@ == id
                && forall|j: int| 0 <= j < i ==> (#[trigger] self.symbols@[j]).0@ != id)
        } else {
            None
        }
    }

    /// The information of a symbol: that of its first entry.
    pub fn get_symbol(&self, id: &SymbolId) -> (r: Option<&SymbolInfo>)
        ensures
            match r {
                Some(info) => exists|i: int| 0 <= i < self.symbols.len() && (#[trigger] self.symbols@[i]).0@ == id@
                    && self.symbols@[i].1 == *info
                    && forall|j: int| 0 <= j < i ==> (#[trigger] self.symbols@[j]).0@ != id@,
                None => forall|i: int| 0 <= i < self.symbols.len() ==> (#[trigger] self.symbols@[i]).0@ != id@,
            },
            match r {
                Some(info) => info_of(self.symbols@, id@) == Some(*info),
                None => info_of(self.symbols@, id@) is None,
            },
    {
        let mut i: usize = 0;
        assert(self.symbols@.subrange(0, self.symbols.len() as int) =~= self.symbols@);
        while i < self.symbols.len()
            invariant
                i <= self.symbols.len(),
                forall|j: int| 0 <= j < i ==> (#[trigger] self.symbols@[j]).0@ != id@,
                info_of(self.symbols@, id@) == info_of(self.symbols@.subrange(i as int, self.symbols.len() as int), id@),
            decreases self.symbols.len() - i,
        {
            proof {
                lemma_first_match_step(self.symbols@, i as int);
            }
            if symbol_eq(&self.symbols[i].0, id) {
                return Some(&self.symbols[i].1);
            }
            i = i + 1;
        }
        None
    }

    /// The first symbol declared by a node, with its information.
    pub fn get_symbol_by_node_id(&self, node: NodeId) -> (r: Option<&(SymbolId, SymbolInfo)>)
        ensures
            match r {
                Some(e) => exists|i: int| 0 <= i < self.symbols.len() && self.symbols@[i] == *e
                    && (#[trigger] self.symbols@[i]).1.node_id == node
                    && forall|j: int| 0 <= j < i ==> (#[trigger] self.symbols@[j]).1.node_id != node,
                None => forall|i: int| 0 <= i < self.symbols.len() ==> (#[trigger] self.symbols@[i]).1.node_id != node,
            },
    {
        let mut i: usize = 0;
        while i < self.symbols.len()
            invariant
                i <= self.symbols.len(),
                forall|j: int| 0 <= j < i ==> (#[trigger] self.symbols@[j]).1.node_id != node,
            decreases self.symbols.len() - i,
        {
            if self.symbols[i].1.node_id.0 == node.0 {
                return Some(&self.symbols[i]);
            }
            i = i + 1;
        }
        None
    }
}

} // verus!
