use vstd::prelude::*;

use crate::ast::expression::{Expression, ExpressionV};
use crate::ast::contract::{clone_params, file_at, file_count, file_entries, File, Param, Program};
use crate::ast::function::{Function, Modifier, Visibility};
use crate::ast::meta::{SourceRef, source_ref_text};
use crate::ast::node_id::NodeId;
use crate::ast::predicate::{pred_contains_old, pred_free_vars, pred_rename};
use crate::ast::statement::{Block, Statement};
use crate::ast::types::{Type, TypeV};
use crate::errors::MerakError;
use crate::names::{StrMap, StrSet};
use crate::refinements::constraints::clone_preds;
use crate::ir::SymbolIdV;
use crate::storage::strings_view;
use crate::typechecker::{same_but_type, Typechecker};
use crate::symbols::{bound_in_current, lookup_spec, SymbolInfo, SymbolKind, SymbolNamespace, SymbolTable};
use vstd::string::StringExecFns;

verus! {

// ---------------------------------------------------------------------------
// Names that do not resolve
// ---------------------------------------------------------------------------

/// A name that does not resolve: whether it is called, the name, and where.
pub type Unresolved = (bool, Seq<char>, SourceRef);

/// The names of an expression that resolve to nothing, in the order they are
/// met: an identifier is looked up among values; a called name among
/// callables, and then among types.
pub open spec fn unresolved(e: ExpressionV, t: SymbolTable) -> Seq<Unresolved>
    decreases e,
{
    match e {
        ExpressionV::Literal(..) => Seq::empty(),
        ExpressionV::Identifier(n, _, sr) => if lookup_spec(t, n, SymbolNamespace::Value) is Some {
            Seq::empty()
        } else {
            seq![(false, n, sr)]
        },
        ExpressionV::BinaryOp(l, _, r, _, _) => unresolved(*l, t) + unresolved(*r, t),
        ExpressionV::UnaryOp(_, x, _, _) => unresolved(*x, t),
        ExpressionV::Grouped(x, _, _) => unresolved(*x, t),
        ExpressionV::FunctionCall(n, args, _, sr) => (if lookup_spec(t, n, SymbolNamespace::Callable) is None
            && lookup_spec(t, n, SymbolNamespace::Type) is None {
            seq![(true, n, sr)]
        } else {
            Seq::empty()
        }) + unresolved_list(args, t),
        ExpressionV::MemberCall(o, _, args, _, _) => unresolved(*o, t) + unresolved_list(args, t),
    }
}

/// The unresolved names of a list of expressions, in order.
pub open spec fn unresolved_list(s: Seq<ExpressionV>, t: SymbolTable) -> Seq<Unresolved>
    decreases s,
{
    if s.len() == 0 {
        Seq::empty()
    } else {
        unresolved_list(s.subrange(0, s.len() - 1), t) + unresolved(s[s.len() - 1], t)
    }
}

/// The error reported for an unresolved name.
pub open spec fn reports(e: MerakError, u: Unresolved) -> bool {
    if u.0 {
        e is UndefinedFunction && e->UndefinedFunction_name@ == u.1 && e->UndefinedFunction_source_ref == u.2
    } else {
        e is UndefinedVariable && e->UndefinedVariable_name@ == u.1 && e->UndefinedVariable_source_ref == u.2
    }
}

/// Whether the errors report exactly these unresolved names, in order.
pub open spec fn reports_all(es: Seq<MerakError>, us: Seq<Unresolved>) -> bool {
    es.len() == us.len() && forall|i: int| 0 <= i < es.len() ==> reports(#[trigger] es[i], us[i])
}

/// Whether `b` is `a` followed by errors that report `us`.
pub open spec fn reported_after(a: Seq<MerakError>, b: Seq<MerakError>, us: Seq<Unresolved>) -> bool {
    &&& a.len() <= b.len()
    &&& b.subrange(0, a.len() as int) == a
    &&& reports_all(b.subrange(a.len() as int, b.len() as int), us)
}

/// Whether the errors after `a` begin with one report of each unresolved
/// name of `us`, in order, and may go on with others.
pub open spec fn reported_first(a: Seq<MerakError>, b: Seq<MerakError>, us: Seq<Unresolved>) -> bool {
    exists|m: Seq<MerakError>| reported_after(a, m, us) && extends(m, b)
}

/// Whether the table differs from another only in references recorded after
/// the other's.
pub open spec fn only_references_added(old_t: SymbolTable, new_t: SymbolTable) -> bool {
    &&& new_t.symbols@ == old_t.symbols@
    &&& new_t.scopes@ == old_t.scopes@
    &&& new_t.expr_types@ == old_t.expr_types@
    &&& old_t.references@.len() <= new_t.references@.len()
    &&& new_t.references@.subrange(0, old_t.references@.len() as int) == old_t.references@
}

proof fn lemma_reported_concat(a: Seq<MerakError>, b: Seq<MerakError>, c: Seq<MerakError>, u: Seq<Unresolved>, v: Seq<Unresolved>)
    requires
        reported_after(a, b, u),
        reported_after(b, c, v),
    ensures
        reported_after(a, c, u + v),
{
    assert(c.subrange(0, a.len() as int) =~= b.subrange(0, a.len() as int));
    let mid = c.subrange(a.len() as int, c.len() as int);
    assert(mid.subrange(0, b.len() - a.len()) =~= b.subrange(a.len() as int, b.len() as int));
    assert(mid.subrange(b.len() - a.len(), mid.len() as int) =~= c.subrange(b.len() as int, c.len() as int));
    assert forall|i: int| 0 <= i < mid.len() implies reports(#[trigger] mid[i], (u + v)[i]) by {
        if i < u.len() {
            assert(mid[i] == b.subrange(a.len() as int, b.len() as int)[i]);
        } else {
            assert(mid[i] == c.subrange(b.len() as int, c.len() as int)[i - u.len()]);
        }
    }
}

proof fn lemma_reported_refl(a: Seq<MerakError>)
    ensures
        reported_after(a, a, Seq::empty()),
{
    assert(a.subrange(0, a.len() as int) =~= a);
    assert(a.subrange(a.len() as int, a.len() as int) =~= Seq::<MerakError>::empty());
}

proof fn lemma_only_references_trans(a: SymbolTable, b: SymbolTable, c: SymbolTable)
    requires
        only_references_added(a, b),
        only_references_added(b, c),
    ensures
        only_references_added(a, c),
{
    assert(c.references@.subrange(0, a.references@.len() as int) =~= b.references@.subrange(0, a.references@.len() as int));
}

proof fn lemma_same_lookups(a: SymbolTable, b: SymbolTable)
    requires
        only_references_added(a, b),
    ensures
        forall|n: Seq<char>, ns: SymbolNamespace| lookup_spec(a, n, ns) == lookup_spec(b, n, ns),
        forall|e: ExpressionV| unresolved(e, a) == unresolved(e, b),
        forall|s: Seq<ExpressionV>| unresolved_list(s, a) == unresolved_list(s, b),
{
    assert forall|e: ExpressionV| unresolved(e, a) == unresolved(e, b) by {
        lemma_unresolved_same(e, a, b);
    }
    assert forall|s: Seq<ExpressionV>| unresolved_list(s, a) == unresolved_list(s, b) by {
        lemma_unresolved_list_same(s, a, b);
    }
}

proof fn lemma_unresolved_same(e: ExpressionV, a: SymbolTable, b: SymbolTable)
    requires
        a.symbols@ == b.symbols@,
        a.scopes@ == b.scopes@,
    ensures
        unresolved(e, a) == unresolved(e, b),
    decreases e, 0nat,
{
    match e {
        ExpressionV::BinaryOp(l, _, r, _, _) => {
            lemma_unresolved_same(*l, a, b);
            lemma_unresolved_same(*r, a, b);
        },
        ExpressionV::UnaryOp(_, x, _, _) => lemma_unresolved_same(*x, a, b),
        ExpressionV::Grouped(x, _, _) => lemma_unresolved_same(*x, a, b),
        ExpressionV::FunctionCall(_, args, _, _) => lemma_unresolved_list_same(args, a, b),
        ExpressionV::MemberCall(o, _, args, _, _) => {
            lemma_unresolved_same(*o, a, b);
            lemma_unresolved_list_same(args, a, b);
        },
        _ => {},
    }
}

proof fn lemma_unresolved_list_same(s: Seq<ExpressionV>, a: SymbolTable, b: SymbolTable)
    requires
        a.symbols@ == b.symbols@,
        a.scopes@ == b.scopes@,
    ensures
        unresolved_list(s, a) == unresolved_list(s, b),
    decreases s, 1nat,
{
    if s.len() > 0 {
        lemma_unresolved_list_same(s.subrange(0, s.len() - 1), a, b);
        lemma_unresolved_same(s[s.len() - 1], a, b);
    }
}

fn push_error(errors: &mut Vec<MerakError>, e: MerakError)
    ensures
        final(errors)@ == old(errors)@.push(e),
{
    errors.push(e);
}

/// Resolves the names an expression uses: each identifier among values, each
/// called name among callables and then types, recording for each reference
/// node the symbol it stands for, and reporting each name that resolves to
/// nothing.
#[verifier::loop_isolation(false)]
fn resolve_names_in_expression(expr: &Expression, symbol_table: &mut SymbolTable, errors: &mut Vec<MerakError>)
    ensures
        only_references_added(*old(symbol_table), *final(symbol_table)),
        reported_after(old(errors)@, final(errors)@, unresolved(expr@, *old(symbol_table))),
    decreases *expr,
{
    proof {
        lemma_reported_refl(errors@);
    }
    match expr {
        Expression::Identifier(name, id, source_ref) => {
            let found = symbol_table.resolve_reference(*id, name.as_str(), SymbolNamespace::Value);
            if found.is_none() {
                let ghost before = errors@;
                push_error(errors, MerakError::UndefinedVariable { name: name.clone(), source_ref: *source_ref });
                proof {
                    assert(errors@.subrange(0, before.len() as int) =~= before);
                    assert(errors@.subrange(before.len() as int, errors@.len() as int) =~= seq![errors@.last()]);
                }
            }
            proof {
                assert(symbol_table.references@.subrange(0, old(symbol_table).references@.len() as int) =~= old(
                    symbol_table,
                ).references@);
            }
        },
        Expression::FunctionCall { name, args, id, source_ref } => {
            let ghost t0 = *symbol_table;
            let ghost e0 = errors@;
            let callable = symbol_table.resolve_reference(*id, name.as_str(), SymbolNamespace::Callable);
            if callable.is_none() {
                let as_type = symbol_table.resolve_reference(*id, name.as_str(), SymbolNamespace::Type);
                if as_type.is_none() {
                    push_error(errors, MerakError::UndefinedFunction { name: name.clone(), source_ref: *source_ref });
                    proof {
                        assert(errors@.subrange(0, e0.len() as int) =~= e0);
                        assert(errors@.subrange(e0.len() as int, errors@.len() as int) =~= seq![errors@.last()]);
                    }
                }
            }
            proof {
                assert(symbol_table.references@.subrange(0, t0.references@.len() as int) =~= t0.references@);
            }
            let ghost head = if lookup_spec(t0, name@, SymbolNamespace::Callable) is None && lookup_spec(
                t0,
                name@,
                SymbolNamespace::Type,
            ) is None {
                seq![(true, name@, *source_ref)]
            } else {
                Seq::<Unresolved>::empty()
            };
            let ghost args_v = expr@->FunctionCall_1;
            proof {
                lemma_same_lookups(t0, *symbol_table);
                assert(args_v.subrange(0, 0) =~= Seq::<ExpressionV>::empty());
                assert(head + unresolved_list(args_v.subrange(0, 0), t0) =~= head);
            }
            let mut i: usize = 0;
            while i < args.len()
                invariant
                    i <= args.len(),
                    args_v.len() == args.len(),
                    forall|j: int| 0 <= j < args.len() ==> args_v[j] == (#[trigger] args@[j])@,
                    only_references_added(t0, *symbol_table),
                    reported_after(e0, errors@, head + unresolved_list(args_v.subrange(0, i as int), t0)),
                decreases args.len() - i,
            {
                proof {
                    broadcast use vstd::std_specs::vec::group_vec_axioms;
                    assert(decreases_to!(*args => args[i as int]));
                }
                let ghost t1 = *symbol_table;
                let ghost e1 = errors@;
                resolve_names_in_expression(&args[i], symbol_table, errors);
                proof {
                    lemma_same_lookups(t0, t1);
                    lemma_only_references_trans(t0, t1, *symbol_table);
                    lemma_reported_concat(e0, e1, errors@, head + unresolved_list(args_v.subrange(0, i as int), t0), unresolved(args_v[i as int], t0));
                    let sub = args_v.subrange(0, i + 1);
                    assert(sub.subrange(0, sub.len() - 1) =~= args_v.subrange(0, i as int));
                    assert(head + unresolved_list(args_v.subrange(0, i + 1), t0) =~= head + unresolved_list(args_v.subrange(0, i as int), t0) + unresolved(args_v[i as int], t0));
                }
                i = i + 1;
            }
            proof {
                assert(args_v.subrange(0, args.len() as int) =~= args_v);
            }
        },
        Expression::BinaryOp { left, right, .. } => {
            let ghost t0 = *symbol_table;
            let ghost e0 = errors@;
            resolve_names_in_expression(left, symbol_table, errors);
            let ghost t1 = *symbol_table;
            let ghost e1 = errors@;
            resolve_names_in_expression(right, symbol_table, errors);
            proof {
                lemma_same_lookups(t0, t1);
                lemma_only_references_trans(t0, t1, *symbol_table);
                lemma_reported_concat(e0, e1, errors@, unresolved(left@, t0), unresolved(right@, t0));
            }
        },
        Expression::UnaryOp { expr: inner, .. } => {
            resolve_names_in_expression(inner, symbol_table, errors);
        },
        Expression::Literal(..) => {
            proof {
                assert(symbol_table.references@.subrange(0, symbol_table.references@.len() as int) =~= symbol_table.references@);
            }
        },
        Expression::Grouped(inner, ..) => {
            resolve_names_in_expression(inner, symbol_table, errors);
        },
        Expression::MemberCall { object, args, .. } => {
            let ghost t0 = *symbol_table;
            let ghost e0 = errors@;
            resolve_names_in_expression(object, symbol_table, errors);
            let ghost head = unresolved(object@, t0);
            let ghost args_v = expr@->MemberCall_2;
            proof {
                lemma_same_lookups(t0, *symbol_table);
                assert(args_v.subrange(0, 0) =~= Seq::<ExpressionV>::empty());
                assert(head + unresolved_list(args_v.subrange(0, 0), t0) =~= head);
            }
            let mut i: usize = 0;
            while i < args.len()
                invariant
                    i <= args.len(),
                    args_v.len() == args.len(),
                    forall|j: int| 0 <= j < args.len() ==> args_v[j] == (#[trigger] args@[j])@,
                    only_references_added(t0, *symbol_table),
                    reported_after(e0, errors@, head + unresolved_list(args_v.subrange(0, i as int), t0)),
                decreases args.len() - i,
            {
                proof {
                    broadcast use vstd::std_specs::vec::group_vec_axioms;
                    assert(decreases_to!(*args => args[i as int]));
                }
                let ghost t1 = *symbol_table;
                let ghost e1 = errors@;
                resolve_names_in_expression(&args[i], symbol_table, errors);
                proof {
                    lemma_same_lookups(t0, t1);
                    lemma_only_references_trans(t0, t1, *symbol_table);
                    lemma_reported_concat(e0, e1, errors@, head + unresolved_list(args_v.subrange(0, i as int), t0), unresolved(args_v[i as int], t0));
                    let sub = args_v.subrange(0, i + 1);
                    assert(sub.subrange(0, sub.len() - 1) =~= args_v.subrange(0, i as int));
                    assert(head + unresolved_list(args_v.subrange(0, i + 1), t0) =~= head + unresolved_list(args_v.subrange(0, i as int), t0) + unresolved(args_v[i as int], t0));
                }
                i = i + 1;
            }
            proof {
                assert(args_v.subrange(0, args.len() as int) =~= args_v);
            }
        },
    }
}

// ---------------------------------------------------------------------------
// Modifiers
// ---------------------------------------------------------------------------

/// The reentrancy mode a function's modifiers give it, when they are valid:
/// `guarded` and `reentrant` exclude each other and are refused on internal
/// functions, no modifier is repeated, and at most one is written (none
/// means `checked`).
pub open spec fn validated_modifier(visibility: Visibility, ms: Seq<Modifier>) -> Option<Modifier> {
    let internal = visibility == Visibility::Internal;
    if ms.contains(Modifier::Guarded) && ms.contains(Modifier::Reentrant) {
        None
    } else if internal && ms.contains(Modifier::Guarded) {
        None
    } else if internal && ms.contains(Modifier::Reentrant) {
        None
    } else if !ms.no_duplicates() {
        None
    } else if ms.len() == 0 {
        Some(Modifier::Checked)
    } else if ms.len() == 1 {
        Some(ms[0])
    } else {
        None
    }
}

fn has_modifier(ms: &Vec<Modifier>, m: Modifier) -> (r: bool)
    ensures
        r == ms@.contains(m),
{
    let mut i: usize = 0;
    while i < ms.len()
        invariant
            i <= ms.len(),
            forall|j: int| 0 <= j < i ==> ms@[j] != m,
        decreases ms.len() - i,
    {
        if ms[i] == m {
            assert(ms@[i as int] == m);
            return true;
        }
        i = i + 1;
    }
    false
}

/// A modifier written twice, if any.
fn repeated_modifier(ms: &Vec<Modifier>) -> (r: Option<Modifier>)
    ensures
        r is None <==> ms@.no_duplicates(),
{
    let mut i: usize = 0;
    while i < ms.len()
        invariant
            i <= ms.len(),
            forall|a: int, b: int| 0 <= a < b < i ==> ms@[a] != ms@[b],
        decreases ms.len() - i,
    {
        let mut j: usize = 0;
        while j < i
            invariant
                i < ms.len(),
                j <= i,
                forall|a: int| 0 <= a < j ==> ms@[a] != ms@[i as int],
            decreases i - j,
        {
            if ms[j] == ms[i] {
                return Some(ms[i]);
            }
            j = j + 1;
        }
        i = i + 1;
    }
    None
}

fn modifier_name(m: Modifier) -> (r: &'static str)
    ensures
        r@ == match m {
            Modifier::Payable => "Payable"@,
            Modifier::Guarded => "Guarded"@,
            Modifier::Reentrant => "Reentrant"@,
            Modifier::Checked => "Checked"@,
        },
{
    match m {
        Modifier::Payable => "Payable",
        Modifier::Guarded => "Guarded",
        Modifier::Reentrant => "Reentrant",
        Modifier::Checked => "Checked",
    }
}

/// `before` + `name` + `after` + ` at ` + the source range.
fn located_message(before: &str, name: &str, after: &str, at: SourceRef) -> (r: String)
    ensures
        r@ == before@ + name@ + after@ + " at "@ + source_ref_text(at),
{
    String::from_str(before).concat(name).concat(after).concat(" at ").concat(at.to_string().as_str())
}

/// Checks a function's modifiers and gives its reentrancy mode.
fn validate_modifiers(function: &Function) -> (r: Result<Modifier, MerakError>)
    ensures
        match validated_modifier(function.visibility, function.modifiers@) {
            Some(m) => r == Ok::<Modifier, MerakError>(m),
            None => r is Err && r->Err_0 is SemanticError,
        },
{
    let has_guarded = has_modifier(&function.modifiers, Modifier::Guarded);
    let has_reentrant = has_modifier(&function.modifiers, Modifier::Reentrant);
    let is_internal = function.visibility == Visibility::Internal;
    let name = function.name.as_str();
    if has_guarded && has_reentrant {
        return Err(MerakError::SemanticError(located_message(
            "Function '",
            name,
            "' cannot have both 'guarded' and 'reentrant' modifiers. These reentrancy modes are mutually exclusive",
            function.source_ref,
        )));
    }
    if is_internal && has_guarded {
        return Err(MerakError::SemanticError(located_message(
            "Internal function '",
            name,
            "' cannot have 'guarded' modifier. Reentrancy protection is only applicable to external functions and entrypoints",
            function.source_ref,
        )));
    }
    if is_internal && has_reentrant {
        return Err(MerakError::SemanticError(located_message(
            "Internal function '",
            name,
            "' cannot have 'reentrant' modifier. Reentrancy control es only applicable to external functions and entrypoints",
            function.source_ref,
        )));
    }
    match repeated_modifier(&function.modifiers) {
        Some(m) => {
            let what = String::from_str("' has duplicate modifier '").concat(modifier_name(m)).concat("'");
            return Err(MerakError::SemanticError(located_message("Function '", name, what.as_str(), function.source_ref)));
        },
        None => {},
    }
    if function.modifiers.len() == 0 {
        Ok(Modifier::Checked)
    } else if function.modifiers.len() == 1 {
        Ok(function.modifiers[0])
    } else {
        Err(MerakError::SemanticError(located_message(
            "Function '",
            name,
            "' has more than one unique modifier",
            function.source_ref,
        )))
    }
}

// ---------------------------------------------------------------------------
// The binder of a return type
// ---------------------------------------------------------------------------

/// The name a refinement gives the value it refines.
pub open spec fn self_binder() -> Seq<char> {
    seq!['_', '_', 's', 'e', 'l', 'f']
}

/// The variables of a return type's refinement that are neither the value
/// itself nor declared anywhere in scope.
pub open spec fn undeclared_binders(t: TypeV, table: SymbolTable) -> Set<Seq<char>> {
    pred_free_vars(t.constraint).filter(
        |v: Seq<char>| v != self_binder() && lookup_spec(table, v, SymbolNamespace::Value) is None,
    )
}

/// The return type with `x` renamed to the value itself.
pub open spec fn rebind(t: TypeV, x: Seq<char>) -> TypeV {
    TypeV { constraint: pred_rename(t.constraint, map![x => self_binder()]), binder: self_binder(), ..t }
}

/// Makes the binder of a function's return type the value itself: an
/// explicit binder is renamed; with the implicit binder, the one variable of
/// the refinement that is declared nowhere is taken to be the value (none
/// leaves the type as it is; more than one is ambiguous).
fn normalize_return_type_binder(return_type: &Type, symbol_table: &SymbolTable) -> (r: Result<Type, MerakError>)
    ensures
        return_type@.binder != self_binder() ==> r is Ok && r->Ok_0@ == rebind(return_type@, return_type@.binder),
        return_type@.binder == self_binder() ==> {
            let u = undeclared_binders(return_type@, *symbol_table);
            &&& u.is_empty() ==> r is Ok && r->Ok_0@ == return_type@
            &&& (forall|x: Seq<char>| u == set![x] ==> r is Ok && r->Ok_0@ == rebind(return_type@, x))
            &&& (exists|x: Seq<char>, y: Seq<char>| x != y && u.contains(x) && u.contains(y)) ==> r is Err && r->Err_0 is SemanticError
        },
{
    proof {
        reveal_strlit("__self");
        assert("__self"@ =~= self_binder());
    }
    if !crate::names::str_eq(return_type.binder.as_str(), "__self") {
        let mut subst: StrMap<String> = StrMap::new();
        subst.insert(return_type.binder.clone(), String::from_str("__self"));
        proof {
            assert(subst@ =~= map![return_type@.binder => self_binder()]);
        }
        let constraint = return_type.constraint.substitute_vars(&subst);
        return Ok(Type {
            base: return_type.base.clone(),
            binder: String::from_str("__self"),
            constraint,
            explicit_annotation: return_type.explicit_annotation,
            source_ref: return_type.source_ref,
        });
    }
    let ghost u = undeclared_binders(return_type@, *symbol_table);
    let free = return_type.constraint.free_variables().to_vec();
    let mut undeclared: Vec<String> = Vec::new();
    let mut i: usize = 0;
    while i < free.len()
        invariant
            i <= free.len(),
            u == undeclared_binders(return_type@, *symbol_table),
            "__self"@ == self_binder(),
            forall|x: Seq<char>| pred_free_vars(return_type@.constraint).contains(x) <==> exists|k: int| 0 <= k < free.len() && (#[trigger] free@[k])@ == x,
            forall|k: int| 0 <= k < undeclared.len() ==> u.contains((#[trigger] undeclared@[k])@),
            forall|a: int, b: int| 0 <= a < b < undeclared.len() ==> (#[trigger] undeclared@[a])@ != (#[trigger] undeclared@[b])@,
            forall|k: int| 0 <= k < i && u.contains((#[trigger] free@[k])@) ==> exists|m: int| 0 <= m < undeclared.len() && (#[trigger] undeclared@[m])@ == free@[k]@,
        decreases free.len() - i,
    {
        let v = &free[i];
        proof {
            assert(pred_free_vars(return_type@.constraint).contains(v@));
        }
        let declared = symbol_table.lookup(v.as_str(), SymbolNamespace::Value).is_some();
        let ghost before = undeclared@;
        if !crate::names::str_eq(v.as_str(), "__self") && !declared {
            assert(u.contains(v@));
            let mut seen = false;
            let mut k: usize = 0;
            while k < undeclared.len()
                invariant
                    k <= undeclared.len(),
                    !seen ==> forall|m: int| 0 <= m < k ==> (#[trigger] undeclared@[m])@ != v@,
                    seen ==> exists|m: int| 0 <= m < undeclared.len() && (#[trigger] undeclared@[m])@ == v@,
                decreases undeclared.len() - k,
            {
                if crate::names::str_eq(undeclared[k].as_str(), v.as_str()) {
                    seen = true;
                }
                k = k + 1;
            }
            if !seen {
                proof {
                    assert(pred_free_vars(return_type@.constraint).contains(v@));
                }
                undeclared.push(v.clone());
                proof {
                    assert(undeclared@.last()@ == v@);
                    assert(forall|m: int| 0 <= m < before.len() ==> undeclared@[m] == before[m]);
                }
            }
        } else {
            assert(!u.contains(v@));
        }
        proof {
            assert forall|k: int| 0 <= k < i + 1 && u.contains((#[trigger] free@[k])@) implies exists|m: int| 0 <= m < undeclared.len() && (#[trigger] undeclared@[m])@ == free@[k]@ by {
                if k < i {
                    let m = choose|m: int| 0 <= m < before.len() && (#[trigger] before[m])@ == free@[k]@;
                    assert(undeclared@[m] == before[m]);
                }
            }
        }
        i = i + 1;
    }
    proof {
        assert forall|x: Seq<char>| u.contains(x) implies exists|m: int| 0 <= m < undeclared.len() && (#[trigger] undeclared@[m])@ == x by {
            let k = choose|k: int| 0 <= k < free.len() && (#[trigger] free@[k])@ == x;
        }
    }
    if undeclared.len() == 1 {
        proof {
            assert(u =~= set![undeclared@[0]@]);
            assert forall|x: Seq<char>| u == set![x] implies x == undeclared@[0]@ by {
                assert(u.contains(undeclared@[0]@));
            }
        }
        let mut subst: StrMap<String> = StrMap::new();
        subst.insert(undeclared[0].clone(), String::from_str("__self"));
        proof {
            assert(subst@ =~= map![undeclared@[0]@ => self_binder()]);
        }
        let constraint = return_type.constraint.substitute_vars(&subst);
        Ok(Type {
            base: return_type.base.clone(),
            binder: return_type.binder.clone(),
            constraint,
            explicit_annotation: return_type.explicit_annotation,
            source_ref: return_type.source_ref,
        })
    } else if undeclared.len() > 1 {
        proof {
            assert(u.contains(undeclared@[0]@) && u.contains(undeclared@[1]@));
            assert forall|x: Seq<char>| u == set![x] implies false by {
                assert(u.contains(undeclared@[0]@) && u.contains(undeclared@[1]@));
            }
        }
        Err(MerakError::SemanticError(located_message(
            "Ambiguous binder in return type refinement: more than one variable, such as '",
            undeclared[0].as_str(),
            "', is not declared in scope. Expected exactly one binder variable. Use explicit binder syntax like {v: int | v > 0}",
            return_type.source_ref,
        )))
    } else {
        proof {
            assert(u =~= Set::<Seq<char>>::empty());
        }
        Ok(return_type.clone())
    }
}

// ---------------------------------------------------------------------------
// Declarations in blocks
// ---------------------------------------------------------------------------

/// Whether `b` is `a` with more elements after.
pub open spec fn extends<T>(a: Seq<T>, b: Seq<T>) -> bool {
    a.len() <= b.len() && b.subrange(0, a.len() as int) == a
}

/// Whether the table grew only at its innermost scope: the outer scopes are
/// those of before, the innermost scope, the symbols and the references
/// only have entries added after the old ones.
pub open spec fn grows_in_scope(a: SymbolTable, b: SymbolTable) -> bool {
    &&& a.scopes@.len() == b.scopes@.len()
    &&& a.scopes@.len() > 0
    &&& b.scopes@.drop_last() == a.scopes@.drop_last()
    &&& extends(a.scopes@.last()@, b.scopes@.last()@)
    &&& extends(a.symbols@, b.symbols@)
    &&& extends(a.references@, b.references@)
    &&& b.expr_types@ == a.expr_types@
}

proof fn lemma_extends_refl<T>(a: Seq<T>)
    ensures
        extends(a, a),
{
    assert(a.subrange(0, a.len() as int) =~= a);
}

proof fn lemma_extends_trans<T>(a: Seq<T>, b: Seq<T>, c: Seq<T>)
    requires
        extends(a, b),
        extends(b, c),
    ensures
        extends(a, c),
{
    assert(c.subrange(0, a.len() as int) =~= b.subrange(0, a.len() as int));
}

proof fn lemma_extends_push<T>(a: Seq<T>, x: T)
    ensures
        extends(a, a.push(x)),
{
    assert(a.push(x).subrange(0, a.len() as int) =~= a);
}

proof fn lemma_grows_refl(a: SymbolTable)
    requires
        a.scopes@.len() > 0,
    ensures
        grows_in_scope(a, a),
{
    lemma_extends_refl(a.scopes@.last()@);
    lemma_extends_refl(a.symbols@);
    lemma_extends_refl(a.references@);
}

proof fn lemma_grows_trans(a: SymbolTable, b: SymbolTable, c: SymbolTable)
    requires
        grows_in_scope(a, b),
        grows_in_scope(b, c),
    ensures
        grows_in_scope(a, c),
{
    lemma_extends_trans(a.scopes@.last()@, b.scopes@.last()@, c.scopes@.last()@);
    lemma_extends_trans(a.symbols@, b.symbols@, c.symbols@);
    lemma_extends_trans(a.references@, b.references@, c.references@);
}

proof fn lemma_grows_from_references(a: SymbolTable, b: SymbolTable)
    requires
        only_references_added(a, b),
        a.scopes@.len() > 0,
    ensures
        grows_in_scope(a, b),
{
    lemma_extends_refl(a.scopes@.last()@);
    lemma_extends_refl(a.symbols@);
}

proof fn lemma_errors_extend(a: Seq<MerakError>, b: Seq<MerakError>, u: Seq<Unresolved>)
    requires
        reported_after(a, b, u),
    ensures
        extends(a, b),
{
}

/// The path of a declaration inside `path`.
fn extend_path(path: &Vec<String>, name: &String) -> (r: Vec<String>)
    ensures
        strings_view(r@) == strings_view(path@).push(name@),
        r@.len() == path@.len() + 1,
{
    let mut out: Vec<String> = Vec::new();
    let mut i: usize = 0;
    while i < path.len()
        invariant
            i <= path.len(),
            out@.len() == i,
            forall|k: int| 0 <= k < i ==> (#[trigger] out@[k])@ == path@[k]@,
        decreases path.len() - i,
    {
        out.push(path[i].clone());
        i = i + 1;
    }
    out.push(name.clone());
    proof {
        assert(strings_view(out@) =~= strings_view(path@).push(name@));
    }
    out
}

fn clone_type_option(t: &Option<Type>) -> (r: Option<Type>)
    ensures
        r is Some <==> t is Some,
        r is Some ==> r->0@ == t->0@,
{
    match t {
        Some(x) => Some(x.clone()),
        None => None,
    }
}

/// Whether a declaration of `name` at `node`, under `path`, was added to
/// the innermost scope as a local variable of that type.
pub open spec fn declared_local(a: SymbolTable, b: SymbolTable, path: Seq<String>, name: Seq<char>, node: NodeId, ty: Option<Type>) -> bool {
    &&& b.symbols@.len() == a.symbols@.len() + 1
    &&& b.symbols@.last().0@ == SymbolIdV::Named(name, node.0)
    &&& strings_view(b.symbols@.last().1.qualified_name@) == strings_view(path).push(name)
    &&& b.symbols@.last().1.kind is LocalVar
    &&& b.symbols@.last().1.node_id == node
    &&& (b.symbols@.last().1.ty is Some <==> ty is Some)
    &&& (ty is Some ==> b.symbols@.last().1.ty->0@ == ty->0@)
}

/// Declares a local variable or constant: reports an `old(..)` in its type,
/// resolves its initializer, and adds it to the innermost scope.
fn declare_local(
    name: &String,
    ty: &Option<Type>,
    expr: &Expression,
    id: NodeId,
    path: &Vec<String>,
    symbol_table: &mut SymbolTable,
    errors: &mut Vec<MerakError>,
)
    requires
        old(symbol_table).scopes@.len() > 0,
    ensures
        grows_in_scope(*old(symbol_table), *final(symbol_table)),
        extends(old(errors)@, final(errors)@),
        ty is Some && pred_contains_old(ty->0@.constraint) ==> final(errors)@.len() > old(errors)@.len() && final(errors)@[old(
            errors,
        )@.len() as int] == (MerakError::OldInvalidUse { source_ref: ty->0.source_ref }),
        !bound_in_current(*old(symbol_table), name@, SymbolNamespace::Value) ==> declared_local(
            *old(symbol_table),
            *final(symbol_table),
            path@,
            name@,
            id,
            *ty,
        ),
        bound_in_current(*old(symbol_table), name@, SymbolNamespace::Value) ==> final(errors)@.last() is DuplicateSymbol,
{
    let ghost t0 = *symbol_table;
    let ghost e0 = errors@;
    proof {
        lemma_extends_refl(errors@);
    }
    match ty {
        Some(t) => {
            if t.constraint.contains_old() {
                push_error(errors, MerakError::OldInvalidUse { source_ref: t.source_ref });
                proof {
                    lemma_extends_push(e0, errors@.last());
                }
            }
        },
        None => {},
    }
    let ghost e1 = errors@;
    resolve_names_in_expression(expr, symbol_table, errors);
    proof {
        lemma_errors_extend(e1, errors@, unresolved(expr@, t0));
        lemma_extends_trans(e0, e1, errors@);
        lemma_grows_from_references(t0, *symbol_table);
        lemma_same_lookups(t0, *symbol_table);
        if ty is Some && pred_contains_old(ty->0@.constraint) {
            assert(errors@[e0.len() as int] == e1[e0.len() as int]);
        }
    }
    let ghost t1 = *symbol_table;
    let ghost e2 = errors@;
    let qname = extend_path(path, name);
    let ghost qv = qname@;
    proof {
        assert(strings_view(qv)[qv.len() - 1] == qv.last()@);
        assert(qv.last()@ == name@);
    }
    match symbol_table.add_symbol(id, qname, SymbolKind::LocalVar, clone_type_option(ty)) {
        Ok(_) => {
            proof {
                lemma_extends_refl(t1.references@);
                lemma_extends_push(t1.scopes@.last()@, symbol_table.scopes@.last()@.last());
                assert(symbol_table.scopes@.last()@ =~= t1.scopes@.last()@.push(symbol_table.scopes@.last()@.last()));
                lemma_extends_push(t1.symbols@, symbol_table.symbols@.last());
                assert(symbol_table.symbols@ =~= t1.symbols@.push(symbol_table.symbols@.last()));
                lemma_grows_trans(t0, t1, *symbol_table);
                assert(bound_in_current(t0, name@, SymbolNamespace::Value) == bound_in_current(t1, name@, SymbolNamespace::Value));
            }
        },
        Err(e) => {
            push_error(errors, e);
            proof {
                lemma_extends_push(e2, errors@.last());
                lemma_extends_trans(e0, e2, errors@);
                lemma_grows_refl(t1);
                assert(bound_in_current(t0, name@, SymbolNamespace::Value) == bound_in_current(t1, name@, SymbolNamespace::Value));
                if ty is Some && pred_contains_old(ty->0@.constraint) {
                    assert(errors@[e0.len() as int] == e2[e0.len() as int]);
                }
            }
        },
    }
}

/// Resolves a statement under `path` (the qualified name of the enclosing
/// function or constructor): names used are resolved, declarations are added
/// to the innermost scope, and nested blocks get scopes of their own.
#[verifier::loop_isolation(false)]
fn collect_and_resolve_statement(statement: &Statement, path: &Vec<String>, symbol_table: &mut SymbolTable, errors: &mut Vec<MerakError>)
    requires
        old(symbol_table).scopes@.len() > 0,
    ensures
        grows_in_scope(*old(symbol_table), *final(symbol_table)),
        extends(old(errors)@, final(errors)@),
        match *statement {
            Statement::Expression(e, _, _) | Statement::Return(Some(e), _, _) => {
                &&& only_references_added(*old(symbol_table), *final(symbol_table))
                &&& reported_after(old(errors)@, final(errors)@, unresolved(e@, *old(symbol_table)))
            },
            Statement::Return(None, _, _) => *final(symbol_table) == *old(symbol_table) && final(errors)@ == old(errors)@,
            Statement::Assignment { target, expr, id, source_ref } => {
                &&& final(symbol_table).symbols@ == old(symbol_table).symbols@
                &&& final(symbol_table).scopes@ == old(symbol_table).scopes@
                &&& reported_after(
                    old(errors)@,
                    final(errors)@,
                    unresolved(expr@, *old(symbol_table)) + if lookup_spec(*old(symbol_table), target@, SymbolNamespace::Value) is None {
                        seq![(false, target@, source_ref)]
                    } else {
                        Seq::empty()
                    },
                )
            },
            Statement::If { condition, .. } | Statement::While { condition, .. } => {
                &&& final(symbol_table).scopes@ == old(symbol_table).scopes@
                &&& reported_first(old(errors)@, final(errors)@, unresolved(condition@, *old(symbol_table)))
            },
            Statement::VarDeclaration { name, ty, id, .. } | Statement::ConstDeclaration { name, ty, id, .. } => {
                &&& !bound_in_current(*old(symbol_table), name@, SymbolNamespace::Value) ==> declared_local(
                    *old(symbol_table),
                    *final(symbol_table),
                    path@,
                    name@,
                    id,
                    ty,
                )
                &&& bound_in_current(*old(symbol_table), name@, SymbolNamespace::Value) ==> final(errors)@.last() is DuplicateSymbol
            },
        },
    decreases *statement,
{
    let ghost t0 = *symbol_table;
    let ghost e0 = errors@;
    proof {
        lemma_extends_refl(errors@);
        lemma_grows_refl(*symbol_table);
    }
    match statement {
        Statement::VarDeclaration { name, ty, id, expr, .. } => {
            declare_local(name, ty, expr, *id, path, symbol_table, errors);
        },
        Statement::ConstDeclaration { name, ty, id, expr, .. } => {
            declare_local(name, ty, expr, *id, path, symbol_table, errors);
        },
        Statement::Assignment { target, expr, id, source_ref } => {
            resolve_names_in_expression(expr, symbol_table, errors);
            let ghost t1 = *symbol_table;
            let ghost e1 = errors@;
            proof {
                lemma_same_lookups(t0, t1);
            }
            let found = symbol_table.resolve_reference(*id, target.as_str(), SymbolNamespace::Value);
            let ghost tail = if found is None {
                seq![(false, target@, *source_ref)]
            } else {
                Seq::<Unresolved>::empty()
            };
            if found.is_none() {
                push_error(errors, MerakError::UndefinedVariable { name: target.clone(), source_ref: *source_ref });
                proof {
                    assert(errors@.subrange(0, e1.len() as int) =~= e1);
                    assert(errors@.subrange(e1.len() as int, errors@.len() as int) =~= seq![errors@.last()]);
                }
            } else {
                proof {
                    lemma_reported_refl(e1);
                }
            }
            proof {
                assert(symbol_table.references@.subrange(0, t1.references@.len() as int) =~= t1.references@);
                assert(only_references_added(t1, *symbol_table));
                lemma_only_references_trans(t0, t1, *symbol_table);
                lemma_reported_concat(e0, e1, errors@, unresolved(expr@, t0), tail);
                lemma_grows_from_references(t0, *symbol_table);
            }
        },
        Statement::If { condition, then_block, else_block, .. } => {
            resolve_names_in_expression(condition, symbol_table, errors);
            let ghost t1 = *symbol_table;
            proof {
                lemma_grows_from_references(t0, t1);
                lemma_errors_extend(e0, errors@, unresolved(condition@, t0));
            }
            let ghost e1 = errors@;
            symbol_table.push_scope();
            let ghost t2 = *symbol_table;
            collect_and_resolve_block(then_block, path, symbol_table, errors);
            symbol_table.pop_scope();
            proof {
                assert(symbol_table.scopes@ =~= t1.scopes@);
                lemma_extends_refl(t1.symbols@);
                lemma_extends_refl(t1.references@);
                lemma_extends_trans(t1.symbols@, t2.symbols@, symbol_table.symbols@);
                lemma_extends_trans(t1.references@, t2.references@, symbol_table.references@);
                lemma_extends_trans(e0, e1, errors@);
            }
            let ghost t3 = *symbol_table;
            let ghost e3 = errors@;
            match else_block {
                Some(else_blk) => {
                    symbol_table.push_scope();
                    let ghost t4 = *symbol_table;
                    collect_and_resolve_block(else_blk, path, symbol_table, errors);
                    symbol_table.pop_scope();
                    proof {
                        assert(symbol_table.scopes@ =~= t3.scopes@);
                        lemma_extends_trans(e0, e3, errors@);
                        lemma_extends_refl(t3.symbols@);
                        lemma_extends_refl(t3.references@);
                        lemma_extends_trans(t3.symbols@, t4.symbols@, symbol_table.symbols@);
                        lemma_extends_trans(t3.references@, t4.references@, symbol_table.references@);
                        lemma_extends_trans(t1.symbols@, t3.symbols@, symbol_table.symbols@);
                        lemma_extends_trans(t1.references@, t3.references@, symbol_table.references@);
                    }
                },
                None => {
                    proof {
                        lemma_extends_refl(e3);
                    }
                },
            }
            proof {
                lemma_extends_refl(t0.scopes@.last()@);
                lemma_extends_trans(t0.symbols@, t1.symbols@, symbol_table.symbols@);
                lemma_extends_trans(t0.references@, t1.references@, symbol_table.references@);
                lemma_extends_trans(e1, e3, errors@);
                assert(reported_after(e0, e1, unresolved(condition@, t0)) && extends(e1, errors@));
            }
        },
        Statement::While { condition, body, .. } => {
            resolve_names_in_expression(condition, symbol_table, errors);
            let ghost t1 = *symbol_table;
            proof {
                lemma_grows_from_references(t0, t1);
                lemma_errors_extend(e0, errors@, unresolved(condition@, t0));
            }
            let ghost e1 = errors@;
            symbol_table.push_scope();
            let ghost t2 = *symbol_table;
            collect_and_resolve_block(body, path, symbol_table, errors);
            symbol_table.pop_scope();
            proof {
                assert(symbol_table.scopes@ =~= t1.scopes@);
                lemma_extends_trans(e0, e1, errors@);
                lemma_extends_refl(t1.symbols@);
                lemma_extends_refl(t1.references@);
                lemma_extends_trans(t1.symbols@, t2.symbols@, symbol_table.symbols@);
                lemma_extends_trans(t1.references@, t2.references@, symbol_table.references@);
                lemma_extends_refl(t0.scopes@.last()@);
                lemma_extends_trans(t0.symbols@, t1.symbols@, symbol_table.symbols@);
                lemma_extends_trans(t0.references@, t1.references@, symbol_table.references@);
                assert(reported_after(e0, e1, unresolved(condition@, t0)) && extends(e1, errors@));
            }
        },
        Statement::Return(expr, ..) => {
            match expr {
                Some(e) => {
                    resolve_names_in_expression(e, symbol_table, errors);
                    proof {
                        lemma_grows_from_references(t0, *symbol_table);
                        lemma_errors_extend(e0, errors@, unresolved(e@, t0));
                    }
                },
                None => {},
            }
        },
        Statement::Expression(expr, ..) => {
            resolve_names_in_expression(expr, symbol_table, errors);
            proof {
                lemma_grows_from_references(t0, *symbol_table);
                lemma_errors_extend(e0, errors@, unresolved(expr@, t0));
            }
        },
    }
}

/// Resolves the statements of a block in order, in the innermost scope.
#[verifier::loop_isolation(false)]
fn collect_and_resolve_block(block: &Block, path: &Vec<String>, symbol_table: &mut SymbolTable, errors: &mut Vec<MerakError>)
    requires
        old(symbol_table).scopes@.len() > 0,
    ensures
        grows_in_scope(*old(symbol_table), *final(symbol_table)),
        extends(old(errors)@, final(errors)@),
    decreases *block,
{
    proof {
        lemma_extends_refl(errors@);
        lemma_grows_refl(*symbol_table);
    }
    let mut i: usize = 0;
    while i < block.statements.len()
        invariant
            i <= block.statements.len(),
            grows_in_scope(*old(symbol_table), *symbol_table),
            extends(old(errors)@, errors@),
        decreases block.statements.len() - i,
    {
        proof {
            broadcast use vstd::std_specs::vec::group_vec_axioms;
            assert(decreases_to!(block.statements => block.statements[i as int]));
        }
        let ghost t1 = *symbol_table;
        let ghost e1 = errors@;
        collect_and_resolve_statement(&block.statements[i], path, symbol_table, errors);
        proof {
            lemma_grows_trans(*old(symbol_table), t1, *symbol_table);
            lemma_extends_trans(old(errors)@, e1, errors@);
        }
        i = i + 1;
    }
}

// ---------------------------------------------------------------------------
// Functions
// ---------------------------------------------------------------------------

/// Whether a symbol kind is the one a function with these modifiers gets:
/// an entrypoint for an entrypoint, else a function of that visibility, with
/// that reentrancy mode.
pub open spec fn function_kind(k: SymbolKind, f: Function, m: Modifier) -> bool {
    if f.visibility == Visibility::Entrypoint {
        k is Entrypoint && k->Entrypoint_reentrancy == m
    } else {
        k is Function && k->Function_reentrancy == m && k->Function_visibility == f.visibility
    }
}

/// Declares the parameters of a function or constructor, named under `path`,
/// in the innermost scope.
fn declare_params(params: &Vec<Param>, path: &Vec<String>, symbol_table: &mut SymbolTable, errors: &mut Vec<MerakError>)
    requires
        old(symbol_table).scopes@.len() > 0,
    ensures
        grows_in_scope(*old(symbol_table), *final(symbol_table)),
        extends(old(errors)@, final(errors)@),
{
    proof {
        lemma_extends_refl(errors@);
        lemma_grows_refl(*symbol_table);
    }
    let mut i: usize = 0;
    while i < params.len()
        invariant
            i <= params.len(),
            grows_in_scope(*old(symbol_table), *symbol_table),
            extends(old(errors)@, errors@),
        decreases params.len() - i,
    {
        let param = &params[i];
        let ghost e1 = errors@;
        if param.ty.constraint.contains_old() {
            push_error(errors, MerakError::OldInvalidUse { source_ref: param.source_ref });
            proof {
                lemma_extends_push(e1, errors@.last());
                lemma_extends_trans(old(errors)@, e1, errors@);
            }
        }
        let qname = extend_path(path, &param.name);
        let ghost t1 = *symbol_table;
        let ghost e2 = errors@;
        match symbol_table.add_symbol(param.id, qname, SymbolKind::Parameter, Some(param.ty.clone())) {
            Ok(_) => {
                proof {
                    lemma_extends_refl(t1.references@);
                    lemma_extends_push(t1.scopes@.last()@, symbol_table.scopes@.last()@.last());
                    assert(symbol_table.scopes@.last()@ =~= t1.scopes@.last()@.push(symbol_table.scopes@.last()@.last()));
                    lemma_extends_push(t1.symbols@, symbol_table.symbols@.last());
                    assert(symbol_table.symbols@ =~= t1.symbols@.push(symbol_table.symbols@.last()));
                    lemma_grows_trans(*old(symbol_table), t1, *symbol_table);
                }
            },
            Err(e) => {
                push_error(errors, e);
                proof {
                    lemma_extends_push(e2, errors@.last());
                    lemma_extends_trans(old(errors)@, e2, errors@);
                }
            },
        }
        i = i + 1;
    }
}

/// Declares a function in the innermost scope (the contract's), then resolves
/// its parameters and body in a scope of its own, and makes the binder of
/// its return type the value itself. `old(..)` in a precondition or a
/// parameter type is reported; invalid modifiers stop at the first error.
fn collect_and_resolve_function(function: &Function, contract_name: String, symbol_table: &mut SymbolTable, errors: &mut Vec<MerakError>)
    requires
        old(symbol_table).scopes@.len() > 0,
    ensures
        grows_in_scope(*old(symbol_table), *final(symbol_table)),
        extends(old(errors)@, final(errors)@),
        validated_modifier(function.visibility, function.modifiers@) is None ==> {
            &&& *final(symbol_table) == *old(symbol_table)
            &&& final(errors)@.len() > old(errors)@.len()
            &&& final(errors)@.last() is SemanticError
        },
        (validated_modifier(function.visibility, function.modifiers@) is Some && !bound_in_current(
            *old(symbol_table),
            function.name@,
            SymbolNamespace::Callable,
        )) ==> {
            let m = validated_modifier(function.visibility, function.modifiers@)->0;
            let e = final(symbol_table).symbols@[old(symbol_table).symbols@.len() as int];
            &&& final(symbol_table).symbols@.len() > old(symbol_table).symbols@.len()
            &&& e.0@ == SymbolIdV::Named(function.name@, function.id.0)
            &&& strings_view(e.1.qualified_name@) == seq![contract_name@, function.name@]
            &&& e.1.node_id == function.id
            &&& function_kind(e.1.kind, *function, m)
        },
{
    let ghost t0 = *symbol_table;
    let ghost e0 = errors@;
    proof {
        lemma_extends_refl(errors@);
    }
    let mut k: usize = 0;
    while k < function.requires.len()
        invariant
            k <= function.requires.len(),
            extends(e0, errors@),
            *symbol_table == t0,
        decreases function.requires.len() - k,
    {
        let ghost e1 = errors@;
        if function.requires[k].contains_old() {
            push_error(errors, MerakError::OldInvalidUse { source_ref: *function.requires[k].source_ref() });
            proof {
                lemma_extends_push(e1, errors@.last());
                lemma_extends_trans(e0, e1, errors@);
            }
        }
        k = k + 1;
    }
    let mut func_qname: Vec<String> = Vec::new();
    func_qname.push(contract_name.clone());
    func_qname.push(function.name.clone());
    let ghost qv = func_qname@;
    proof {
        assert(strings_view(qv) =~= seq![contract_name@, function.name@]);
    }
    let reentrancy = match validate_modifiers(function) {
        Ok(r) => r,
        Err(e) => {
            let ghost e1 = errors@;
            push_error(errors, e);
            proof {
                lemma_extends_push(e1, errors@.last());
                lemma_extends_trans(e0, e1, errors@);
                lemma_grows_refl(t0);
            }
            return;
        },
    };
    let return_type = match &function.return_type {
        Some(t) => t.clone(),
        None => Type::empty_tuple(String::from_str("__self")),
    };
    let kind = if function.visibility == Visibility::Entrypoint {
        SymbolKind::Entrypoint {
            reentrancy,
            parameters: clone_params(&function.params),
            ensures: clone_preds(&function.ensures),
            requires: clone_preds(&function.requires),
            return_type,
        }
    } else {
        SymbolKind::Function {
            visibility: function.visibility,
            reentrancy,
            parameters: clone_params(&function.params),
            ensures: clone_preds(&function.ensures),
            requires: clone_preds(&function.requires),
            return_type,
        }
    };
    let ghost k0 = kind;
    let position = symbol_table.symbols.len();
    let ghost e2 = errors@;
    let added = match symbol_table.add_symbol(function.id, func_qname, kind, clone_type_option(&function.return_type)) {
        Ok(_) => {
            proof {
                lemma_extends_refl(t0.references@);
                lemma_extends_push(t0.scopes@.last()@, symbol_table.scopes@.last()@.last());
                assert(symbol_table.scopes@.last()@ =~= t0.scopes@.last()@.push(symbol_table.scopes@.last()@.last()));
                lemma_extends_push(t0.symbols@, symbol_table.symbols@.last());
                assert(symbol_table.symbols@ =~= t0.symbols@.push(symbol_table.symbols@.last()));
                assert(qv.last() == function.name);
            }
            true
        },
        Err(e) => {
            push_error(errors, e);
            proof {
                lemma_extends_push(e2, errors@.last());
                lemma_extends_trans(e0, e2, errors@);
                lemma_grows_refl(t0);
            }
            false
        },
    };
    let ghost t1 = *symbol_table;
    let ghost entry = symbol_table.symbols@[position as int];
    proof {
        if added {
            assert(entry.1.kind == k0);
        }
    }
    symbol_table.push_scope();
    let ghost t2 = *symbol_table;
    let mut path: Vec<String> = Vec::new();
    path.push(contract_name.clone());
    path.push(function.name.clone());
    let ghost e3 = errors@;
    proof {
        lemma_extends_refl(t1.symbols@);
        lemma_extends_refl(t1.references@);
        if added {
            lemma_extends_refl(e2);
        }
        assert(extends(e0, e3));
    }
    declare_params(&function.params, &path, symbol_table, errors);
    let ghost t3 = *symbol_table;
    let ghost e4 = errors@;
    collect_and_resolve_block(&function.body, &path, symbol_table, errors);
    proof {
        lemma_grows_trans(t2, t3, *symbol_table);
        lemma_extends_trans(e0, e3, e4);
        lemma_extends_trans(e0, e4, errors@);
    }
    let ghost e5 = errors@;
    let ghost t4 = *symbol_table;
    if added {
        match &function.return_type {
            Some(rt) => {
                match normalize_return_type_binder(rt, symbol_table) {
                    Ok(normalized) => {
                        proof {
                            assert(extends(t2.symbols@, t4.symbols@));
                            assert(t4.symbols@[position as int] == t2.symbols@[position as int]);
                        }
                        symbol_table.set_return_type_at(position, normalized);
                        proof {
                            assert(symbol_table.symbols@.subrange(0, t0.symbols@.len() as int) =~= t4.symbols@.subrange(0, t0.symbols@.len() as int));
                            assert(symbol_table.scopes@ == t4.scopes@);
                        }
                    },
                    Err(e) => {
                        push_error(errors, e);
                        proof {
                            lemma_extends_push(e5, errors@.last());
                            lemma_extends_trans(e0, e5, errors@);
                        }
                    },
                }
            },
            None => {},
        }
    }
    symbol_table.pop_scope();
    proof {
        assert(symbol_table.scopes@ =~= t1.scopes@);
        lemma_extends_trans(t0.symbols@, t1.symbols@, t2.symbols@);
        lemma_extends_trans(t0.symbols@, t2.symbols@, t4.symbols@);
        assert(symbol_table.symbols@.subrange(0, t0.symbols@.len() as int) =~= t4.symbols@.subrange(0, t0.symbols@.len() as int));
        lemma_extends_trans(t0.references@, t1.references@, t2.references@);
        lemma_extends_trans(t0.references@, t2.references@, symbol_table.references@);
    }
}

/// Declares an entry `(node, qualified name, kind, type)` in the innermost
/// scope, reporting a refused declaration.
fn declare(
    node: NodeId,
    qname: Vec<String>,
    kind: SymbolKind,
    ty: Option<Type>,
    symbol_table: &mut SymbolTable,
    errors: &mut Vec<MerakError>,
) -> (r: Option<crate::ir::SymbolId>)
    requires
        old(symbol_table).scopes@.len() > 0,
        qname@.len() > 0,
    ensures
        grows_in_scope(*old(symbol_table), *final(symbol_table)),
        extends(old(errors)@, final(errors)@),
        !bound_in_current(*old(symbol_table), qname@.last()@, crate::symbols::namespace_of(kind)) ==> {
            &&& r is Some
            &&& r->0@ == SymbolIdV::Named(qname@.last()@, node.0)
            &&& final(symbol_table).symbols@ == old(symbol_table).symbols@.push(final(symbol_table).symbols@.last())
            &&& final(symbol_table).symbols@.last().0@ == SymbolIdV::Named(qname@.last()@, node.0)
            &&& final(symbol_table).symbols@.last().1 == (SymbolInfo { qualified_name: qname, kind, ty, node_id: node })
            &&& final(errors)@ == old(errors)@
        },
        bound_in_current(*old(symbol_table), qname@.last()@, crate::symbols::namespace_of(kind)) ==> {
            &&& r is None
            &&& final(symbol_table).symbols@ == old(symbol_table).symbols@
            &&& final(errors)@.len() == old(errors)@.len() + 1
            &&& final(errors)@.last() is DuplicateSymbol
        },
{
    let ghost t0 = *symbol_table;
    let ghost e0 = errors@;
    let ghost last = qname@.last();
    match symbol_table.add_symbol(node, qname, kind, ty) {
        Ok(id) => {
            proof {
                lemma_extends_refl(t0.references@);
                lemma_extends_refl(e0);
                lemma_extends_push(t0.scopes@.last()@, symbol_table.scopes@.last()@.last());
                assert(symbol_table.scopes@.last()@ =~= t0.scopes@.last()@.push(symbol_table.scopes@.last()@.last()));
                lemma_extends_push(t0.symbols@, symbol_table.symbols@.last());
                assert(symbol_table.symbols@ =~= t0.symbols@.push(symbol_table.symbols@.last()));
            }
            Some(id)
        },
        Err(e) => {
            push_error(errors, e);
            proof {
                lemma_extends_push(e0, errors@.last());
                lemma_grows_refl(t0);
            }
            None
        },
    }
}

/// Declares the interfaces of a file, each with its function signatures, in
/// the innermost scope.
fn collect_and_resolve_interfaces(file: &File, symbol_table: &mut SymbolTable, errors: &mut Vec<MerakError>)
    requires
        old(symbol_table).scopes@.len() > 0,
    ensures
        grows_in_scope(*old(symbol_table), *final(symbol_table)),
        extends(old(errors)@, final(errors)@),
{
    proof {
        lemma_extends_refl(errors@);
        lemma_grows_refl(*symbol_table);
    }
    let mut i: usize = 0;
    while i < file.interfaces.len()
        invariant
            i <= file.interfaces.len(),
            grows_in_scope(*old(symbol_table), *symbol_table),
            extends(old(errors)@, errors@),
        decreases file.interfaces.len() - i,
    {
        let interface = &file.interfaces[i];
        let mut symbols: Vec<crate::ir::SymbolId> = Vec::new();
        let mut j: usize = 0;
        while j < interface.functions.len()
            invariant
                j <= interface.functions.len(),
                grows_in_scope(*old(symbol_table), *symbol_table),
                extends(old(errors)@, errors@),
            decreases interface.functions.len() - j,
        {
            let f = &interface.functions[j];
            let mut qname: Vec<String> = Vec::new();
            qname.push(file.contract.name.clone());
            qname.push(interface.name.clone());
            qname.push(f.name.clone());
            let return_type = match &f.return_type {
                Some(t) => t.clone(),
                None => Type::empty_tuple(String::from_str("__self")),
            };
            let ghost t1 = *symbol_table;
            let ghost e1 = errors@;
            let kind = SymbolKind::InterfaceFunction { params: clone_params(&f.params), return_type };
            match declare(f.id, qname, kind, None, symbol_table, errors) {
                Some(id) => symbols.push(id),
                None => symbols.push(crate::ir::SymbolId::Named(String::new(), 0)),
            }
            proof {
                lemma_grows_trans(*old(symbol_table), t1, *symbol_table);
                lemma_extends_trans(old(errors)@, e1, errors@);
            }
            j = j + 1;
        }
        let mut qname: Vec<String> = Vec::new();
        qname.push(file.contract.name.clone());
        qname.push(interface.name.clone());
        let ghost t1 = *symbol_table;
        let ghost e1 = errors@;
        let _ = declare(interface.id, qname, SymbolKind::Interface { functions: symbols }, None, symbol_table, errors);
        proof {
            lemma_grows_trans(*old(symbol_table), t1, *symbol_table);
            lemma_extends_trans(old(errors)@, e1, errors@);
        }
        i = i + 1;
    }
}

// ---------------------------------------------------------------------------
// Contracts
// ---------------------------------------------------------------------------

/// Resolves a storage declaration (a state variable or constant): reports an
/// `old(..)` in its type, resolves its initializer and declares it.
fn declare_storage(
    contract_name: &String,
    name: &String,
    ty: &Type,
    expr: &Expression,
    id: NodeId,
    source_ref: SourceRef,
    kind: SymbolKind,
    symbol_table: &mut SymbolTable,
    errors: &mut Vec<MerakError>,
)
    requires
        old(symbol_table).scopes@.len() > 0,
    ensures
        grows_in_scope(*old(symbol_table), *final(symbol_table)),
        extends(old(errors)@, final(errors)@),
{
    let ghost t0 = *symbol_table;
    let ghost e0 = errors@;
    proof {
        lemma_extends_refl(e0);
    }
    if ty.constraint.contains_old() {
        push_error(errors, MerakError::OldInvalidUse { source_ref });
        proof {
            lemma_extends_push(e0, errors@.last());
        }
    }
    let ghost e1 = errors@;
    resolve_names_in_expression(expr, symbol_table, errors);
    proof {
        lemma_errors_extend(e1, errors@, unresolved(expr@, t0));
        lemma_extends_trans(e0, e1, errors@);
        lemma_grows_from_references(t0, *symbol_table);
    }
    let mut qname: Vec<String> = Vec::new();
    qname.push(contract_name.clone());
    qname.push(name.clone());
    let ghost t1 = *symbol_table;
    let ghost e2 = errors@;
    let _ = declare(id, qname, kind, Some(ty.clone()), symbol_table, errors);
    proof {
        lemma_grows_trans(t0, t1, *symbol_table);
        lemma_extends_trans(e0, e2, errors@);
    }
}

/// Declares a contract and, in its scope, its state variables, constants,
/// constructor and functions. A function declared twice is reported; after
/// each function, the first error reported so far, if any, ends the work.
fn collect_and_resolve_contract(file: &File, symbol_table: &mut SymbolTable, errors: &mut Vec<MerakError>) -> (r: Result<
    (),
    MerakError,
>)
    requires
        old(symbol_table).scopes@.len() > 0,
    ensures
        r is Ok ==> grows_in_scope(*old(symbol_table), *final(symbol_table)),
        r is Ok ==> extends(old(errors)@, final(errors)@),
        r is Ok && file.contract.functions.len() > 0 ==> final(errors)@.len() == 0,
        r is Ok ==> forall|k: int| 0 <= k < file.contract.functions@.len() ==> validated_modifier(
            (#[trigger] file.contract.functions@[k]).visibility,
            file.contract.functions@[k].modifiers@,
        ) is Some,
        r is Ok ==> forall|j: int, k: int| 0 <= j < k < file.contract.functions@.len() ==> (#[trigger] file.contract.functions@[j]).name@
            != (#[trigger] file.contract.functions@[k]).name@,
        r is Err && old(errors)@.len() > 0 ==> r->Err_0 == old(errors)@[0],
        bound_in_current(*old(symbol_table), file.contract.name@, SymbolNamespace::Type) ==> r is Err || final(errors)@.len() > 0,
        !bound_in_current(*old(symbol_table), file.contract.name@, SymbolNamespace::Type) ==> {
            &&& final(symbol_table).symbols@.len() > old(symbol_table).symbols@.len()
            &&& final(symbol_table).symbols@[old(symbol_table).symbols@.len() as int].0@ == SymbolIdV::Named(
                file.contract.name@,
                file.contract.id.0,
            )
            &&& final(symbol_table).symbols@[old(symbol_table).symbols@.len() as int].1.kind is Contract
        },
{
    let contract = &file.contract;
    let contract_name = &contract.name;
    let ghost t0 = *symbol_table;
    let ghost e0 = errors@;
    let mut qname: Vec<String> = Vec::new();
    qname.push(contract_name.clone());
    let ghost qv = qname@;
    proof {
        assert(qv.last()@ == contract_name@);
    }
    let _ = declare(contract.id, qname, SymbolKind::Contract, None, symbol_table, errors);
    let ghost t1 = *symbol_table;
    let ghost declared_contract = !bound_in_current(t0, file.contract.name@, SymbolNamespace::Type);
    proof {
        if declared_contract {
            assert(t1.symbols@[t0.symbols@.len() as int] == t1.symbols@.last());
        }
    }
    proof {
        if old(errors)@.len() > 0 {
            assert(errors@[0] == e0[0]);
        }
    }
    symbol_table.push_scope();
    let ghost t2 = *symbol_table;
    let ghost e2 = errors@;
    proof {
        lemma_grows_refl(t2);
        lemma_extends_refl(e2);
    }
    let mut i: usize = 0;
    while i < contract.variables.len()
        invariant
            i <= contract.variables.len(),
            grows_in_scope(t2, *symbol_table),
            extends(e2, errors@),
        decreases contract.variables.len() - i,
    {
        let v = &contract.variables[i];
        let ghost t3 = *symbol_table;
        let ghost e3 = errors@;
        declare_storage(contract_name, &v.name, &v.ty, &v.expr, v.id, v.source_ref, SymbolKind::StateVar, symbol_table, errors);
        proof {
            lemma_grows_trans(t2, t3, *symbol_table);
            lemma_extends_trans(e2, e3, errors@);
        }
        i = i + 1;
    }
    let mut i: usize = 0;
    while i < contract.constants.len()
        invariant
            i <= contract.constants.len(),
            grows_in_scope(t2, *symbol_table),
            extends(e2, errors@),
        decreases contract.constants.len() - i,
    {
        let c = &contract.constants[i];
        let ghost t3 = *symbol_table;
        let ghost e3 = errors@;
        declare_storage(contract_name, &c.name, &c.ty, &c.expr, c.id, c.source_ref, SymbolKind::StateConst, symbol_table, errors);
        proof {
            lemma_grows_trans(t2, t3, *symbol_table);
            lemma_extends_trans(e2, e3, errors@);
        }
        i = i + 1;
    }
    match &contract.constructor {
        Some(constructor) => {
            let mut qname: Vec<String> = Vec::new();
            qname.push(contract_name.clone());
            qname.push(String::from_str("constructor"));
            let ghost t3 = *symbol_table;
            let ghost e3 = errors@;
            let _ = declare(
                constructor.id,
                qname,
                SymbolKind::ContractInit { contract: contract_name.clone() },
                None,
                symbol_table,
                errors,
            );
            proof {
                lemma_grows_trans(t2, t3, *symbol_table);
                lemma_extends_trans(e2, e3, errors@);
            }
            let ghost t4 = *symbol_table;
            let ghost e4 = errors@;
            symbol_table.push_scope();
            let ghost t5 = *symbol_table;
            let mut path: Vec<String> = Vec::new();
            path.push(contract_name.clone());
            path.push(String::from_str("constructor"));
            declare_params(&constructor.params, &path, symbol_table, errors);
            let ghost t6 = *symbol_table;
            let ghost e6 = errors@;
            collect_and_resolve_block(&constructor.body, &path, symbol_table, errors);
            proof {
                lemma_grows_trans(t5, t6, *symbol_table);
                lemma_extends_trans(e4, e6, errors@);
            }
            symbol_table.pop_scope();
            proof {
                assert(symbol_table.scopes@ =~= t4.scopes@);
                lemma_extends_refl(t4.scopes@.last()@);
                lemma_extends_refl(t4.symbols@);
                lemma_extends_refl(t4.references@);
                lemma_extends_trans(t4.symbols@, t5.symbols@, symbol_table.symbols@);
                lemma_extends_trans(t4.references@, t5.references@, symbol_table.references@);
                lemma_grows_trans(t2, t4, *symbol_table);
                lemma_extends_trans(e2, e4, errors@);
            }
        },
        None => {},
    }
    let mut declared = StrSet::new();
    let mut k: usize = 0;
    while k < contract.functions.len()
        invariant
            k <= contract.functions.len(),
            extends(e0, e2),
            e0 == old(errors)@,
            grows_in_scope(t2, *symbol_table),
            extends(e2, errors@),
            k > 0 ==> errors@.len() == 0,
            t2.symbols@ == t1.symbols@,
            t0 == *old(symbol_table),
            declared_contract == !bound_in_current(t0, file.contract.name@, SymbolNamespace::Type),
            !declared_contract ==> e2.len() > 0,
            declared_contract ==> t1.symbols@.len() > t0.symbols@.len() && t1.symbols@[t0.symbols@.len() as int].0@
                == SymbolIdV::Named(file.contract.name@, file.contract.id.0) && t1.symbols@[t0.symbols@.len() as int].1.kind is Contract,
            forall|j: int| 0 <= j < k ==> validated_modifier(
                (#[trigger] contract.functions@[j]).visibility,
                contract.functions@[j].modifiers@,
            ) is Some,
            forall|x: Seq<char>| declared@.contains(x) <==> exists|j: int| 0 <= j < k && (#[trigger] contract.functions@[j]).name@ == x,
            forall|a: int, b: int| 0 <= a < b < k ==> (#[trigger] contract.functions@[a]).name@ != (#[trigger] contract.functions@[b]).name@,
        decreases contract.functions.len() - k,
    {
        let function = &contract.functions[k];
        let ghost t3 = *symbol_table;
        let ghost e3 = errors@;
        if declared.contains(function.name.as_str()) {
            push_error(errors, MerakError::FunctionRedefinition { name: function.name.clone(), source_ref: function.source_ref });
            proof {
                lemma_extends_push(e3, errors@.last());
                lemma_extends_trans(e2, e3, errors@);
            }
        }
        let ghost e4 = errors@;
        collect_and_resolve_function(function, contract_name.clone(), symbol_table, errors);
        proof {
            lemma_grows_trans(t2, t3, *symbol_table);
            lemma_extends_trans(e2, e4, errors@);
        }
        if errors.len() > 0 {
            proof {
                lemma_extends_trans(e0, e2, errors@);
                if e0.len() > 0 {
                    assert(errors@.subrange(0, e0.len() as int)[0] == errors@[0]);
                }
                if declared_contract {
                    assert(symbol_table.symbols@.subrange(0, t2.symbols@.len() as int)[t0.symbols@.len() as int]
                        == symbol_table.symbols@[t0.symbols@.len() as int]);
                }
            }
            return Err(errors.swap_remove(0));
        }
        let ghost before = declared@;
        declared.insert(function.name.clone());
        proof {
            assert forall|x: Seq<char>| declared@.contains(x) implies exists|j: int| 0 <= j < k + 1 && (#[trigger] contract.functions@[j]).name@ == x by {
                if x != function.name@ {
                    assert(before.contains(x));
                } else {
                    assert(contract.functions@[k as int].name@ == x);
                }
            }
            assert forall|a: int, b: int| 0 <= a < b < k + 1 implies (#[trigger] contract.functions@[a]).name@ != (#[trigger] contract.functions@[b]).name@ by {
                if b == k {
                    if contract.functions@[a].name@ == function.name@ {
                        assert(before.contains(function.name@));
                    }
                }
            }
        }
        k = k + 1;
    }
    symbol_table.pop_scope();
    proof {
        assert(symbol_table.scopes@ =~= t1.scopes@.drop_last().push(symbol_table.scopes@.last()));
        assert(symbol_table.scopes@.last() == t1.scopes@.last());
        lemma_extends_refl(t1.scopes@.last()@);
        lemma_extends_refl(t1.symbols@);
        lemma_extends_refl(t1.references@);
        lemma_extends_trans(t1.symbols@, t2.symbols@, symbol_table.symbols@);
        lemma_extends_trans(t1.references@, t2.references@, symbol_table.references@);
        assert(grows_in_scope(t1, *symbol_table));
        lemma_grows_trans(t0, t1, *symbol_table);
        lemma_extends_trans(e0, e2, errors@);
        if !bound_in_current(t0, file.contract.name@, SymbolNamespace::Type) {
            assert(symbol_table.symbols@[t0.symbols@.len() as int] == t1.symbols@[t0.symbols@.len() as int]);
        }
    }
    Ok(())
}

// ---------------------------------------------------------------------------
// Programs
// ---------------------------------------------------------------------------

/// Whether a table has a contract symbol for a file's contract.
pub open spec fn declares_contract(t: SymbolTable, file: File) -> bool {
    exists|j: int| 0 <= j < t.symbols@.len() && (#[trigger] t.symbols@[j]).0@ == SymbolIdV::Named(
        file.contract.name@,
        file.contract.id.0,
    ) && t.symbols@[j].1.kind is Contract
}

/// Whether every function of a file's contract has valid modifiers and no
/// two of them share a name.
pub open spec fn functions_valid(file: File) -> bool {
    &&& forall|k: int| 0 <= k < file.contract.functions@.len() ==> validated_modifier(
        (#[trigger] file.contract.functions@[k]).visibility,
        file.contract.functions@[k].modifiers@,
    ) is Some
    &&& forall|j: int, k: int| 0 <= j < k < file.contract.functions@.len() ==> (#[trigger] file.contract.functions@[j]).name@
        != (#[trigger] file.contract.functions@[k]).name@
}

/// Resolves the names of a program's files in order (an import's alias is
/// bound to the contract it names; each file's interfaces and contract are
/// declared in the global scope, and what they declare inside in scopes of
/// their own) and then checks its base types. The first error found ends the
/// analysis. On success, the table declares the contract of every file,
/// and every function of every file has valid modifiers and a name of its own.
pub fn analyze(program: &Program) -> (r: Result<SymbolTable, MerakError>)
    ensures
        r is Ok ==> forall|i: int| 0 <= i < file_entries(program.files).len() ==> declares_contract(
            r->Ok_0,
            #[trigger] file_entries(program.files)[i].1,
        ),
        r is Ok ==> forall|i: int| 0 <= i < file_entries(program.files).len() ==> functions_valid(
            #[trigger] file_entries(program.files)[i].1,
        ),
        file_entries(program.files).len() == 0 ==> r is Ok,
{
    let mut errors: Vec<MerakError> = Vec::new();
    let mut symbol_table = SymbolTable::new();
    let count = file_count(&program.files);
    let mut i: usize = 0;
    while i < count
        invariant
            i <= count,
            count == file_entries(program.files).len(),
            symbol_table.scopes@.len() == 1,
            errors@.len() == 0,
            forall|k: int| 0 <= k < i ==> declares_contract(symbol_table, #[trigger] file_entries(program.files)[k].1),
            forall|k: int| 0 <= k < i ==> functions_valid(#[trigger] file_entries(program.files)[k].1),
        decreases count - i,
    {
        let file = match file_at(&program.files, i) {
            Some((_name, file)) => file,
            None => {
                return Err(MerakError::NameResolution { message: String::from_str("missing file") });
            },
        };
        let ghost t0 = symbol_table;
        proof {
            lemma_extends_refl(t0.symbols@);
        }
        let mut k: usize = 0;
        while k < file.imports.len()
            invariant
                k <= file.imports.len(),
                i < count,
                count == file_entries(program.files).len(),
                symbol_table.scopes@.len() == 1,
                extends(t0.symbols@, symbol_table.symbols@),
            decreases file.imports.len() - k,
        {
            let import = &file.imports[k];
            match &import.alias {
                Some(alias) => {
                    match symbol_table.lookup(import.contract_name.as_str(), SymbolNamespace::Type) {
                        Some(symbol_id) => {
                            let ghost t1 = symbol_table;
                            symbol_table.insert_alias(alias.clone(), SymbolNamespace::Type, symbol_id);
                            proof {
                                lemma_extends_refl(t1.symbols@);
                            }
                        },
                        None => {
                            return Err(MerakError::NameResolution {
                                message: String::from_str("Imported contract '").concat(import.contract_name.as_str()).concat(
                                    "' is not declared",
                                ),
                            });
                        },
                    }
                },
                None => {},
            }
            k = k + 1;
        }
        let ghost t1 = symbol_table;
        collect_and_resolve_interfaces(file, &mut symbol_table, &mut errors);
        let ghost t2 = symbol_table;
        match collect_and_resolve_contract(file, &mut symbol_table, &mut errors) {
            Ok(()) => {},
            Err(e) => {
                errors.push(e);
            },
        }
        if errors.len() > 0 {
            return Err(errors.swap_remove(0));
        }
        proof {
            assert forall|m: int| 0 <= m < i + 1 implies functions_valid(#[trigger] file_entries(program.files)[m].1) by {
            }
            lemma_extends_trans(t0.symbols@, t1.symbols@, t2.symbols@);
            lemma_extends_trans(t0.symbols@, t2.symbols@, symbol_table.symbols@);
            assert forall|m: int| 0 <= m < i + 1 implies declares_contract(symbol_table, #[trigger] file_entries(program.files)[m].1) by {
                if m < i {
                    let f = file_entries(program.files)[m].1;
                    let j = choose|j: int| 0 <= j < t0.symbols@.len() && (#[trigger] t0.symbols@[j]).0@ == SymbolIdV::Named(
                        f.contract.name@,
                        f.contract.id.0,
                    ) && t0.symbols@[j].1.kind is Contract;
                    assert(symbol_table.symbols@.subrange(0, t0.symbols@.len() as int)[j] == symbol_table.symbols@[j]);
                } else {
                    let j = t2.symbols@.len() as int;
                    assert(symbol_table.symbols@[j].0@ == SymbolIdV::Named(file.contract.name@, file.contract.id.0));
                }
            }
        }
        symbol_table.clean_scopes();
        i = i + 1;
    }
    let ghost t = symbol_table;
    let checker = Typechecker::new(symbol_table);
    let r = checker.check(program);
    proof {
        if r is Ok {
            let t2 = r->Ok_0;
            {
                assert forall|m: int| 0 <= m < count implies declares_contract(t2, #[trigger] file_entries(program.files)[m].1) by {
                    let f = file_entries(program.files)[m].1;
                    let j = choose|j: int| 0 <= j < t.symbols@.len() && (#[trigger] t.symbols@[j]).0@ == SymbolIdV::Named(
                        f.contract.name@,
                        f.contract.id.0,
                    ) && t.symbols@[j].1.kind is Contract;
                    assert(same_but_type(t.symbols@[j], t2.symbols@[j]));
                }
            }
        }
    }
    r
}

} // verus!
