use vstd::prelude::*;

use crate::ast::contract::{file_at, file_count, file_entries, Contract, Param, Program};
use crate::ast::expression::{BinaryOperator, Expression, ExpressionV, Literal, LiteralV, UnaryOperator};
use crate::ast::meta::SourceRef;
use crate::ast::node_id::NodeId;
use crate::ast::predicate::Predicate;
use crate::ast::statement::{Block, Statement};
use crate::ast::types::{BaseType, BaseTypeV, Type, TypeV, base_text};
use crate::errors::MerakError;
use crate::ir::SymbolId;
use crate::symbols::{decl_index, info_of, lookup_spec, reference_lookup, SymbolInfo, SymbolKind, SymbolNamespace, SymbolTable};
use vstd::string::StringExecFns;

verus! {

// ---------------------------------------------------------------------------
// The typing rules
// ---------------------------------------------------------------------------

/// Why an expression has no base type.
pub enum TypeFault {
    /// An operand, argument or initializer of the wrong base type.
    Mismatch,
    /// A call with the wrong number of arguments.
    Arity,
    /// A method that the contract does not have.
    UndefinedMethod,
    /// A method name that stands for something other than a function.
    NotCallable,
    /// A method called on a value that is not a contract.
    MemberOnNonContract,
    /// A reference that name resolution did not connect to a symbol.
    Unresolved,
    /// A variable whose type is not known.
    Untyped,
}

pub open spec fn literal_type(l: LiteralV) -> BaseTypeV {
    match l {
        LiteralV::Integer(_) => BaseTypeV::Int,
        LiteralV::Boolean(_) => BaseTypeV::Bool,
        LiteralV::String(_) => BaseTypeV::String,
        LiteralV::Address(_) => BaseTypeV::Address,
    }
}

/// Whether a value of base type `found` may stand where `expected` is
/// wanted: the same primitive type, or the same contract.
pub open spec fn compatible(found: BaseTypeV, expected: BaseTypeV) -> bool {
    match (found, expected) {
        (BaseTypeV::Int, BaseTypeV::Int) => true,
        (BaseTypeV::Bool, BaseTypeV::Bool) => true,
        (BaseTypeV::String, BaseTypeV::String) => true,
        (BaseTypeV::Address, BaseTypeV::Address) => true,
        (BaseTypeV::Contract(a), BaseTypeV::Contract(b)) => a == b,
        _ => false,
    }
}

/// Every primitive or contract type fits itself, and fitting goes both ways.
pub proof fn lemma_compatible_reflexive_symmetric(a: BaseTypeV, b: BaseTypeV)
    ensures
        !(a is Tuple) && !(a is Function) ==> compatible(a, a),
        compatible(a, b) ==> compatible(b, a),
{
}

/// The base type of `left op right`: arithmetic on integers gives an
/// integer; `==` and `!=` compare two values of one primitive type; ordering
/// compares integers; `&&` and `||` combine booleans.
pub open spec fn binary_type(op: BinaryOperator, a: BaseTypeV, b: BaseTypeV) -> Result<BaseTypeV, TypeFault> {
    match op {
        BinaryOperator::Add | BinaryOperator::Subtract | BinaryOperator::Multiply | BinaryOperator::Divide
        | BinaryOperator::Modulo => if a is Int && b is Int {
            Ok(BaseTypeV::Int)
        } else {
            Err(TypeFault::Mismatch)
        },
        BinaryOperator::Equal | BinaryOperator::NotEqual => if (a is Int && b is Int) || (a is Bool && b is Bool) || (
        a is String && b is String) || (a is Address && b is Address) {
            Ok(BaseTypeV::Bool)
        } else {
            Err(TypeFault::Mismatch)
        },
        BinaryOperator::Less | BinaryOperator::LessEqual | BinaryOperator::Greater | BinaryOperator::GreaterEqual => if a is Int
            && b is Int {
            Ok(BaseTypeV::Bool)
        } else {
            Err(TypeFault::Mismatch)
        },
        BinaryOperator::LogicalAnd | BinaryOperator::LogicalOr => if a is Bool && b is Bool {
            Ok(BaseTypeV::Bool)
        } else {
            Err(TypeFault::Mismatch)
        },
    }
}

/// The base type of `op x`: negation of an integer, `!` of a boolean.
pub open spec fn unary_type(op: UnaryOperator, a: BaseTypeV) -> Result<BaseTypeV, TypeFault> {
    match op {
        UnaryOperator::Negate => if a is Int {
            Ok(BaseTypeV::Int)
        } else {
            Err(TypeFault::Mismatch)
        },
        UnaryOperator::Not => if a is Bool {
            Ok(BaseTypeV::Bool)
        } else {
            Err(TypeFault::Mismatch)
        },
    }
}

/// The information of the symbol a reference node was resolved to by one
/// of the first `limit` references of the table.
pub open spec fn resolved_within(t: SymbolTable, node: NodeId, limit: nat) -> Option<SymbolInfo> {
    match reference_lookup(t.references@.take(limit as int), node) {
        Some(s) => info_of(t.symbols@, s),
        None => None,
    }
}

/// The parameters and return type of something that can be called.
pub open spec fn signature(k: SymbolKind) -> Option<(Seq<Param>, Type)> {
    match k {
        SymbolKind::Function { parameters, return_type, .. } => Some((parameters@, return_type)),
        SymbolKind::Entrypoint { parameters, return_type, .. } => Some((parameters@, return_type)),
        _ => None,
    }
}

/// The signature of a method: that of an interface function too.
pub open spec fn method_signature(k: SymbolKind) -> Option<(Seq<Param>, Type)> {
    match k {
        SymbolKind::InterfaceFunction { params, return_type } => Some((params@, return_type)),
        _ => signature(k),
    }
}

/// The qualified name of a method of a contract.
pub open spec fn method_path(contract: Seq<char>, method: Seq<char>) -> Seq<char> {
    contract + seq![':', ':'] + method
}

/// The base type of an expression, with identifiers and called names taken
/// as name resolution connected them (by the first `limit` references).
pub open spec fn type_of(e: ExpressionV, t: SymbolTable, limit: nat) -> Result<BaseTypeV, TypeFault>
    decreases e, 0nat,
{
    match e {
        ExpressionV::Literal(l, _, _) => Ok(literal_type(l)),
        ExpressionV::Identifier(_, id, _) => match resolved_within(t, id, limit) {
            Some(info) => match info.ty {
                Some(ty) => Ok(ty@.base),
                None => Err(TypeFault::Untyped),
            },
            None => Err(TypeFault::Unresolved),
        },
        ExpressionV::BinaryOp(l, op, r, _, _) => match type_of(*l, t, limit) {
            Err(f) => Err(f),
            Ok(a) => match type_of(*r, t, limit) {
                Err(f) => Err(f),
                Ok(b) => binary_type(op, a, b),
            },
        },
        ExpressionV::UnaryOp(op, x, _, _) => match type_of(*x, t, limit) {
            Err(f) => Err(f),
            Ok(a) => unary_type(op, a),
        },
        ExpressionV::Grouped(x, _, _) => type_of(*x, t, limit),
        ExpressionV::FunctionCall(name, args, id, _) => match resolved_within(t, id, limit) {
            None => Err(TypeFault::Unresolved),
            Some(info) => if info.kind is Contract || info.kind is Interface {
                if args.len() != 1 {
                    Err(TypeFault::Arity)
                } else {
                    match type_of(args[0], t, limit) {
                        Err(f) => Err(f),
                        Ok(a) => if a is Address {
                            Ok(BaseTypeV::Contract(name))
                        } else {
                            Err(TypeFault::Mismatch)
                        },
                    }
                }
            } else {
                match signature(info.kind) {
                    None => Err(TypeFault::Mismatch),
                    Some(sig) => if sig.0.len() != args.len() {
                        Err(TypeFault::Arity)
                    } else {
                        match args_fault(args, sig.0, t, limit) {
                            Some(f) => Err(f),
                            None => Ok(sig.1@.base),
                        }
                    },
                }
            },
        },
        ExpressionV::MemberCall(o, method, args, _, _) => match type_of(*o, t, limit) {
            Err(f) => Err(f),
            Ok(BaseTypeV::Contract(c)) => match lookup_spec(t, method_path(c, method), SymbolNamespace::Callable) {
                None => Err(TypeFault::UndefinedMethod),
                Some(sid) => match info_of(t.symbols@, sid) {
                    None => Err(TypeFault::Unresolved),
                    Some(info) => match method_signature(info.kind) {
                        None => Err(TypeFault::NotCallable),
                        Some(sig) => if sig.0.len() != args.len() {
                            Err(TypeFault::Arity)
                        } else {
                            match args_fault(args, sig.0, t, limit) {
                                Some(f) => Err(f),
                                None => Ok(sig.1@.base),
                            }
                        },
                    },
                },
            },
            Ok(_) => Err(TypeFault::MemberOnNonContract),
        },
    }
}

/// The first fault among arguments checked in order against parameters: an
/// argument with no type, or one not compatible with its parameter.
pub open spec fn args_fault(args: Seq<ExpressionV>, params: Seq<Param>, t: SymbolTable, limit: nat) -> Option<TypeFault>
    decreases args, 1nat,
{
    if args.len() == 0 || params.len() == 0 {
        None
    } else {
        match type_of(args[0], t, limit) {
            Err(f) => Some(f),
            Ok(a) => if compatible(a, params[0].ty@.base) {
                args_fault(args.subrange(1, args.len() as int), params.subrange(1, params.len() as int), t, limit)
            } else {
                Some(TypeFault::Mismatch)
            },
        }
    }
}

/// Whether two tables agree on what the typing rules read: the symbols, the
/// scopes and the first `limit` references.
pub open spec fn same_for_typing(a: SymbolTable, b: SymbolTable, limit: nat) -> bool {
    &&& a.symbols@ == b.symbols@
    &&& a.scopes@ == b.scopes@
    &&& limit <= a.references@.len()
    &&& limit <= b.references@.len()
    &&& a.references@.take(limit as int) == b.references@.take(limit as int)
}

proof fn lemma_type_of_same(e: ExpressionV, a: SymbolTable, b: SymbolTable, limit: nat)
    requires
        same_for_typing(a, b, limit),
    ensures
        type_of(e, a, limit) == type_of(e, b, limit),
    decreases e, 0nat,
{
    match e {
        ExpressionV::BinaryOp(l, _, r, _, _) => {
            lemma_type_of_same(*l, a, b, limit);
            lemma_type_of_same(*r, a, b, limit);
            assert(type_of(e, a, limit) == type_of(e, b, limit));
        },
        ExpressionV::UnaryOp(_, x, _, _) => {
            lemma_type_of_same(*x, a, b, limit);
            assert(type_of(e, a, limit) == type_of(e, b, limit));
        },
        ExpressionV::Grouped(x, _, _) => {
            lemma_type_of_same(*x, a, b, limit);
            assert(type_of(e, a, limit) == type_of(e, b, limit));
        },
        ExpressionV::FunctionCall(_, args, id, _) => {
            if args.len() > 0 {
                lemma_type_of_same(args[0], a, b, limit);
            }
            assert(resolved_within(a, id, limit) == resolved_within(b, id, limit));
            match resolved_within(a, id, limit) {
                Some(info) => match signature(info.kind) {
                    Some(sig) => lemma_args_fault_same(args, sig.0, a, b, limit),
                    None => {},
                },
                None => {},
            }
            assert(type_of(e, a, limit) == type_of(e, b, limit));
        },
        ExpressionV::MemberCall(o, method, args, _, _) => {
            lemma_type_of_same(*o, a, b, limit);
            match type_of(*o, a, limit) {
                Ok(BaseTypeV::Contract(c)) => {
                    assert(lookup_spec(a, method_path(c, method), SymbolNamespace::Callable) == lookup_spec(
                        b,
                        method_path(c, method),
                        SymbolNamespace::Callable,
                    ));
                    match lookup_spec(a, method_path(c, method), SymbolNamespace::Callable) {
                        Some(sid) => match info_of(a.symbols@, sid) {
                            Some(info) => match method_signature(info.kind) {
                                Some(sig) => lemma_args_fault_same(args, sig.0, a, b, limit),
                                None => {},
                            },
                            None => {},
                        },
                        None => {},
                    }
                },
                _ => {},
            }
            assert(type_of(e, a, limit) == type_of(e, b, limit));
        },
        ExpressionV::Identifier(_, id, _) => {
            assert(resolved_within(a, id, limit) == resolved_within(b, id, limit));
            assert(type_of(e, a, limit) == type_of(e, b, limit));
        },
        ExpressionV::Literal(..) => {},
    }
}

proof fn lemma_args_fault_same(args: Seq<ExpressionV>, ps: Seq<Param>, a: SymbolTable, b: SymbolTable, limit: nat)
    requires
        same_for_typing(a, b, limit),
    ensures
        args_fault(args, ps, a, limit) == args_fault(args, ps, b, limit),
    decreases args, 1nat,
{
    if args.len() > 0 && ps.len() > 0 {
        lemma_type_of_same(args[0], a, b, limit);
        lemma_args_fault_same(args.subrange(1, args.len() as int), ps.subrange(1, ps.len() as int), a, b, limit);
    }
}

proof fn lemma_same_for_typing_trans(a: SymbolTable, b: SymbolTable, c: SymbolTable, limit: nat)
    requires
        same_for_typing(a, b, limit),
        same_for_typing(b, c, limit),
    ensures
        same_for_typing(a, c, limit),
{
}

proof fn lemma_same_for_typing_refl(a: SymbolTable, limit: nat)
    requires
        limit <= a.references@.len(),
    ensures
        same_for_typing(a, a, limit),
{
}

/// How a symbol kind is named in messages.
fn kind_name(k: &SymbolKind) -> (r: &'static str)
    ensures
        r@ == match *k {
            SymbolKind::Contract => "Contract"@,
            SymbolKind::ContractInit { .. } => "ContractInit"@,
            SymbolKind::Interface { .. } => "Interface"@,
            SymbolKind::InterfaceFunction { .. } => "InterfaceFunction"@,
            SymbolKind::StateVar => "StateVar"@,
            SymbolKind::StateConst => "StateConst"@,
            SymbolKind::Parameter => "Parameter"@,
            SymbolKind::LocalVar => "LocalVar"@,
            SymbolKind::Function { .. } => "Function"@,
            SymbolKind::Entrypoint { .. } => "Entrypoint"@,
        },
{
    match k {
        SymbolKind::Contract => "Contract",
        SymbolKind::ContractInit { .. } => "ContractInit",
        SymbolKind::Interface { .. } => "Interface",
        SymbolKind::InterfaceFunction { .. } => "InterfaceFunction",
        SymbolKind::StateVar => "StateVar",
        SymbolKind::StateConst => "StateConst",
        SymbolKind::Parameter => "Parameter",
        SymbolKind::LocalVar => "LocalVar",
        SymbolKind::Function { .. } => "Function",
        SymbolKind::Entrypoint { .. } => "Entrypoint",
    }
}

fn mismatch(expected: &str, found: String, source_ref: SourceRef) -> (r: MerakError)
    ensures
        r is TypeMismatch,
{
    MerakError::TypeMismatch { expected: String::from_str(expected), found, source_ref }
}

/// `left and right`, the way a pair of operand types is reported.
fn pair_text(left: &BaseType, right: &BaseType) -> (r: String)
    ensures
        r@ == base_text(left@) + " and "@ + base_text(right@),
{
    left.to_string().concat(" and ").concat(right.to_string().as_str())
}

/// The base types of a list of parameters.
fn param_bases(params: &Vec<Param>) -> (r: Vec<BaseType>)
    ensures
        r.len() == params.len(),
        forall|j: int| 0 <= j < params.len() ==> (#[trigger] r@[j])@ == params@[j].ty@.base,
{
    let mut out: Vec<BaseType> = Vec::new();
    let mut i: usize = 0;
    while i < params.len()
        invariant
            i <= params.len(),
            out.len() == i,
            forall|j: int| 0 <= j < i ==> (#[trigger] out@[j])@ == params@[j].ty@.base,
        decreases params.len() - i,
    {
        out.push(params[i].ty.base.clone());
        i = i + 1;
    }
    out
}

/// Checks a value's base type against the one expected.
pub fn check_basetype(inferred_type: &BaseType, expected_type: &BaseType, location: SourceRef) -> (r: Result<(), MerakError>)
    ensures
        r is Ok <==> compatible(inferred_type@, expected_type@),
        r is Err ==> r->Err_0 is TypeMismatch,
{
    match (inferred_type, expected_type) {
        (BaseType::Int, BaseType::Int) => Ok(()),
        (BaseType::Bool, BaseType::Bool) => Ok(()),
        (BaseType::String, BaseType::String) => Ok(()),
        (BaseType::Address, BaseType::Address) => Ok(()),
        (BaseType::Contract(c1), BaseType::Contract(c2)) => {
            if crate::names::str_eq(c1.as_str(), c2.as_str()) {
                Ok(())
            } else {
                Err(MerakError::TypeMismatch { expected: c1.clone(), found: c2.clone(), source_ref: SourceRef::unknown() })
            }
        },
        _ => Err(MerakError::TypeMismatch { expected: expected_type.to_string(), found: inferred_type.to_string(), source_ref: location }),
    }
}

/// Arithmetic wants two integers and gives an integer.
fn check_arithmetic_op(left: &BaseType, right: &BaseType) -> (r: Result<BaseType, MerakError>)
    ensures
        match binary_type(BinaryOperator::Add, left@, right@) {
            Ok(b) => r is Ok && r->Ok_0@ == b,
            Err(_) => r is Err && r->Err_0 is TypeMismatch,
        },
{
    match (left, right) {
        (BaseType::Int, BaseType::Int) => Ok(BaseType::Int),
        _ => Err(mismatch("Int", pair_text(left, right), SourceRef::unknown())),
    }
}

/// `==` and `!=` want two values of one primitive type and give a boolean.
fn check_equality_op(left: &BaseType, right: &BaseType) -> (r: Result<BaseType, MerakError>)
    ensures
        match binary_type(BinaryOperator::Equal, left@, right@) {
            Ok(b) => r is Ok && r->Ok_0@ == b,
            Err(_) => r is Err && r->Err_0 is TypeMismatch,
        },
{
    match (left, right) {
        (BaseType::Int, BaseType::Int) | (BaseType::Bool, BaseType::Bool) | (BaseType::String, BaseType::String) | (
            BaseType::Address,
            BaseType::Address,
        ) => Ok(BaseType::Bool),
        _ => Err(mismatch("same type on both sides", pair_text(left, right), SourceRef::unknown())),
    }
}

/// Ordering wants two integers and gives a boolean.
fn check_ordering_op(left: &BaseType, right: &BaseType) -> (r: Result<BaseType, MerakError>)
    ensures
        match binary_type(BinaryOperator::Less, left@, right@) {
            Ok(b) => r is Ok && r->Ok_0@ == b,
            Err(_) => r is Err && r->Err_0 is TypeMismatch,
        },
{
    match (left, right) {
        (BaseType::Int, BaseType::Int) => Ok(BaseType::Bool),
        _ => Err(mismatch("Int", pair_text(left, right), SourceRef::unknown())),
    }
}

/// The operators type as the language says, whatever the operands are:
/// `==` and `!=` take two operands of one primitive type (`int`, `bool`,
/// `string` or `address`) and give `bool`; `<`, `<=`, `>`, `>=` take two
/// integers and give `bool`; arithmetic takes two integers and gives `int`;
/// `&&` and `||` take two booleans and give `bool`; any other operand types
/// are refused.
pub proof fn lemma_operator_typing(
    l: ExpressionV,
    op: BinaryOperator,
    r: ExpressionV,
    id: NodeId,
    sr: SourceRef,
    t: SymbolTable,
    limit: nat,
)
    requires
        type_of(l, t, limit) is Ok,
        type_of(r, t, limit) is Ok,
    ensures
        ({
            let a = type_of(l, t, limit)->Ok_0;
            let b = type_of(r, t, limit)->Ok_0;
            let e = type_of(ExpressionV::BinaryOp(Box::new(l), op, Box::new(r), id, sr), t, limit);
            &&& (op == BinaryOperator::Equal || op == BinaryOperator::NotEqual) ==> (e == Ok::<BaseTypeV, TypeFault>(BaseTypeV::Bool) <==> a == b
                && (a == BaseTypeV::Int || a == BaseTypeV::Bool || a == BaseTypeV::String || a == BaseTypeV::Address))
            &&& (op == BinaryOperator::Less || op == BinaryOperator::LessEqual || op == BinaryOperator::Greater || op
                == BinaryOperator::GreaterEqual) ==> (e == Ok::<BaseTypeV, TypeFault>(BaseTypeV::Bool) <==> a == BaseTypeV::Int && b
                == BaseTypeV::Int)
            &&& (op == BinaryOperator::Add || op == BinaryOperator::Subtract || op == BinaryOperator::Multiply || op == BinaryOperator::Divide
                || op == BinaryOperator::Modulo) ==> (e == Ok::<BaseTypeV, TypeFault>(BaseTypeV::Int) <==> a == BaseTypeV::Int && b
                == BaseTypeV::Int)
            &&& (op == BinaryOperator::LogicalAnd || op == BinaryOperator::LogicalOr) ==> (e == Ok::<BaseTypeV, TypeFault>(BaseTypeV::Bool)
                <==> a == BaseTypeV::Bool && b == BaseTypeV::Bool)
            &&& e is Ok ==> e == Ok::<BaseTypeV, TypeFault>(BaseTypeV::Bool) || e == Ok::<BaseTypeV, TypeFault>(BaseTypeV::Int)
        }),
{
}

/// `&&` and `||` want two booleans and give a boolean.
fn check_logical_op(left: &BaseType, right: &BaseType) -> (r: Result<BaseType, MerakError>)
    ensures
        match binary_type(BinaryOperator::LogicalAnd, left@, right@) {
            Ok(b) => r is Ok && r->Ok_0@ == b,
            Err(_) => r is Err && r->Err_0 is TypeMismatch,
        },
{
    match (left, right) {
        (BaseType::Bool, BaseType::Bool) => Ok(BaseType::Bool),
        _ => Err(mismatch("Bool", pair_text(left, right), SourceRef::unknown())),
    }
}

/// The base type of a binary operation on operands of these types.
pub fn assert_binary_type(op: BinaryOperator, left: &BaseType, right: &BaseType) -> (r: Result<BaseType, MerakError>)
    ensures
        match binary_type(op, left@, right@) {
            Ok(b) => r is Ok && r->Ok_0@ == b,
            Err(_) => r is Err && r->Err_0 is TypeMismatch,
        },
{
    match op {
        BinaryOperator::Add | BinaryOperator::Subtract | BinaryOperator::Multiply | BinaryOperator::Divide
        | BinaryOperator::Modulo => check_arithmetic_op(left, right),
        BinaryOperator::Equal | BinaryOperator::NotEqual => check_equality_op(left, right),
        BinaryOperator::Less | BinaryOperator::LessEqual | BinaryOperator::Greater | BinaryOperator::GreaterEqual => check_ordering_op(
            left,
            right,
        ),
        BinaryOperator::LogicalAnd | BinaryOperator::LogicalOr => check_logical_op(left, right),
    }
}

/// The base type of a unary operation on an operand of this type.
pub fn assert_unary_type(op: UnaryOperator, operand: &BaseType) -> (r: Result<BaseType, MerakError>)
    ensures
        match unary_type(op, operand@) {
            Ok(b) => r is Ok && r->Ok_0@ == b,
            Err(_) => r is Err && r->Err_0 is TypeMismatch,
        },
{
    match op {
        UnaryOperator::Negate => match operand {
            BaseType::Int => Ok(BaseType::Int),
            _ => Err(mismatch("Int", operand.to_string(), SourceRef::unknown())),
        },
        UnaryOperator::Not => match operand {
            BaseType::Bool => Ok(BaseType::Bool),
            _ => Err(mismatch("Bool", operand.to_string(), SourceRef::unknown())),
        },
    }
}

// ---------------------------------------------------------------------------
// The checker
// ---------------------------------------------------------------------------

/// Checks the base types of a program's contracts against the symbols name
/// resolution found, recording the base type of expressions and giving
/// unannotated local variables the type of their initializer.
pub struct Typechecker {
    symbol_table: SymbolTable,
    /// The return type of the function being checked (none in a constructor).
    expected_return_type: Option<Type>,
    /// The statement being checked, where a mismatch is reported.
    location: SourceRef,
    /// How many references name resolution recorded; the checker reads only
    /// those, and adds its own after them.
    resolved: usize,
}

impl Typechecker {
    /// The table the checker works on.
    pub closed spec fn table(&self) -> SymbolTable {
        self.symbol_table
    }

    /// The number of references the checker reads.
    pub closed spec fn limit(&self) -> nat {
        self.resolved as nat
    }

    pub closed spec fn wf(&self) -> bool {
        self.resolved <= self.symbol_table.references@.len()
    }

    pub fn new(symbol_table: SymbolTable) -> (r: Typechecker)
        ensures
            r.wf(),
            r.table() == symbol_table,
            r.limit() == symbol_table.references@.len(),
    {
        let resolved = symbol_table.references.len();
        Typechecker { symbol_table, expected_return_type: None, location: SourceRef::unknown(), resolved }
    }

    /// The base type of an expression (see `type_of`).
    #[verifier::loop_isolation(false)]
    fn infer_basetype(&mut self, expr: &Expression) -> (r: Result<BaseType, MerakError>)
        requires
            old(self).wf(),
        ensures
            final(self).wf(),
            same_for_typing(old(self).table(), final(self).table(), old(self).limit()),
            final(self).limit() == old(self).limit(),
            final(self).symbol_table.expr_types@.len() >= old(self).symbol_table.expr_types@.len(),
            final(self).expected_return_type == old(self).expected_return_type,
            final(self).location == old(self).location,
            match type_of(expr@, old(self).table(), old(self).limit()) {
                Ok(b) => r is Ok && r->Ok_0@ == b,
                Err(_) => r is Err,
            },
            match *expr {
                Expression::Literal(_, id, _) | Expression::BinaryOp { id, .. } | Expression::UnaryOp { id, .. } => r is Ok ==> {
                    &&& final(self).symbol_table.expr_types@.len() > 0
                    &&& final(self).symbol_table.expr_types@.last().0 == id
                    &&& final(self).symbol_table.expr_types@.last().1@ == r->Ok_0@
                },
                _ => true,
            },
        decreases *expr,
    {
        let ghost t0 = self.symbol_table;
        let ghost limit = self.resolved as nat;
        proof {
            lemma_same_for_typing_refl(t0, limit);
        }
        match expr {
            Expression::Literal(literal, id, _) => {
                let base_type = match literal {
                    Literal::Integer(_) => BaseType::Int,
                    Literal::Boolean(_) => BaseType::Bool,
                    Literal::String(_) => BaseType::String,
                    Literal::Address(_) => BaseType::Address,
                };
                self.symbol_table.insert_expr_type(*id, base_type.clone());
                Ok(base_type)
            },
            Expression::Identifier(var, id, source_ref) => {
                match self.symbol_table.resolved_symbol_within(*id, self.resolved) {
                    Some(info) => match &info.ty {
                        Some(ty) => Ok(ty.base.clone()),
                        None => Err(MerakError::SemanticError(
                            String::from_str("Variable '").concat(var.as_str()).concat("' should have a type"),
                        )),
                    },
                    None => Err(MerakError::UndefinedVariable { name: var.clone(), source_ref: *source_ref }),
                }
            },
            Expression::BinaryOp { left, op, right, id, .. } => {
                let base_left = self.infer_basetype(left)?;
                let ghost t1 = self.symbol_table;
                proof {
                    lemma_type_of_same(right@, t0, t1, limit);
                }
                let base_right = self.infer_basetype(right)?;
                let ghost t2 = self.symbol_table;
                proof {
                    lemma_same_for_typing_trans(t0, t1, t2, limit);
                }
                let base_type = assert_binary_type(*op, &base_left, &base_right)?;
                self.symbol_table.insert_expr_type(*id, base_type.clone());
                Ok(base_type)
            },
            Expression::UnaryOp { op, expr: inner, id, .. } => {
                let base_type = self.infer_basetype(inner)?;
                let base_type = assert_unary_type(*op, &base_type)?;
                self.symbol_table.insert_expr_type(*id, base_type.clone());
                Ok(base_type)
            },
            Expression::Grouped(inner, ..) => self.infer_basetype(inner),
            Expression::FunctionCall { name, args, id, source_ref } => {
                let ghost args_v = expr@->FunctionCall_1;
                let info = match self.symbol_table.resolved_symbol_within(*id, self.resolved) {
                    Some(info) => info,
                    None => {
                        return Err(MerakError::UndefinedFunction { name: name.clone(), source_ref: *source_ref });
                    },
                };
                let is_type = match &info.kind {
                    SymbolKind::Contract | SymbolKind::Interface { .. } => true,
                    _ => false,
                };
                if is_type {
                    if args.len() != 1 {
                        return Err(MerakError::ArityMismatch {
                            name: name.clone(),
                            expected: 1,
                            found: args.len(),
                            source_ref: *source_ref,
                        });
                    }
                    proof {
                        broadcast use vstd::std_specs::vec::group_vec_axioms;
                        assert(decreases_to!(*args => args[0]));
                        assert(args_v[0] == args@[0]@);
                    }
                    let arg_type = self.infer_basetype(&args[0])?;
                    match arg_type {
                        BaseType::Address => {},
                        _ => {
                            return Err(mismatch("address", arg_type.to_string(), *source_ref));
                        },
                    }
                    return Ok(BaseType::Contract(name.clone()));
                }
                let (param_types, return_base) = match &info.kind {
                    SymbolKind::Function { parameters, return_type, .. } | SymbolKind::Entrypoint {
                        parameters,
                        return_type,
                        ..
                    } => (param_bases(parameters), return_type.base.clone()),
                    _ => {
                        return Err(mismatch("Function or Entrypoint", String::from_str(kind_name(&info.kind)), *source_ref));
                    },
                };
                let ghost sig = signature(info.kind)->0;
                if param_types.len() != args.len() {
                    return Err(MerakError::ArityMismatch {
                        name: name.clone(),
                        expected: param_types.len(),
                        found: args.len(),
                        source_ref: *source_ref,
                    });
                }
                self.check_arguments(args, &param_types, Ghost(args_v), Ghost(sig.0))?;
                Ok(return_base)
            },
            Expression::MemberCall { object, method, args, id, source_ref } => {
                let ghost args_v = expr@->MemberCall_2;
                let object_type = self.infer_basetype(object)?;
                let ghost t1 = self.symbol_table;
                let contract_name = match &object_type {
                    BaseType::Contract(name) => name,
                    _ => {
                        return Err(MerakError::MemberCallOnNonContract { found: object_type.to_string(), source_ref: *source_ref });
                    },
                };
                proof {
                    reveal_strlit("::");
                    assert("::"@ =~= seq![':', ':']);
                }
                let qualified = contract_name.clone().concat("::").concat(method.as_str());
                let found = self.symbol_table.resolve_reference(*id, qualified.as_str(), SymbolNamespace::Callable);
                let ghost t2 = self.symbol_table;
                proof {
                    assert(t2.references@.take(limit as int) =~= t1.references@.take(limit as int));
                    lemma_same_for_typing_trans(t0, t1, t2, limit);
                }
                let method_id = match found {
                    Some(sid) => sid,
                    None => {
                        return Err(MerakError::UndefinedMethod {
                            method: method.clone(),
                            contract: contract_name.clone(),
                            source_ref: *source_ref,
                        });
                    },
                };
                let method_symbol = match self.symbol_table.get_symbol(&method_id) {
                    Some(info) => info,
                    None => {
                        return Err(MerakError::UndefinedFunction { name: qualified, source_ref: *source_ref });
                    },
                };
                let (param_types, return_base) = match &method_symbol.kind {
                    SymbolKind::InterfaceFunction { params, return_type } => (param_bases(params), return_type.base.clone()),
                    SymbolKind::Function { parameters, return_type, .. } | SymbolKind::Entrypoint {
                        parameters,
                        return_type,
                        ..
                    } => (param_bases(parameters), return_type.base.clone()),
                    _ => {
                        return Err(MerakError::NotCallable { name: method.clone(), source_ref: *source_ref });
                    },
                };
                let ghost sig = method_signature(method_symbol.kind)->0;
                if param_types.len() != args.len() {
                    return Err(MerakError::ArityMismatch {
                        name: method.clone(),
                        expected: param_types.len(),
                        found: args.len(),
                        source_ref: *source_ref,
                    });
                }
                proof {
                    lemma_args_fault_same(args_v, sig.0, t0, t2, limit);
                }
                self.check_arguments(args, &param_types, Ghost(args_v), Ghost(sig.0))?;
                Ok(return_base)
            },
        }
    }

    /// Infers each argument in order and checks it against its parameter.
    #[verifier::loop_isolation(false)]
    fn check_arguments(
        &mut self,
        args: &Vec<Expression>,
        param_types: &Vec<BaseType>,
        Ghost(args_v): Ghost<Seq<ExpressionV>>,
        Ghost(params): Ghost<Seq<Param>>,
    ) -> (r: Result<(), MerakError>)
        requires
            old(self).wf(),
            args.len() == param_types.len(),
            args_v.len() == args.len(),
            params.len() == args.len(),
            forall|j: int| 0 <= j < args.len() ==> args_v[j] == (#[trigger] args@[j])@,
            forall|j: int| 0 <= j < args.len() ==> (#[trigger] param_types@[j])@ == params[j].ty@.base,
        ensures
            final(self).wf(),
            same_for_typing(old(self).table(), final(self).table(), old(self).limit()),
            final(self).limit() == old(self).limit(),
            final(self).symbol_table.expr_types@.len() >= old(self).symbol_table.expr_types@.len(),
            final(self).expected_return_type == old(self).expected_return_type,
            final(self).location == old(self).location,
            r is Ok <==> args_fault(args_v, params, old(self).table(), old(self).limit()) is None,
        decreases args,
    {
        let ghost t0 = self.symbol_table;
        let ghost limit = self.resolved as nat;
        proof {
            lemma_same_for_typing_refl(t0, limit);
            assert(args_v.subrange(0, args_v.len() as int) =~= args_v);
            assert(params.subrange(0, params.len() as int) =~= params);
        }
        let mut i: usize = 0;
        while i < args.len()
            invariant
                i <= args.len(),
                self.wf(),
                self.resolved as nat == limit,
                same_for_typing(t0, self.symbol_table, limit),
                self.symbol_table.expr_types@.len() >= t0.expr_types@.len(),
                self.expected_return_type == old(self).expected_return_type,
                self.location == old(self).location,
                args_fault(args_v, params, t0, limit) == args_fault(
                    args_v.subrange(i as int, args_v.len() as int),
                    params.subrange(i as int, params.len() as int),
                    t0,
                    limit,
                ),
            decreases args.len() - i,
        {
            proof {
                broadcast use vstd::std_specs::vec::group_vec_axioms;
                assert(decreases_to!(*args => args[i as int]));
                let a = args_v.subrange(i as int, args_v.len() as int);
                let p = params.subrange(i as int, params.len() as int);
                assert(a[0] == args_v[i as int]);
                assert(p[0] == params[i as int]);
                assert(a.subrange(1, a.len() as int) =~= args_v.subrange(i + 1, args_v.len() as int));
                assert(p.subrange(1, p.len() as int) =~= params.subrange(i + 1, params.len() as int));
                lemma_type_of_same(args_v[i as int], t0, self.symbol_table, limit);
            }
            let ghost t1 = self.symbol_table;
            let inferred = self.infer_basetype(&args[i])?;
            proof {
                lemma_same_for_typing_trans(t0, t1, self.symbol_table, limit);
            }
            let location = self.location;
            check_basetype(&inferred, &param_types[i], location)?;
            i = i + 1;
        }
        Ok(())
    }
}

/// Whether two tables agree on the scopes, on the number of symbols and on
/// the first `limit` references (checking a statement can only give a
/// declared variable its inferred type).
pub open spec fn same_shape(a: SymbolTable, b: SymbolTable, limit: nat) -> bool {
    &&& a.scopes@ == b.scopes@
    &&& a.symbols@.len() == b.symbols@.len()
    &&& forall|i: int| 0 <= i < a.symbols@.len() ==> same_but_type(#[trigger] a.symbols@[i], b.symbols@[i])
    &&& limit <= a.references@.len()
    &&& limit <= b.references@.len()
    &&& a.references@.take(limit as int) == b.references@.take(limit as int)
}

/// Whether two symbol entries differ at most in the symbol's type.
pub open spec fn same_but_type(a: (SymbolId, SymbolInfo), b: (SymbolId, SymbolInfo)) -> bool {
    &&& a.0 == b.0
    &&& a.1.kind == b.1.kind
    &&& a.1.qualified_name == b.1.qualified_name
    &&& a.1.node_id == b.1.node_id
}

/// The unrefined type an unannotated declaration gets from its initializer.
pub open spec fn inferred_decl_type(base: BaseTypeV, name: Seq<char>, at: SourceRef) -> TypeV {
    TypeV {
        base,
        binder: name,
        constraint: crate::ast::predicate::PredV::True(NodeId(0), SourceRef { start: 0, end: 0 }),
        explicit_annotation: false,
        source_ref: at,
    }
}

/// Whether an initializer has a base type that fits the declared one.
pub open spec fn initializer_fits(e: ExpressionV, declared: BaseTypeV, t: SymbolTable, limit: nat) -> bool {
    type_of(e, t, limit) is Ok && compatible(type_of(e, t, limit)->Ok_0, declared)
}

fn clone_type_option(t: &Option<Type>) -> (r: Option<Type>)
    ensures
        r is Some <==> t is Some,
        r is Some ==> r->0@ == t->0@,
{
    match t {
        Some(x) => Some(x.clone()),
        None => None,
    }
}

impl Typechecker {
    pub closed spec fn expected(&self) -> Option<Type> {
        self.expected_return_type
    }

    /// Checks a statement, with mismatches reported at its source range.
    fn check_statement(&mut self, statement: &Statement) -> (r: Result<(), MerakError>)
        requires
            old(self).wf(),
        ensures
            final(self).wf(),
            same_shape(old(self).table(), final(self).table(), old(self).limit()),
            final(self).limit() == old(self).limit(),
            final(self).expected() == old(self).expected(),
            final(self).location == old(self).location,
            match *statement {
                Statement::Expression(e, node_id, _) => {
                    &&& r is Ok <==> type_of(e@, old(self).table(), old(self).limit()) is Ok
                    &&& r is Ok ==> final(self).table().expr_types@.len() > 0 && final(self).table().expr_types@.last().0 == node_id
                        && final(self).table().expr_types@.last().1@ == type_of(e@, old(self).table(), old(self).limit())->Ok_0
                },
                Statement::If { condition, .. } | Statement::While { condition, .. } => {
                    &&& r is Ok ==> type_of(condition@, old(self).table(), old(self).limit()) == Ok::<BaseTypeV, TypeFault>(BaseTypeV::Bool)
                },
                Statement::Return(value, _, _) => match (value, old(self).expected()) {
                    (Some(e), Some(t)) => r is Ok <==> initializer_fits(e@, t@.base, old(self).table(), old(self).limit()),
                    (None, None) => r is Ok,
                    (Some(_), None) | (None, Some(_)) => r is Err,
                },
                Statement::Assignment { expr, id, .. } => r is Ok <==> {
                    &&& resolved_within(old(self).table(), id, old(self).limit()) is Some
                    &&& resolved_within(old(self).table(), id, old(self).limit())->0.ty is Some
                    &&& initializer_fits(
                        expr@,
                        resolved_within(old(self).table(), id, old(self).limit())->0.ty->0@.base,
                        old(self).table(),
                        old(self).limit(),
                    )
                },
                Statement::VarDeclaration { name, ty, expr, id, source_ref }
                | Statement::ConstDeclaration { name, ty, expr, id, source_ref } => match ty {
                    Some(t) => r is Ok <==> initializer_fits(expr@, t@.base, old(self).table(), old(self).limit()),
                    None => {
                        &&& r is Ok <==> type_of(expr@, old(self).table(), old(self).limit()) is Ok && decl_index(
                            old(self).table().symbols@,
                            id,
                        ) is Some
                        &&& r is Ok ==> {
                            let i = decl_index(old(self).table().symbols@, id)->0 as int;
                            &&& final(self).table().symbols@[i].1.ty is Some
                            &&& final(self).table().symbols@[i].1.ty->0@ == inferred_decl_type(
                                type_of(expr@, old(self).table(), old(self).limit())->Ok_0,
                                name@,
                                source_ref,
                            )
                        }
                    },
                },
            },
        decreases *statement, 1nat,
    {
        let saved = self.location;
        let r = self.check_statement_at(statement);
        self.location = saved;
        r
    }

    fn check_statement_at(&mut self, statement: &Statement) -> (r: Result<(), MerakError>)
        requires
            old(self).wf(),
        ensures
            final(self).wf(),
            same_shape(old(self).table(), final(self).table(), old(self).limit()),
            final(self).limit() == old(self).limit(),
            final(self).expected() == old(self).expected(),
            match *statement {
                Statement::Expression(e, node_id, _) => {
                    &&& r is Ok <==> type_of(e@, old(self).table(), old(self).limit()) is Ok
                    &&& r is Ok ==> final(self).table().expr_types@.len() > 0 && final(self).table().expr_types@.last().0 == node_id
                        && final(self).table().expr_types@.last().1@ == type_of(e@, old(self).table(), old(self).limit())->Ok_0
                },
                Statement::If { condition, .. } | Statement::While { condition, .. } => {
                    &&& r is Ok ==> type_of(condition@, old(self).table(), old(self).limit()) == Ok::<BaseTypeV, TypeFault>(BaseTypeV::Bool)
                },
                Statement::Return(value, _, _) => match (value, old(self).expected()) {
                    (Some(e), Some(t)) => r is Ok <==> initializer_fits(e@, t@.base, old(self).table(), old(self).limit()),
                    (None, None) => r is Ok,
                    (Some(_), None) | (None, Some(_)) => r is Err,
                },
                Statement::Assignment { expr, id, .. } => r is Ok <==> {
                    &&& resolved_within(old(self).table(), id, old(self).limit()) is Some
                    &&& resolved_within(old(self).table(), id, old(self).limit())->0.ty is Some
                    &&& initializer_fits(
                        expr@,
                        resolved_within(old(self).table(), id, old(self).limit())->0.ty->0@.base,
                        old(self).table(),
                        old(self).limit(),
                    )
                },
                Statement::VarDeclaration { name, ty, expr, id, source_ref }
                | Statement::ConstDeclaration { name, ty, expr, id, source_ref } => match ty {
                    Some(t) => r is Ok <==> initializer_fits(expr@, t@.base, old(self).table(), old(self).limit()),
                    None => {
                        &&& r is Ok <==> type_of(expr@, old(self).table(), old(self).limit()) is Ok && decl_index(
                            old(self).table().symbols@,
                            id,
                        ) is Some
                        &&& r is Ok ==> {
                            let i = decl_index(old(self).table().symbols@, id)->0 as int;
                            &&& final(self).table().symbols@[i].1.ty is Some
                            &&& final(self).table().symbols@[i].1.ty->0@ == inferred_decl_type(
                                type_of(expr@, old(self).table(), old(self).limit())->Ok_0,
                                name@,
                                source_ref,
                            )
                        }
                    },
                },
            },
        decreases *statement, 0nat,
    {
        let ghost t0 = self.symbol_table;
        let ghost limit = self.resolved as nat;
        match statement {
            Statement::Expression(expression, node_id, source_ref) => {
                self.location = *source_ref;
                let inferred = self.infer_basetype(expression)?;
                self.symbol_table.insert_expr_type(*node_id, inferred);
                Ok(())
            },
            Statement::If { condition, then_block, else_block, source_ref, .. } => {
                self.location = *source_ref;
                let inferred = self.infer_basetype(condition)?;
                let location = self.location;
                check_basetype(&inferred, &BaseType::Bool, location)?;
                self.check_block(then_block)?;
                match else_block {
                    Some(b) => {
                        self.check_block(b)?;
                    },
                    None => {},
                }
                Ok(())
            },
            Statement::While { condition, body, source_ref, .. } => {
                self.location = *source_ref;
                let inferred = self.infer_basetype(condition)?;
                let location = self.location;
                check_basetype(&inferred, &BaseType::Bool, location)?;
                self.check_block(body)?;
                Ok(())
            },
            Statement::Return(expression, _, source_ref) => {
                self.location = *source_ref;
                let expected = clone_type_option(&self.expected_return_type);
                match (expression, expected) {
                    (Some(expr), Some(expected_type)) => {
                        let inferred = self.infer_basetype(expr)?;
                        let location = self.location;
                        check_basetype(&inferred, &expected_type.base, location)?;
                        Ok(())
                    },
                    (None, None) => Ok(()),
                    (Some(expr), None) => {
                        let inferred = self.infer_basetype(expr)?;
                        Err(mismatch("void (no return value)", inferred.to_string(), *source_ref))
                    },
                    (None, Some(expected_type)) => {
                        Err(MerakError::TypeMismatch {
                            expected: expected_type.base.to_string(),
                            found: String::from_str("void (no return value)"),
                            source_ref: *source_ref,
                        })
                    },
                }
            },
            Statement::Assignment { target, expr, id, source_ref } => {
                self.location = *source_ref;
                let inferred = self.infer_basetype(expr)?;
                let expected = match self.symbol_table.resolved_symbol_within(*id, self.resolved) {
                    Some(info) => match &info.ty {
                        Some(ty) => ty.base.clone(),
                        None => {
                            return Err(MerakError::SemanticError(
                                String::from_str("Variable '").concat(target.as_str()).concat("' should have a type"),
                            ));
                        },
                    },
                    None => {
                        return Err(MerakError::UndefinedVariable { name: target.clone(), source_ref: *source_ref });
                    },
                };
                let location = self.location;
                check_basetype(&inferred, &expected, location)?;
                Ok(())
            },
            Statement::VarDeclaration { name, ty, expr, id, source_ref }
            | Statement::ConstDeclaration { name, ty, expr, id, source_ref } => {
                self.location = *source_ref;
                let inferred = self.infer_basetype(expr)?;
                match ty {
                    Some(explicit_ty) => {
                        let location = self.location;
                        check_basetype(&inferred, &explicit_ty.base, location)?;
                        Ok(())
                    },
                    None => {
                        let ghost t1 = self.symbol_table;
                        let declared = Type {
                            base: inferred,
                            binder: name.clone(),
                            constraint: Predicate::True(NodeId::new(0), SourceRef::unknown()),
                            explicit_annotation: false,
                            source_ref: *source_ref,
                        };
                        self.symbol_table.update_type(*id, declared)?;
                        proof {
                            assert(self.symbol_table.references@.take(limit as int) == t1.references@.take(limit as int));
                        }
                        Ok(())
                    },
                }
            },
        }
    }

    /// Checks the statements of a block in order, stopping at the first error.
    fn check_block(&mut self, body: &Block) -> (r: Result<(), MerakError>)
        requires
            old(self).wf(),
        ensures
            final(self).wf(),
            same_shape(old(self).table(), final(self).table(), old(self).limit()),
            final(self).limit() == old(self).limit(),
            final(self).expected() == old(self).expected(),
            final(self).location == old(self).location,
        decreases *body,
    {
        let ghost t0 = self.symbol_table;
        let mut i: usize = 0;
        while i < body.statements.len()
            invariant
                i <= body.statements.len(),
                self.wf(),
                same_shape(t0, self.symbol_table, self.resolved as nat),
                self.resolved == old(self).resolved,
                t0 == old(self).symbol_table,
                self.expected_return_type == old(self).expected_return_type,
                self.location == old(self).location,
            decreases body.statements.len() - i,
        {
            proof {
                broadcast use vstd::std_specs::vec::group_vec_axioms;
                assert(decreases_to!(*body => body.statements));
                assert(decreases_to!(body.statements => body.statements[i as int]));
            }
            self.check_statement(&body.statements[i])?;
            i = i + 1;
        }
        Ok(())
    }
}

/// Whether the state variables and constants of a contract all have
/// initializers that fit their declared base types.
pub open spec fn storage_fits(c: Contract, t: SymbolTable, limit: nat) -> bool {
    &&& forall|i: int| 0 <= i < c.variables@.len() ==> initializer_fits(
        (#[trigger] c.variables@[i]).expr@,
        c.variables@[i].ty@.base,
        t,
        limit,
    )
    &&& forall|i: int| 0 <= i < c.constants@.len() ==> initializer_fits(
        (#[trigger] c.constants@[i]).expr@,
        c.constants@[i].ty@.base,
        t,
        limit,
    )
}

impl Typechecker {
    /// Checks a state initializer against its declared base type.
    fn check_initializer(&mut self, expr: &Expression, declared: &Type) -> (r: Result<(), MerakError>)
        requires
            old(self).wf(),
        ensures
            final(self).wf(),
            same_for_typing(old(self).table(), final(self).table(), old(self).limit()),
            final(self).limit() == old(self).limit(),
            final(self).expected() == old(self).expected(),
            final(self).location == old(self).location,
            r is Ok <==> initializer_fits(expr@, declared@.base, old(self).table(), old(self).limit()),
    {
        let inferred = self.infer_basetype(expr)?;
        let location = self.location;
        check_basetype(&inferred, &declared.base, location)
    }

    /// Checks a contract: its storage initializers, then its constructor's and
    /// its functions' bodies, each against its own return type.
    fn check_contract(&mut self, contract: &Contract) -> (r: Result<(), MerakError>)
        requires
            old(self).wf(),
        ensures
            final(self).wf(),
            same_shape(old(self).table(), final(self).table(), old(self).limit()),
            final(self).limit() == old(self).limit(),
            final(self).expected() == old(self).expected(),
            final(self).location == old(self).location,
            r is Ok ==> storage_fits(*contract, old(self).table(), old(self).limit()),
    {
        let ghost t0 = self.symbol_table;
        let ghost limit = self.resolved as nat;
        let mut i: usize = 0;
        while i < contract.variables.len()
            invariant
                i <= contract.variables.len(),
                self.wf(),
                self.resolved as nat == limit,
                limit == old(self).limit(),
                t0 == old(self).table(),
                same_for_typing(t0, self.symbol_table, limit),
                self.expected_return_type == old(self).expected_return_type,
                self.location == old(self).location,
                forall|j: int| 0 <= j < i ==> initializer_fits(
                    (#[trigger] contract.variables@[j]).expr@,
                    contract.variables@[j].ty@.base,
                    t0,
                    limit,
                ),
            decreases contract.variables.len() - i,
        {
            let v = &contract.variables[i];
            proof {
                lemma_type_of_same(v.expr@, t0, self.symbol_table, limit);
            }
            let ghost t1 = self.symbol_table;
            self.check_initializer(&v.expr, &v.ty)?;
            proof {
                lemma_same_for_typing_trans(t0, t1, self.symbol_table, limit);
            }
            i = i + 1;
        }
        let mut i: usize = 0;
        while i < contract.constants.len()
            invariant
                i <= contract.constants.len(),
                self.wf(),
                self.resolved as nat == limit,
                limit == old(self).limit(),
                t0 == old(self).table(),
                same_for_typing(t0, self.symbol_table, limit),
                self.expected_return_type == old(self).expected_return_type,
                self.location == old(self).location,
                forall|j: int| 0 <= j < contract.variables@.len() ==> initializer_fits(
                    (#[trigger] contract.variables@[j]).expr@,
                    contract.variables@[j].ty@.base,
                    t0,
                    limit,
                ),
                forall|j: int| 0 <= j < i ==> initializer_fits(
                    (#[trigger] contract.constants@[j]).expr@,
                    contract.constants@[j].ty@.base,
                    t0,
                    limit,
                ),
            decreases contract.constants.len() - i,
        {
            let c = &contract.constants[i];
            proof {
                lemma_type_of_same(c.expr@, t0, self.symbol_table, limit);
            }
            let ghost t1 = self.symbol_table;
            self.check_initializer(&c.expr, &c.ty)?;
            proof {
                lemma_same_for_typing_trans(t0, t1, self.symbol_table, limit);
            }
            i = i + 1;
        }
        let previous = self.expected_return_type.take();
        let result = self.check_bodies(contract);
        self.expected_return_type = previous;
        result
    }

    /// Checks the constructor's body (which returns nothing) and each
    /// function's body against the function's return type.
    fn check_bodies(&mut self, contract: &Contract) -> (r: Result<(), MerakError>)
        requires
            old(self).wf(),
        ensures
            final(self).wf(),
            same_shape(old(self).table(), final(self).table(), old(self).limit()),
            final(self).limit() == old(self).limit(),
            final(self).location == old(self).location,
    {
        let ghost t0 = self.symbol_table;
        let ghost limit = self.resolved as nat;
        match &contract.constructor {
            Some(constructor) => {
                self.expected_return_type = None;
                self.check_block(&constructor.body)?;
            },
            None => {},
        }
        let mut k: usize = 0;
        while k < contract.functions.len()
            invariant
                k <= contract.functions.len(),
                self.wf(),
                self.resolved as nat == limit,
                limit == old(self).limit(),
                t0 == old(self).table(),
                same_shape(t0, self.symbol_table, limit),
                self.location == old(self).location,
            decreases contract.functions.len() - k,
        {
            self.expected_return_type = clone_type_option(&contract.functions[k].return_type);
            self.check_block(&contract.functions[k].body)?;
            k = k + 1;
        }
        Ok(())
    }

    /// Checks every contract of a program, in the order of its files, and
    /// gives back the table with what the checks recorded.
    pub fn check(self, program: &Program) -> (r: Result<SymbolTable, MerakError>)
        requires
            self.wf(),
        ensures
            r is Ok ==> r->Ok_0.scopes@ == self.table().scopes@ && r->Ok_0.symbols@.len() == self.table().symbols@.len(),
            r is Ok ==> same_shape(self.table(), r->Ok_0, self.limit()),
            file_entries(program.files).len() == 0 ==> r is Ok && r->Ok_0 == self.table(),
            file_entries(program.files).len() > 0 && !storage_fits(file_entries(program.files)[0].1.contract, self.table(), self.limit())
                ==> r is Err,
    {
        let mut checker = self;
        let ghost t0 = checker.symbol_table;
        let ghost limit = checker.resolved as nat;
        let count = file_count(&program.files);
        let mut i: usize = 0;
        while i < count
            invariant
                i <= count,
                count == file_entries(program.files).len(),
                checker.wf(),
                checker.resolved as nat == limit,
                limit == self.limit(),
                t0 == self.table(),
                same_shape(t0, checker.symbol_table, limit),
                i == 0 ==> checker.symbol_table == t0,
                i > 0 ==> storage_fits(file_entries(program.files)[0].1.contract, t0, limit),
            decreases count - i,
        {
            match file_at(&program.files, i) {
                Some((_name, file)) => {
                    checker.check_contract(&file.contract)?;
                },
                None => {},
            }
            i = i + 1;
        }
        Ok(checker.symbol_table)
    }
}


} // verus!
