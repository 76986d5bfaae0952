// Name resolution and base type checking over contracts built node by node.
// Each contract gives, in a comment, the Merak source it stands for.

use indexmap::IndexMap;
use merak_analyzer::ast::contract::{Constructor, Contract, File, Import, Param, Program};
use merak_analyzer::ast::expression::{BinaryOperator, Expression, Literal, UnaryOperator};
use merak_analyzer::ast::function::{Function, Modifier, Visibility};
use merak_analyzer::ast::meta::SourceRef;
use merak_analyzer::ast::node_id::{NodeId, NodeIdGenerator};
use merak_analyzer::ast::predicate::{Predicate, RefinementExpr, RelOp};
use merak_analyzer::ast::statement::{Block, StateConst, StateVar, Statement};
use merak_analyzer::ast::types::{BaseType, Type};
use merak_analyzer::errors::MerakError;
use merak_analyzer::ir::SymbolId;
use merak_analyzer::refinements::constraints::{Constraint, ConstraintSet, TypeContext};
use merak_analyzer::names::StrSet;
use merak_analyzer::refinements::qualifiers::QualifierSet;
use merak_analyzer::refinements::solver::{extract_free_variables, settle, Settlement};
use merak_analyzer::refinements::templates::{LiquidVar, Template};
use merak_analyzer::resolve::analyze;
use merak_analyzer::symbols::{SymbolKind, SymbolNamespace, SymbolTable};

// ---------------------------------------------------------------------------
// Building contracts
// ---------------------------------------------------------------------------

struct Ids(usize);

impl Ids {
    fn new() -> Ids {
        Ids(0)
    }

    fn next(&mut self) -> NodeId {
        self.0 += 1;
        NodeId::new(self.0)
    }
}

fn sr() -> SourceRef {
    SourceRef::unknown()
}

fn int_ty() -> Type {
    Type::new(BaseType::Int, "__self".to_string())
}

fn bool_ty() -> Type {
    Type::new(BaseType::Bool, "__self".to_string())
}

fn contract_ty(name: &str) -> Type {
    Type::new(BaseType::Contract(name.to_string()), "__self".to_string())
}

fn lit_int(ids: &mut Ids, n: i64) -> Expression {
    Expression::Literal(Literal::Integer(n), ids.next(), sr())
}

fn boolean(ids: &mut Ids, b: bool) -> Expression {
    Expression::Literal(Literal::Boolean(b), ids.next(), sr())
}

fn string(ids: &mut Ids, s: &str) -> Expression {
    Expression::Literal(Literal::String(s.to_string()), ids.next(), sr())
}

fn address(ids: &mut Ids) -> Expression {
    Expression::Literal(Literal::Address([7u8; 32]), ids.next(), sr())
}

fn var(ids: &mut Ids, name: &str) -> Expression {
    Expression::Identifier(name.to_string(), ids.next(), sr())
}

fn bin(ids: &mut Ids, left: Expression, op: BinaryOperator, right: Expression) -> Expression {
    Expression::BinaryOp { left: Box::new(left), op, right: Box::new(right), id: ids.next(), source_ref: sr() }
}

fn un(ids: &mut Ids, op: UnaryOperator, expr: Expression) -> Expression {
    Expression::UnaryOp { op, expr: Box::new(expr), id: ids.next(), source_ref: sr() }
}

fn call(ids: &mut Ids, name: &str, args: Vec<Expression>) -> Expression {
    Expression::FunctionCall { name: name.to_string(), args, id: ids.next(), source_ref: sr() }
}

fn member(ids: &mut Ids, object: Expression, method: &str, args: Vec<Expression>) -> Expression {
    Expression::MemberCall { object: Box::new(object), method: method.to_string(), args, id: ids.next(), source_ref: sr() }
}

fn decl(ids: &mut Ids, name: &str, ty: Option<Type>, expr: Expression) -> Statement {
    Statement::VarDeclaration { name: name.to_string(), ty, expr, id: ids.next(), source_ref: sr() }
}

fn constant(ids: &mut Ids, name: &str, ty: Option<Type>, expr: Expression) -> Statement {
    Statement::ConstDeclaration { name: name.to_string(), ty, expr, id: ids.next(), source_ref: sr() }
}

fn assign(ids: &mut Ids, target: &str, expr: Expression) -> Statement {
    Statement::Assignment { target: target.to_string(), expr, id: ids.next(), source_ref: sr() }
}

fn ret(ids: &mut Ids, value: Option<Expression>) -> Statement {
    Statement::Return(value, ids.next(), sr())
}

fn if_stmt(ids: &mut Ids, condition: Expression, then_block: Vec<Statement>, else_block: Option<Vec<Statement>>) -> Statement {
    Statement::If {
        condition,
        then_block: Block::from_statements(then_block),
        else_block: else_block.map(Block::from_statements),
        id: ids.next(),
        source_ref: sr(),
    }
}

fn while_stmt(ids: &mut Ids, condition: Expression, body: Vec<Statement>) -> Statement {
    Statement::While {
        condition,
        invariants: vec![],
        variants: vec![],
        body: Block::from_statements(body),
        id: ids.next(),
        source_ref: sr(),
    }
}

fn param(ids: &mut Ids, name: &str, ty: Type) -> Param {
    Param { name: name.to_string(), ty, id: ids.next(), source_ref: sr() }
}

fn function(
    ids: &mut Ids,
    visibility: Visibility,
    name: &str,
    params: Vec<Param>,
    return_type: Option<Type>,
    body: Vec<Statement>,
) -> Function {
    function_with(ids, visibility, vec![], name, params, return_type, vec![], body)
}

#[allow(clippy::too_many_arguments)]
fn function_with(
    ids: &mut Ids,
    visibility: Visibility,
    modifiers: Vec<Modifier>,
    name: &str,
    params: Vec<Param>,
    return_type: Option<Type>,
    requires: Vec<Predicate>,
    body: Vec<Statement>,
) -> Function {
    Function {
        visibility,
        payable: false,
        modifiers,
        name: name.to_string(),
        params,
        return_type,
        requires,
        ensures: vec![],
        body: Block::from_statements(body),
        id: ids.next(),
        source_ref: sr(),
    }
}

fn state_var(ids: &mut Ids, name: &str, ty: Type, expr: Expression) -> StateVar {
    StateVar { name: name.to_string(), ty, expr, id: ids.next(), source_ref: sr() }
}

fn state_const(ids: &mut Ids, name: &str, ty: Type, expr: Expression) -> StateConst {
    StateConst { name: name.to_string(), ty, expr, id: ids.next(), source_ref: sr() }
}

struct ContractParts {
    variables: Vec<StateVar>,
    constants: Vec<StateConst>,
    constructor: Option<Constructor>,
    functions: Vec<Function>,
}

fn parts() -> ContractParts {
    ContractParts { variables: vec![], constants: vec![], constructor: None, functions: vec![] }
}

fn file(ids: &mut Ids, name: &str, p: ContractParts) -> File {
    File {
        imports: vec![],
        interfaces: vec![],
        contract: Contract {
            name: name.to_string(),
            id: ids.next(),
            variables: p.variables,
            constants: p.constants,
            constructor: p.constructor,
            functions: p.functions,
            source_ref: sr(),
        },
    }
}

fn program(files: Vec<File>) -> Program {
    let mut map = IndexMap::new();
    for f in files {
        map.insert(f.contract.name.clone(), f);
    }
    Program { files: map }
}

fn run(files: Vec<File>) -> Result<SymbolTable, MerakError> {
    analyze(&program(files))
}

fn kind_of<'a>(table: &'a SymbolTable, qualified: &str, ns: SymbolNamespace) -> &'a SymbolKind {
    let id = table.lookup(qualified, ns).unwrap_or_else(|| panic!("'{}' not found", qualified));
    &table.get_symbol(&id).unwrap().kind
}

fn base_of(table: &SymbolTable, qualified: &str) -> BaseType {
    let id = table.lookup(qualified, SymbolNamespace::Value).unwrap_or_else(|| panic!("'{}' not found", qualified));
    table.get_symbol(&id).unwrap().ty.as_ref().unwrap().base.clone()
}

/// contract Test { state var x: int = 0; entrypoint test() { <body> } }
fn single(ids: &mut Ids, body: Vec<Statement>) -> Vec<File> {
    let mut p = parts();
    let zero = lit_int(ids, 0);
    p.variables.push(state_var(ids, "x", int_ty(), zero));
    p.functions.push(function(ids, Visibility::Entrypoint, "test", vec![], None, body));
    vec![file(ids, "Test", p)]
}

// ---------------------------------------------------------------------------
// Declarations
// ---------------------------------------------------------------------------

// contract Test { state var balance: int = 0;
//   entrypoint getBalance() -> int { return balance; } }
#[test]
fn state_var_registered_in_contract_scope() {
    let mut ids = Ids::new();
    let mut p = parts();
    let zero = lit_int(&mut ids, 0);
    p.variables.push(state_var(&mut ids, "balance", int_ty(), zero));
    let b = var(&mut ids, "balance");
    let body = vec![ret(&mut ids, Some(b))];
    p.functions.push(function(&mut ids, Visibility::Entrypoint, "getBalance", vec![], Some(int_ty()), body));
    let table = run(vec![file(&mut ids, "Test", p)]).unwrap();
    assert!(matches!(kind_of(&table, "Test::balance", SymbolNamespace::Value), SymbolKind::StateVar));
    assert_eq!(base_of(&table, "Test::balance"), BaseType::Int);
    assert!(matches!(kind_of(&table, "Test::getBalance", SymbolNamespace::Value), SymbolKind::Entrypoint { .. }));
    assert!(matches!(kind_of(&table, "Test", SymbolNamespace::Type), SymbolKind::Contract));
}

// contract Test { state const MAX: int = 100; entrypoint getMax() -> int { return MAX; } }
#[test]
fn state_const_registered_in_contract_scope() {
    let mut ids = Ids::new();
    let mut p = parts();
    let hundred = lit_int(&mut ids, 100);
    p.constants.push(state_const(&mut ids, "MAX", int_ty(), hundred));
    let m = var(&mut ids, "MAX");
    let body = vec![ret(&mut ids, Some(m))];
    p.functions.push(function(&mut ids, Visibility::Entrypoint, "getMax", vec![], Some(int_ty()), body));
    let table = run(vec![file(&mut ids, "Test", p)]).unwrap();
    assert!(matches!(kind_of(&table, "Test::MAX", SymbolNamespace::Value), SymbolKind::StateConst));
}

// state var balance: int = 0; state var balance: int = 100;
#[test]
fn duplicate_state_var_names() {
    let mut ids = Ids::new();
    let mut p = parts();
    let a = lit_int(&mut ids, 0);
    let b = lit_int(&mut ids, 100);
    p.variables.push(state_var(&mut ids, "balance", int_ty(), a));
    p.variables.push(state_var(&mut ids, "balance", int_ty(), b));
    let r = ret(&mut ids, None);
    p.functions.push(function(&mut ids, Visibility::Entrypoint, "test", vec![], None, vec![r]));
    let result = run(vec![file(&mut ids, "Test", p)]);
    assert!(matches!(result, Err(MerakError::DuplicateSymbol { .. })));
}

// state const balance: int = 0; state var balance: int = 100;
#[test]
fn state_var_shadowing_state_const() {
    let mut ids = Ids::new();
    let mut p = parts();
    let a = lit_int(&mut ids, 0);
    let b = lit_int(&mut ids, 100);
    p.variables.push(state_var(&mut ids, "balance", int_ty(), b));
    p.constants.push(state_const(&mut ids, "balance", int_ty(), a));
    let r = ret(&mut ids, None);
    p.functions.push(function(&mut ids, Visibility::Entrypoint, "test", vec![], None, vec![r]));
    assert!(run(vec![file(&mut ids, "Test", p)]).is_err());
}

// entrypoint action() { return; } internal function action() { return; }
#[test]
fn same_function_name() {
    let mut ids = Ids::new();
    let mut p = parts();
    let r1 = ret(&mut ids, None);
    let r2 = ret(&mut ids, None);
    p.functions.push(function(&mut ids, Visibility::Entrypoint, "action", vec![], None, vec![r1]));
    p.functions.push(function(&mut ids, Visibility::Internal, "action", vec![], None, vec![r2]));
    // Both the redefinition and the refused declaration are reported; the
    // analysis answers with the one left first.
    let result = run(vec![file(&mut ids, "Test", p)]);
    assert!(matches!(result, Err(MerakError::DuplicateSymbol { .. })));
}

// entrypoint entry() {..} external function ext() {..} internal function intern() {..}
#[test]
fn function_visibility_stored() {
    let mut ids = Ids::new();
    let mut p = parts();
    for (vis, name) in [(Visibility::Entrypoint, "entry"), (Visibility::External, "ext"), (Visibility::Internal, "intern")] {
        let r = ret(&mut ids, None);
        p.functions.push(function(&mut ids, vis, name, vec![], None, vec![r]));
    }
    let table = run(vec![file(&mut ids, "Test", p)]).unwrap();
    assert!(matches!(kind_of(&table, "Test::entry", SymbolNamespace::Callable), SymbolKind::Entrypoint { .. }));
    assert!(matches!(
        kind_of(&table, "Test::ext", SymbolNamespace::Callable),
        SymbolKind::Function { visibility: Visibility::External, reentrancy: Modifier::Checked, .. }
    ));
    assert!(matches!(
        kind_of(&table, "Test::intern", SymbolNamespace::Callable),
        SymbolKind::Function { visibility: Visibility::Internal, .. }
    ));
}

// entrypoint test(amount: int) { x = amount; }
#[test]
fn parameters_registered_in_function_scope() {
    let mut ids = Ids::new();
    let a = var(&mut ids, "amount");
    let body = vec![assign(&mut ids, "x", a)];
    let mut files = single(&mut ids, vec![]);
    let amount = param(&mut ids, "amount", int_ty());
    files[0].contract.functions[0] = function(&mut ids, Visibility::Entrypoint, "test", vec![amount], None, body);
    let table = run(files).unwrap();
    assert!(matches!(kind_of(&table, "Test::test::amount", SymbolNamespace::Value), SymbolKind::Parameter));
}

// entrypoint test(amount: int, amount: int) { return; }
#[test]
fn duplicate_parameters_in_same_function() {
    let mut ids = Ids::new();
    let mut files = single(&mut ids, vec![]);
    let a = param(&mut ids, "amount", int_ty());
    let b = param(&mut ids, "amount", int_ty());
    let r = ret(&mut ids, None);
    files[0].contract.functions[0] = function(&mut ids, Visibility::Entrypoint, "test", vec![a, b], None, vec![r]);
    assert!(run(files).is_err());
}

// state var x: int = 0; entrypoint test(x: int) -> int { return x; }
#[test]
fn parameters_can_shadow_state_variables() {
    let mut ids = Ids::new();
    let mut files = single(&mut ids, vec![]);
    let x = param(&mut ids, "x", int_ty());
    let xr = var(&mut ids, "x");
    let r = ret(&mut ids, Some(xr));
    files[0].contract.functions[0] = function(&mut ids, Visibility::Entrypoint, "test", vec![x], Some(int_ty()), vec![r]);
    let table = run(files).unwrap();
    assert!(matches!(kind_of(&table, "Test::x", SymbolNamespace::Value), SymbolKind::StateVar));
    assert!(matches!(kind_of(&table, "Test::test::x", SymbolNamespace::Value), SymbolKind::Parameter));
}

// var y: int = 10; x = y;   and   const Y: int = 10; x = Y;
#[test]
fn local_vars_and_consts_registered_in_block_scope() {
    let mut ids = Ids::new();
    let ten = lit_int(&mut ids, 10);
    let d = decl(&mut ids, "y", Some(int_ty()), ten);
    let ten2 = lit_int(&mut ids, 10);
    let c = constant(&mut ids, "Y", Some(int_ty()), ten2);
    let y = var(&mut ids, "y");
    let a = assign(&mut ids, "x", y);
    let yy = var(&mut ids, "Y");
    let b = assign(&mut ids, "x", yy);
    let table = run(single(&mut ids, vec![d, c, a, b])).unwrap();
    assert!(matches!(kind_of(&table, "Test::test::y", SymbolNamespace::Value), SymbolKind::LocalVar));
    assert!(matches!(kind_of(&table, "Test::test::Y", SymbolNamespace::Value), SymbolKind::LocalVar));
}

// var x: int = 5; if (x > 0) { var x: int = 10; x = x; } x = x;
#[test]
fn nested_blocks_can_shadow_outer_variables() {
    let mut ids = Ids::new();
    let five = lit_int(&mut ids, 5);
    let outer = decl(&mut ids, "x", Some(int_ty()), five);
    let xv = var(&mut ids, "x");
    let zero = lit_int(&mut ids, 0);
    let cond = bin(&mut ids, xv, BinaryOperator::Greater, zero);
    let ten = lit_int(&mut ids, 10);
    let inner = decl(&mut ids, "x", Some(int_ty()), ten);
    let xi = var(&mut ids, "x");
    let set_inner = assign(&mut ids, "x", xi);
    let branch = if_stmt(&mut ids, cond, vec![inner, set_inner], None);
    let xo = var(&mut ids, "x");
    let set_outer = assign(&mut ids, "x", xo);
    assert!(run(single(&mut ids, vec![outer, branch, set_outer])).is_ok());
}

// var y: int = 0; var y: int = 1;
#[test]
fn variable_cannot_redeclare_in_same_block() {
    let mut ids = Ids::new();
    let zero = lit_int(&mut ids, 0);
    let one = lit_int(&mut ids, 1);
    let a = decl(&mut ids, "y", Some(int_ty()), zero);
    let b = decl(&mut ids, "y", Some(int_ty()), one);
    assert!(matches!(run(single(&mut ids, vec![a, b])), Err(MerakError::DuplicateSymbol { .. })));
}

// ---------------------------------------------------------------------------
// References
// ---------------------------------------------------------------------------

// x = undefinedVar;
#[test]
fn unresolved_identifiers_are_errors() {
    let mut ids = Ids::new();
    let u = var(&mut ids, "undefinedVar");
    let a = assign(&mut ids, "x", u);
    match run(single(&mut ids, vec![a])) {
        Err(MerakError::UndefinedVariable { name, .. }) => assert_eq!(name, "undefinedVar"),
        other => panic!("unexpected {:?}", other),
    }
}

// missing = 1;
#[test]
fn assignment_to_undeclared_target_is_error() {
    let mut ids = Ids::new();
    let one = lit_int(&mut ids, 1);
    let a = assign(&mut ids, "missing", one);
    assert!(matches!(run(single(&mut ids, vec![a])), Err(MerakError::UndefinedVariable { .. })));
}

// entrypoint funcA() { var local: int = 5; } internal function funcB() { x = local; }
#[test]
fn local_variable_not_accessible_outside_function() {
    let mut ids = Ids::new();
    let five = lit_int(&mut ids, 5);
    let d = decl(&mut ids, "local", Some(int_ty()), five);
    let mut files = single(&mut ids, vec![d]);
    let l = var(&mut ids, "local");
    let a = assign(&mut ids, "x", l);
    files[0].contract.functions.push(function(&mut ids, Visibility::Internal, "funcB", vec![], None, vec![a]));
    assert!(run(files).is_err());
}

// entrypoint funcA(param: int) { x = param; } internal function funcB() { x = param; }
#[test]
fn parameter_not_accessible_outside_function() {
    let mut ids = Ids::new();
    let pv = var(&mut ids, "param");
    let a = assign(&mut ids, "x", pv);
    let mut files = single(&mut ids, vec![]);
    let pp = param(&mut ids, "param", int_ty());
    files[0].contract.functions[0] = function(&mut ids, Visibility::Entrypoint, "funcA", vec![pp], None, vec![a]);
    let pv2 = var(&mut ids, "param");
    let b = assign(&mut ids, "x", pv2);
    files[0].contract.functions.push(function(&mut ids, Visibility::Internal, "funcB", vec![], None, vec![b]));
    assert!(run(files).is_err());
}

// internal function helper() -> int { return 42; } entrypoint test() { var temp: int = helper(); x = temp; }
#[test]
fn function_call_resolves_to_function() {
    let mut ids = Ids::new();
    let mut files = single(&mut ids, vec![]);
    let v = lit_int(&mut ids, 42);
    let r = ret(&mut ids, Some(v));
    let helper = function(&mut ids, Visibility::Internal, "helper", vec![], Some(int_ty()), vec![r]);
    let c = call(&mut ids, "helper", vec![]);
    let d = decl(&mut ids, "temp", Some(int_ty()), c);
    let t = var(&mut ids, "temp");
    let a = assign(&mut ids, "x", t);
    files[0].contract.functions[0] = function(&mut ids, Visibility::Entrypoint, "test", vec![], None, vec![d, a]);
    files[0].contract.functions.insert(0, helper);
    let table = run(files).unwrap();
    assert!(matches!(kind_of(&table, "Test::helper", SymbolNamespace::Callable), SymbolKind::Function { .. }));
}

// x = undefinedFunction();
#[test]
fn function_call_to_undefined_function() {
    let mut ids = Ids::new();
    let c = call(&mut ids, "undefinedFunction", vec![]);
    let a = assign(&mut ids, "x", c);
    assert!(matches!(run(single(&mut ids, vec![a])), Err(MerakError::UndefinedFunction { .. })));
}

// constructor(initial: int) { balance = initial; if (balance > MAX) { balance = MAX; } }
#[test]
fn constructor_can_access_state_vars() {
    let mut ids = Ids::new();
    let mut p = parts();
    let zero = lit_int(&mut ids, 0);
    p.variables.push(state_var(&mut ids, "balance", int_ty(), zero));
    let thousand = lit_int(&mut ids, 1000);
    p.constants.push(state_const(&mut ids, "MAX", int_ty(), thousand));
    let initial = param(&mut ids, "initial", int_ty());
    let iv = var(&mut ids, "initial");
    let s1 = assign(&mut ids, "balance", iv);
    let bv = var(&mut ids, "balance");
    let mv = var(&mut ids, "MAX");
    let cond = bin(&mut ids, bv, BinaryOperator::Greater, mv);
    let mv2 = var(&mut ids, "MAX");
    let s2 = assign(&mut ids, "balance", mv2);
    let s3 = if_stmt(&mut ids, cond, vec![s2], None);
    p.constructor = Some(Constructor { params: vec![initial], body: Block::from_statements(vec![s1, s3]), id: ids.next(), source_ref: sr() });
    let r = ret(&mut ids, None);
    p.functions.push(function(&mut ids, Visibility::Entrypoint, "test", vec![], None, vec![r]));
    let table = run(vec![file(&mut ids, "Test", p)]).unwrap();
    assert!(matches!(kind_of(&table, "Test::constructor", SymbolNamespace::Callable), SymbolKind::ContractInit { .. }));
    assert!(matches!(kind_of(&table, "Test::constructor::initial", SymbolNamespace::Value), SymbolKind::Parameter));
}

// constructor(initial: int, initial: int) { balance = initial; }
#[test]
fn constructor_duplicate_parameters() {
    let mut ids = Ids::new();
    let mut files = single(&mut ids, vec![]);
    let a = param(&mut ids, "initial", int_ty());
    let b = param(&mut ids, "initial", int_ty());
    let iv = var(&mut ids, "initial");
    let s = assign(&mut ids, "x", iv);
    files[0].contract.constructor = Some(Constructor { params: vec![a, b], body: Block::from_statements(vec![s]), id: ids.next(), source_ref: sr() });
    assert!(run(files).is_err());
}

// ---------------------------------------------------------------------------
// Modifiers, old(..) and return binders
// ---------------------------------------------------------------------------

#[test]
fn guarded_and_reentrant_are_exclusive() {
    let mut ids = Ids::new();
    let mut files = single(&mut ids, vec![]);
    let r = ret(&mut ids, None);
    files[0].contract.functions[0] = function_with(
        &mut ids,
        Visibility::External,
        vec![Modifier::Guarded, Modifier::Reentrant],
        "f",
        vec![],
        None,
        vec![],
        vec![r],
    );
    assert!(matches!(run(files), Err(MerakError::SemanticError(_))));
}

#[test]
fn internal_function_cannot_be_guarded() {
    let mut ids = Ids::new();
    let mut files = single(&mut ids, vec![]);
    let r = ret(&mut ids, None);
    files[0].contract.functions[0] =
        function_with(&mut ids, Visibility::Internal, vec![Modifier::Guarded], "f", vec![], None, vec![], vec![r]);
    assert!(matches!(run(files), Err(MerakError::SemanticError(_))));
}

#[test]
fn duplicate_modifier_is_error() {
    let mut ids = Ids::new();
    let mut files = single(&mut ids, vec![]);
    let r = ret(&mut ids, None);
    files[0].contract.functions[0] = function_with(
        &mut ids,
        Visibility::External,
        vec![Modifier::Payable, Modifier::Payable],
        "f",
        vec![],
        None,
        vec![],
        vec![r],
    );
    assert!(matches!(run(files), Err(MerakError::SemanticError(_))));
}

#[test]
fn single_modifier_is_the_reentrancy_mode() {
    let mut ids = Ids::new();
    let mut files = single(&mut ids, vec![]);
    let r = ret(&mut ids, None);
    files[0].contract.functions[0] =
        function_with(&mut ids, Visibility::External, vec![Modifier::Guarded], "f", vec![], None, vec![], vec![r]);
    let table = run(files).unwrap();
    assert!(matches!(
        kind_of(&table, "Test::f", SymbolNamespace::Callable),
        SymbolKind::Function { reentrancy: Modifier::Guarded, .. }
    ));
}

fn old_pred() -> Predicate {
    let inner = RefinementExpr::Var("x".to_string(), NodeId::new(0), sr());
    let old = RefinementExpr::Old { expr: Box::new(inner), id: NodeId::new(0), source_ref: sr() };
    Predicate::BinRel { op: RelOp::Geq, lhs: old, rhs: RefinementExpr::IntLit(0, NodeId::new(0), sr()), id: NodeId::new(0), source_ref: sr() }
}

#[test]
fn old_in_precondition_is_error() {
    let mut ids = Ids::new();
    let mut files = single(&mut ids, vec![]);
    let r = ret(&mut ids, None);
    files[0].contract.functions[0] =
        function_with(&mut ids, Visibility::External, vec![], "f", vec![], None, vec![old_pred()], vec![r]);
    assert!(matches!(run(files), Err(MerakError::OldInvalidUse { .. })));
}

// entrypoint f() -> {r: int | r > 0} { return 1; }  (explicit binder becomes __self)
#[test]
fn explicit_return_binder_is_renamed() {
    let mut ids = Ids::new();
    let mut files = single(&mut ids, vec![]);
    let one = lit_int(&mut ids, 1);
    let r = ret(&mut ids, Some(one));
    let pred = Predicate::BinRel {
        op: RelOp::Gt,
        lhs: RefinementExpr::Var("r".to_string(), NodeId::new(0), sr()),
        rhs: RefinementExpr::IntLit(0, NodeId::new(0), sr()),
        id: NodeId::new(0),
        source_ref: sr(),
    };
    let ty = Type { base: BaseType::Int, binder: "r".to_string(), constraint: pred, explicit_annotation: true, source_ref: sr() };
    files[0].contract.functions[0] = function(&mut ids, Visibility::Entrypoint, "f", vec![], Some(ty), vec![r]);
    let table = run(files).unwrap();
    match kind_of(&table, "Test::f", SymbolNamespace::Callable) {
        SymbolKind::Entrypoint { return_type, .. } => {
            assert_eq!(return_type.binder, "__self");
            assert_eq!(return_type.constraint.to_string(), "__self > 0");
        },
        other => panic!("unexpected {:?}", other),
    }
}

// entrypoint f() -> {int | v > 0 && w > 0} { return 1; }  (two undeclared variables)
#[test]
fn ambiguous_implicit_binder_is_error() {
    let mut ids = Ids::new();
    let mut files = single(&mut ids, vec![]);
    let one = lit_int(&mut ids, 1);
    let r = ret(&mut ids, Some(one));
    let gt = |n: &str| Predicate::BinRel {
        op: RelOp::Gt,
        lhs: RefinementExpr::Var(n.to_string(), NodeId::new(0), sr()),
        rhs: RefinementExpr::IntLit(0, NodeId::new(0), sr()),
        id: NodeId::new(0),
        source_ref: sr(),
    };
    let pred = Predicate::And(Box::new(gt("v")), Box::new(gt("w")), NodeId::new(0), sr());
    let ty = Type { base: BaseType::Int, binder: "__self".to_string(), constraint: pred, explicit_annotation: true, source_ref: sr() };
    files[0].contract.functions[0] = function(&mut ids, Visibility::Entrypoint, "f", vec![], Some(ty), vec![r]);
    assert!(matches!(run(files), Err(MerakError::SemanticError(_))));
}

// ---------------------------------------------------------------------------
// Several contracts
// ---------------------------------------------------------------------------

// contract Vault { entrypoint withdraw(amount: int) -> int { return amount; } }
// import Vault from vault as V;
// contract Main { state var v: V = Vault(0x07..); entrypoint go() -> int { return v.withdraw(5); } }
#[test]
fn cross_contract_call_through_alias() {
    let mut ids = Ids::new();
    let mut vault = parts();
    let amount = param(&mut ids, "amount", int_ty());
    let av = var(&mut ids, "amount");
    let r = ret(&mut ids, Some(av));
    vault.functions.push(function(&mut ids, Visibility::Entrypoint, "withdraw", vec![amount], Some(int_ty()), vec![r]));
    let vault_file = file(&mut ids, "Vault", vault);

    let mut main = parts();
    let addr = address(&mut ids);
    let init = call(&mut ids, "Vault", vec![addr]);
    main.variables.push(state_var(&mut ids, "v", contract_ty("Vault"), init));
    let obj = var(&mut ids, "v");
    let five = lit_int(&mut ids, 5);
    let m = member(&mut ids, obj, "withdraw", vec![five]);
    let r = ret(&mut ids, Some(m));
    main.functions.push(function(&mut ids, Visibility::Entrypoint, "go", vec![], Some(int_ty()), vec![r]));
    let mut main_file = file(&mut ids, "Main", main);
    main_file.imports.push(Import {
        contract_name: "Vault".to_string(),
        file_path: "vault".to_string(),
        alias: Some("V".to_string()),
        id: ids.next(),
        source_ref: sr(),
    });
    let table = run(vec![vault_file, main_file]).unwrap();
    assert!(matches!(kind_of(&table, "Vault", SymbolNamespace::Type), SymbolKind::Contract));
    assert!(matches!(kind_of(&table, "V", SymbolNamespace::Type), SymbolKind::Contract));
    assert_eq!(base_of(&table, "Main::v"), BaseType::Contract("Vault".to_string()));
}

#[test]
fn import_of_unknown_contract_is_error() {
    let mut ids = Ids::new();
    let mut files = single(&mut ids, vec![]);
    files[0].imports.push(Import {
        contract_name: "Nowhere".to_string(),
        file_path: "nowhere".to_string(),
        alias: Some("N".to_string()),
        id: ids.next(),
        source_ref: sr(),
    });
    assert!(matches!(run(files), Err(MerakError::NameResolution { .. })));
}

// v.missing() on a contract without that method
#[test]
fn undefined_method_is_error() {
    let mut ids = Ids::new();
    let vault_file = file(&mut ids, "Vault", parts());
    let mut main = parts();
    let addr = address(&mut ids);
    let init = call(&mut ids, "Vault", vec![addr]);
    main.variables.push(state_var(&mut ids, "v", contract_ty("Vault"), init));
    let obj = var(&mut ids, "v");
    let m = member(&mut ids, obj, "missing", vec![]);
    let s = Statement::Expression(m, ids.next(), sr());
    main.functions.push(function(&mut ids, Visibility::Entrypoint, "go", vec![], None, vec![s]));
    let main_file = file(&mut ids, "Main", main);
    assert!(matches!(run(vec![vault_file, main_file]), Err(MerakError::UndefinedMethod { .. })));
}

// x.withdraw() on an integer
#[test]
fn member_call_on_non_contract_is_error() {
    let mut ids = Ids::new();
    let obj = var(&mut ids, "x");
    let m = member(&mut ids, obj, "withdraw", vec![]);
    let s = Statement::Expression(m, ids.next(), sr());
    assert!(matches!(run(single(&mut ids, vec![s])), Err(MerakError::MemberCallOnNonContract { .. })));
}

// ---------------------------------------------------------------------------
// Base types
// ---------------------------------------------------------------------------

fn check_decl(ty: Type, make: impl FnOnce(&mut Ids) -> Expression) -> Result<SymbolTable, MerakError> {
    let mut ids = Ids::new();
    let e = make(&mut ids);
    let d = decl(&mut ids, "result", Some(ty), e);
    run(single(&mut ids, vec![d]))
}

#[test]
fn literal_types() {
    assert!(check_decl(int_ty(), |ids| lit_int(ids, 3)).is_ok());
    assert!(check_decl(bool_ty(), |ids| boolean(ids, true)).is_ok());
    assert!(check_decl(Type::new(BaseType::String, "__self".to_string()), |ids| string(ids, "hi")).is_ok());
    assert!(check_decl(Type::new(BaseType::Address, "__self".to_string()), address).is_ok());
    assert!(matches!(check_decl(int_ty(), |ids| boolean(ids, true)), Err(MerakError::TypeMismatch { .. })));
}

#[test]
fn unary_operator_types() {
    assert!(check_decl(int_ty(), |ids| {
        let n = lit_int(ids, 5);
        un(ids, UnaryOperator::Negate, n)
    })
    .is_ok());
    assert!(check_decl(int_ty(), |ids| {
        let b = boolean(ids, true);
        un(ids, UnaryOperator::Negate, b)
    })
    .is_err());
    assert!(check_decl(bool_ty(), |ids| {
        let b = boolean(ids, true);
        un(ids, UnaryOperator::Not, b)
    })
    .is_ok());
    assert!(check_decl(bool_ty(), |ids| {
        let n = lit_int(ids, 5);
        un(ids, UnaryOperator::Not, n)
    })
    .is_err());
}

#[test]
fn binary_operator_types() {
    let arith = |op: BinaryOperator, l: bool, r: bool, ty: Type| {
        check_decl(ty, |ids| {
            let a = if l { lit_int(ids, 1) } else { boolean(ids, true) };
            let b = if r { lit_int(ids, 2) } else { boolean(ids, false) };
            bin(ids, a, op, b)
        })
    };
    for op in [BinaryOperator::Add, BinaryOperator::Subtract, BinaryOperator::Multiply, BinaryOperator::Divide, BinaryOperator::Modulo] {
        assert!(arith(op, true, true, int_ty()).is_ok());
        assert!(arith(op, true, false, int_ty()).is_err());
        assert!(arith(op, false, false, int_ty()).is_err());
    }
    for op in [BinaryOperator::Less, BinaryOperator::LessEqual, BinaryOperator::Greater, BinaryOperator::GreaterEqual] {
        assert!(arith(op, true, true, bool_ty()).is_ok());
        assert!(arith(op, false, false, bool_ty()).is_err());
    }
    for op in [BinaryOperator::Equal, BinaryOperator::NotEqual] {
        assert!(arith(op, true, true, bool_ty()).is_ok());
        assert!(arith(op, false, false, bool_ty()).is_ok());
        assert!(arith(op, true, false, bool_ty()).is_err());
    }
    for op in [BinaryOperator::LogicalAnd, BinaryOperator::LogicalOr] {
        assert!(arith(op, false, false, bool_ty()).is_ok());
        assert!(arith(op, true, true, bool_ty()).is_err());
    }
}

// var count = 5; var flag: bool = count;  (the inferred type of `count` is int)
#[test]
fn unannotated_declaration_takes_initializer_type() {
    let mut ids = Ids::new();
    let five = lit_int(&mut ids, 5);
    let d = decl(&mut ids, "count", None, five);
    let c = var(&mut ids, "count");
    let e = decl(&mut ids, "total", Some(int_ty()), c);
    let table = run(single(&mut ids, vec![d, e])).unwrap();
    assert_eq!(base_of(&table, "Test::test::count"), BaseType::Int);

    let mut ids = Ids::new();
    let five = lit_int(&mut ids, 5);
    let d = decl(&mut ids, "count", None, five);
    let c = var(&mut ids, "count");
    let e = decl(&mut ids, "flag", Some(bool_ty()), c);
    assert!(matches!(run(single(&mut ids, vec![d, e])), Err(MerakError::TypeMismatch { .. })));
}

// x = true;  (x is an int)
#[test]
fn assignment_type_mismatch() {
    let mut ids = Ids::new();
    let t = boolean(&mut ids, true);
    let a = assign(&mut ids, "x", t);
    assert!(matches!(run(single(&mut ids, vec![a])), Err(MerakError::TypeMismatch { .. })));
}

// if (5) { }  and  while (x) { }
#[test]
fn conditions_must_be_boolean() {
    let mut ids = Ids::new();
    let five = lit_int(&mut ids, 5);
    let s = if_stmt(&mut ids, five, vec![], None);
    assert!(matches!(run(single(&mut ids, vec![s])), Err(MerakError::TypeMismatch { .. })));

    let mut ids = Ids::new();
    let x = var(&mut ids, "x");
    let s = while_stmt(&mut ids, x, vec![]);
    assert!(run(single(&mut ids, vec![s])).is_err());

    let mut ids = Ids::new();
    let x = var(&mut ids, "x");
    let zero = lit_int(&mut ids, 0);
    let cond = bin(&mut ids, x, BinaryOperator::Greater, zero);
    let x2 = var(&mut ids, "x");
    let one = lit_int(&mut ids, 1);
    let dec = bin(&mut ids, x2, BinaryOperator::Subtract, one);
    let body = vec![assign(&mut ids, "x", dec)];
    let s = while_stmt(&mut ids, cond, body);
    assert!(run(single(&mut ids, vec![s])).is_ok());
}

#[test]
fn return_statement_types() {
    let with_return = |return_type: Option<Type>, value: Option<bool>| {
        let mut ids = Ids::new();
        let mut files = single(&mut ids, vec![]);
        let v = value.map(|is_int| if is_int { lit_int(&mut ids, 1) } else { boolean(&mut ids, true) });
        let r = ret(&mut ids, v);
        files[0].contract.functions[0] = function(&mut ids, Visibility::Entrypoint, "f", vec![], return_type, vec![r]);
        run(files)
    };
    assert!(with_return(Some(int_ty()), Some(true)).is_ok());
    assert!(with_return(None, None).is_ok());
    assert!(with_return(Some(int_ty()), Some(false)).is_err());
    assert!(matches!(with_return(None, Some(true)), Err(MerakError::TypeMismatch { .. })));
    assert!(matches!(with_return(Some(int_ty()), None), Err(MerakError::TypeMismatch { .. })));
}

// internal function add(a: int, b: int) -> int { return a + b; } ... add(5), add(5, true), add(5, 10)
#[test]
fn function_call_arity_and_argument_types() {
    let make = |args: Vec<Option<bool>>| {
        let mut ids = Ids::new();
        let mut files = single(&mut ids, vec![]);
        let a = param(&mut ids, "a", int_ty());
        let b = param(&mut ids, "b", int_ty());
        let av = var(&mut ids, "a");
        let bv = var(&mut ids, "b");
        let sum = bin(&mut ids, av, BinaryOperator::Add, bv);
        let r = ret(&mut ids, Some(sum));
        let add = function(&mut ids, Visibility::Internal, "add", vec![a, b], Some(int_ty()), vec![r]);
        let args: Vec<Expression> =
            args.into_iter().map(|x| if x.unwrap_or(true) { lit_int(&mut ids, 5) } else { boolean(&mut ids, true) }).collect();
        let c = call(&mut ids, "add", args);
        let d = decl(&mut ids, "result", Some(int_ty()), c);
        files[0].contract.functions[0] = function(&mut ids, Visibility::Entrypoint, "test", vec![], None, vec![d]);
        files[0].contract.functions.insert(0, add);
        run(files)
    };
    assert!(make(vec![Some(true), Some(true)]).is_ok());
    assert!(matches!(make(vec![Some(true)]), Err(MerakError::ArityMismatch { expected: 2, found: 1, .. })));
    assert!(matches!(make(vec![Some(true), Some(false)]), Err(MerakError::TypeMismatch { .. })));
}

// state var x: int = true;
#[test]
fn state_initializer_type_mismatch() {
    let mut ids = Ids::new();
    let mut p = parts();
    let t = boolean(&mut ids, true);
    p.variables.push(state_var(&mut ids, "x", int_ty(), t));
    assert!(matches!(run(vec![file(&mut ids, "Test", p)]), Err(MerakError::TypeMismatch { .. })));
}

#[test]
fn source_ref_span_and_text() {
    let s = SourceRef::new(3, 9);
    assert_eq!(s.span(), 3..9);
    assert_eq!(s.to_string(), "3..9");
}

// ---------------------------------------------------------------------------
// Node ids and text
// ---------------------------------------------------------------------------

#[test]
fn node_id_generator_counts_up() {
    let mut g = NodeIdGenerator::new();
    let a = g.next();
    let b = g.next();
    let c = g.next();
    assert_eq!((a.as_usize(), b.as_usize(), c.as_usize()), (0, 1, 2));
    assert_eq!(NodeIdGenerator::default().next(), NodeId::new(0));
}

#[test]
fn expression_text() {
    let mut ids = Ids::new();
    let x = var(&mut ids, "x");
    let one = lit_int(&mut ids, 1);
    let sum = bin(&mut ids, x, BinaryOperator::Add, one);
    assert_eq!(sum.to_string(), "x + 1");
    let a = var(&mut ids, "a");
    let two = lit_int(&mut ids, -2);
    let c = call(&mut ids, "f", vec![a, two]);
    assert_eq!(c.to_string(), "f(a, -2)");
    let v = var(&mut ids, "v");
    let s = string(&mut ids, "hi");
    let m = member(&mut ids, v, "send", vec![s]);
    assert_eq!(m.to_string(), "v.send(\"hi\")");
    let b = boolean(&mut ids, true);
    let n = un(&mut ids, UnaryOperator::Not, b);
    assert_eq!(n.to_string(), "!true");
    let g = Expression::Grouped(Box::new(var(&mut ids, "y")), ids.next(), sr());
    assert_eq!(g.to_string(), "(y)");
}

#[test]
fn statement_text() {
    let mut ids = Ids::new();
    let x = var(&mut ids, "x");
    let zero = lit_int(&mut ids, 0);
    let cond = bin(&mut ids, x, BinaryOperator::Greater, zero);
    let one = lit_int(&mut ids, 1);
    let two = lit_int(&mut ids, 2);
    let a = assign(&mut ids, "y", one);
    let b = assign(&mut ids, "y", two);
    let s = if_stmt(&mut ids, cond, vec![a], Some(vec![b]));
    assert_eq!(s.to_string(), "if (x > 0) {\n    y = 1;\n} else {\n    y = 2;\n}");
    let five = lit_int(&mut ids, 5);
    let d = decl(&mut ids, "z", Some(int_ty()), five);
    assert_eq!(d.to_string(), "var z: int = 5");
    let r = ret(&mut ids, None);
    assert_eq!(r.to_string(), "return");
    let block = Block::from_statements(vec![s, d]);
    assert_eq!(block.to_string(), "    if (x > 0) {\n    y = 1;\n} else {\n    y = 2;\n}\n    var z: int = 5;\n");
}

#[test]
fn function_and_contract_text() {
    let mut ids = Ids::new();
    let x = var(&mut ids, "x");
    let amount = var(&mut ids, "amount");
    let sum = bin(&mut ids, x, BinaryOperator::Add, amount);
    let body = vec![assign(&mut ids, "x", sum)];
    let p = param(&mut ids, "amount", int_ty());
    let f = function_with(&mut ids, Visibility::Entrypoint, vec![Modifier::Guarded], "deposit", vec![p], Some(int_ty()), vec![], body);
    assert_eq!(f.to_string(), "entrypoint deposit(amount: int) guarded -> int {\n    x = x + amount;\n\n}");

    let mut ids = Ids::new();
    let r = ret(&mut ids, None);
    let mut files = single(&mut ids, vec![r]);
    assert_eq!(
        files[0].contract.to_string(),
        "contract Test {\n    state var x: int = 0;\n\n    entrypoint test() {\n    return;\n\n}\n}\n"
    );
    files[0].imports.push(Import {
        contract_name: "Vault".to_string(),
        file_path: "vault".to_string(),
        alias: Some("V".to_string()),
        id: ids.next(),
        source_ref: sr(),
    });
    assert!(files[0].to_string().starts_with("import Vault from vault as V;\n\ncontract Test {\n"));
}

#[test]
fn constraint_and_context_text() {
    let gt = Predicate::BinRel {
        op: RelOp::Gt,
        lhs: RefinementExpr::Var("x".to_string(), NodeId::new(0), sr()),
        rhs: RefinementExpr::IntLit(0, NodeId::new(0), sr()),
        id: NodeId::new(0),
        source_ref: sr(),
    };
    let mut ctx = TypeContext::new();
    assert_eq!(ctx.to_string(), "Γ{}");
    ctx.assume_fact(gt.clone());
    assert_eq!(ctx.to_string(), "Γ{ | x > 0}");
    let c = Constraint::Requires { context: ctx, condition: gt, location: sr() };
    assert_eq!(c.to_string(), "REQUIRES(x > 0)");
}

// A name declared in an inner scope hides the outer one until the scope
// closes; declaring it twice in one scope is refused.
#[test]
fn inner_scope_shadows_until_closed() {
    let mut t = SymbolTable::new();
    t.add_symbol(NodeId::new(1), vec!["C".to_string(), "x".to_string()], SymbolKind::StateVar, Some(int_ty())).unwrap();
    t.push_scope();
    t.add_symbol(NodeId::new(2), vec!["C".to_string(), "f".to_string(), "x".to_string()], SymbolKind::LocalVar, Some(int_ty()))
        .unwrap();
    assert!(matches!(t.lookup("x", SymbolNamespace::Value), Some(SymbolId::Named(n, 2)) if n == "x"));
    assert!(matches!(
        t.add_symbol(NodeId::new(3), vec!["C".to_string(), "f".to_string(), "x".to_string()], SymbolKind::LocalVar, None),
        Err(MerakError::DuplicateSymbol { .. })
    ));
    t.pop_scope();
    assert!(matches!(t.lookup("x", SymbolNamespace::Value), Some(SymbolId::Named(n, 1)) if n == "x"));
    assert!(matches!(t.lookup("C::f::x", SymbolNamespace::Value), Some(SymbolId::Named(_, 2))));
    assert!(t.lookup("x", SymbolNamespace::Callable).is_none());
}

#[test]
fn constraints_can_be_changed_in_place() {
    let gt = Predicate::True(NodeId::new(0), sr());
    let mut set = ConstraintSet::new();
    set.add(Constraint::Requires { context: TypeContext::new(), condition: gt.clone(), location: sr() });
    set.constraints_mut().push(Constraint::Ensures { context: TypeContext::new(), condition: gt, location: sr() });
    assert_eq!(set.len(), 2);
    assert_eq!(set.constraints()[1].to_string(), "ENSURE(true)");
}

// Candidates that mention a relevant variable come first; relevance only
// reorders the candidates, never adds or drops one.
#[test]
fn relevant_candidates_come_first() {
    let int_template = |n: &str| Template::Concrete {
        base: BaseType::Int,
        binder: n.to_string(),
        refinement: Predicate::True(NodeId::new(0), sr()),
        source_ref: sr(),
    };
    let mut ctx = TypeContext::new();
    ctx.bind("x_0".to_string(), int_template("x_0"));
    ctx.bind("y_0".to_string(), int_template("y_0"));
    let qs = QualifierSet::core_set();
    let mut relevant = StrSet::new();
    relevant.insert("y_0".to_string());
    let plain = qs.instantiate_all(&ctx);
    let ordered = qs.instantiate_all_with_relevance(&ctx, &relevant);
    assert_eq!(plain.len(), ordered.len());
    for p in &plain {
        assert!(ordered.iter().any(|q| q == p));
    }
    // relevant: mentions `y_0`, or no variable of the context at all
    let tags: Vec<bool> = ordered
        .iter()
        .map(|p| {
            let fv = extract_free_variables(p);
            fv.contains("y_0") || !fv.contains("x_0")
        })
        .collect();
    let first_other = tags.iter().position(|t| !*t).unwrap();
    assert!(first_other > 0);
    assert!(tags[..first_other].iter().all(|t| *t));
    assert!(tags[first_other..].iter().all(|t| !*t));
}

// What a round makes of each answer: a check that held changes nothing; a
// failed subtyping into a liquid subtype passes the demand back, one into
// a liquid supertype looks for a qualifier, one between given templates
// fails; a failed precondition fails; a failed well-formedness check is
// left standing.
#[test]
fn each_answer_is_settled_as_its_constraint_asks() {
    let given = |n: &str| Template::Concrete {
        base: BaseType::Int,
        binder: n.to_string(),
        refinement: Predicate::True(NodeId::new(0), sr()),
        source_ref: sr(),
    };
    let liquid = |n: &str, k: usize| Template::Liquid { base: BaseType::Int, binder: n.to_string(), liquid_var: LiquidVar(k), source_ref: sr() };
    let into_liquid_sub = Constraint::Subtype { context: TypeContext::new(), sub: liquid("a", 0), sup: given("b"), location: sr() };
    let into_liquid_sup = Constraint::Subtype { context: TypeContext::new(), sub: given("a"), sup: liquid("b", 1), location: sr() };
    let between_given = Constraint::Subtype { context: TypeContext::new(), sub: given("a"), sup: given("b"), location: sr() };
    let pre = Constraint::Requires { context: TypeContext::new(), condition: Predicate::False(NodeId::new(0), sr()), location: sr() };
    let wf = Constraint::WellFormed { context: TypeContext::new(), template: given("a"), location: sr() };
    assert_eq!(settle(&between_given, true), Settlement::Holds);
    assert_eq!(settle(&into_liquid_sub, false), Settlement::PassBack);
    assert_eq!(settle(&into_liquid_sup, false), Settlement::TryQualifiers);
    assert_eq!(settle(&between_given, false), Settlement::Fails);
    assert_eq!(settle(&pre, false), Settlement::Fails);
    assert_eq!(settle(&wf, false), Settlement::Tolerated);
}

// A program without files has nothing to refuse.
#[test]
fn an_empty_program_is_accepted() {
    let r = analyze(&program(Vec::new()));
    assert!(r.is_ok());
}
