// Storage analysis, template assignment and refinement inference over
// contracts written directly in SSA form. Each program gives, in a
// comment, the Merak source that it stands for.

use merak_analyzer::ast::contract::Param;
use merak_analyzer::ast::expression::{BinaryOperator, UnaryOperator};
use merak_analyzer::ast::function::{Modifier, Visibility};
use merak_analyzer::ast::meta::SourceRef;
use merak_analyzer::ast::node_id::NodeId;
use merak_analyzer::ast::predicate::{ArithOp, Predicate, RefinementExpr, RelOp, UnaryOp};
use merak_analyzer::ast::types::{BaseType, Type};
use merak_analyzer::ir::{
    BasicBlock, BranchMeta, CallTarget, Constant, Operand, Register, SsaCfg, SsaContract, SsaInstruction, StorageDecl, SymbolId,
    Terminator,
};
use merak_analyzer::names::StrMap;
use merak_analyzer::refinements::constraints::{Constraint, ConstraintSet};
use merak_analyzer::refinements::qualifiers::Qualifier;
use merak_analyzer::refinements::inference::LiquidInferenceEngine;
use merak_analyzer::refinements::templates::Template;
use merak_analyzer::storage::analyze_storage;
use merak_analyzer::symbols::{SymbolInfo, SymbolKind, SymbolTable};

// ---------------------------------------------------------------------------
// Building programs
// ---------------------------------------------------------------------------

fn sr() -> SourceRef {
    SourceRef::unknown()
}

fn nid() -> NodeId {
    NodeId::new(0)
}

fn v(name: &str) -> RefinementExpr {
    RefinementExpr::Var(name.to_string(), nid(), sr())
}

fn lit(n: i64) -> RefinementExpr {
    RefinementExpr::IntLit(n, nid(), sr())
}

fn rel(op: RelOp, lhs: RefinementExpr, rhs: RefinementExpr) -> Predicate {
    Predicate::BinRel { op, lhs, rhs, id: nid(), source_ref: sr() }
}

fn tru() -> Predicate {
    Predicate::True(nid(), sr())
}

/// A type inferred for an unannotated variable.
fn inferred(base: BaseType, binder: &str) -> Type {
    Type { base, binder: binder.to_string(), constraint: tru(), explicit_annotation: false, source_ref: sr() }
}

/// A written type without refinement, such as `int`.
fn plain(base: BaseType, binder: &str) -> Type {
    Type { base, binder: binder.to_string(), constraint: tru(), explicit_annotation: true, source_ref: sr() }
}

/// A written refinement type `{binder: base | constraint}`.
fn refined(base: BaseType, binder: &str, constraint: Predicate) -> Type {
    Type { base, binder: binder.to_string(), constraint, explicit_annotation: true, source_ref: sr() }
}

fn unit() -> Type {
    Type::empty_tuple("v".to_string())
}

fn reg(sym: &SymbolId, version: usize) -> Register {
    Register { symbol: sym.clone(), version }
}

fn at(r: &Register) -> Operand {
    Operand::Location(r.clone())
}

fn num(n: i64) -> Operand {
    Operand::Constant(Constant::Int(n))
}

fn copy(dest: &Register, source: Operand) -> SsaInstruction {
    SsaInstruction::Copy { dest: dest.clone(), source, source_ref: sr() }
}

fn binop(dest: &Register, op: BinaryOperator, left: Operand, right: Operand) -> SsaInstruction {
    SsaInstruction::BinaryOp { dest: dest.clone(), op, left, right, source_ref: sr() }
}

fn unop(dest: &Register, op: UnaryOperator, operand: Operand) -> SsaInstruction {
    SsaInstruction::UnaryOp { dest: dest.clone(), op, operand, source_ref: sr() }
}

fn load(dest: &Register, var: &SymbolId) -> SsaInstruction {
    SsaInstruction::StorageLoad { dest: dest.clone(), var: var.clone(), source_ref: sr() }
}

fn store(var: &SymbolId, value: Operand) -> SsaInstruction {
    SsaInstruction::StorageStore { var: var.clone(), value, source_ref: sr() }
}

fn call(dest: Option<&Register>, f: &SymbolId, args: Vec<Operand>) -> SsaInstruction {
    SsaInstruction::Call { dest: dest.cloned(), target: CallTarget::Internal(f.clone()), args, source_ref: sr() }
}

fn phi(dest: &Register, sources: Vec<(usize, &Register)>) -> SsaInstruction {
    SsaInstruction::Phi { dest: dest.clone(), sources: sources.into_iter().map(|(b, r)| (b, r.clone())).collect() }
}

fn ret(value: Option<Operand>) -> Terminator {
    Terminator::Return { value }
}

fn jump(target: usize) -> Terminator {
    Terminator::Jump { target }
}

fn branch(condition: Operand, then_block: usize, else_block: usize) -> Terminator {
    Terminator::Branch {
        condition,
        then_block,
        else_block,
        meta: BranchMeta { loop_invariants: vec![], loop_variants: vec![], source_ref: sr() },
    }
}

fn loop_branch(condition: Operand, body: usize, exit: usize, invariants: Vec<Predicate>, variants: Vec<RefinementExpr>) -> Terminator {
    Terminator::Branch {
        condition,
        then_block: body,
        else_block: exit,
        meta: BranchMeta { loop_invariants: invariants, loop_variants: variants, source_ref: sr() },
    }
}

fn block(instructions: Vec<SsaInstruction>, terminator: Terminator, predecessors: Vec<usize>, successors: Vec<usize>) -> BasicBlock {
    BasicBlock { instructions, terminator, predecessors, successors }
}

/// A contract under construction, with its symbol table.
struct Prog {
    table: SymbolTable,
    contract: SsaContract,
    next_id: usize,
}

/// A function's symbol and those of its parameters.
struct FnSyms {
    id: SymbolId,
    name: String,
    params: Vec<SymbolId>,
    requires: Vec<Predicate>,
    ensures: Vec<Predicate>,
}

impl Prog {
    fn new() -> Prog {
        let mut p = Prog {
            table: SymbolTable::new(),
            contract: SsaContract { name: "Test".to_string(), variables: vec![], constants: vec![], functions: vec![] },
            next_id: 0,
        };
        let id = p.fresh();
        p.table.insert(
            SymbolId::Named("Test".to_string(), id),
            SymbolInfo { qualified_name: vec!["Test".to_string()], kind: SymbolKind::Contract, ty: None, node_id: NodeId::new(id) },
        );
        p
    }

    fn fresh(&mut self) -> usize {
        self.next_id += 1;
        self.next_id
    }

    fn symbol(&mut self, path: Vec<&str>, kind: SymbolKind, ty: Option<Type>) -> SymbolId {
        let id = self.fresh();
        let name = path.last().unwrap().to_string();
        let sym = SymbolId::Named(name, id);
        self.table.insert(
            sym.clone(),
            SymbolInfo { qualified_name: path.iter().map(|s| s.to_string()).collect(), kind, ty, node_id: NodeId::new(id) },
        );
        sym
    }

    fn state_var(&mut self, name: &str, ty: Type) -> SymbolId {
        let sym = self.symbol(vec!["Test", name], SymbolKind::StateVar, Some(ty));
        let id = match &sym {
            SymbolId::Named(_, id) => *id,
            SymbolId::Temp(t) => *t,
        };
        self.contract.variables.push(StorageDecl { symbol: sym.clone(), id: NodeId::new(id) });
        sym
    }

    fn state_const(&mut self, name: &str, ty: Type) -> SymbolId {
        let sym = self.symbol(vec!["Test", name], SymbolKind::StateConst, Some(ty));
        let id = match &sym {
            SymbolId::Named(_, id) => *id,
            SymbolId::Temp(t) => *t,
        };
        self.contract.constants.push(StorageDecl { symbol: sym.clone(), id: NodeId::new(id) });
        sym
    }

    /// Declares an entrypoint (when `entry`) or an internal function.
    fn function(
        &mut self,
        name: &str,
        entry: bool,
        params: Vec<(&str, Type)>,
        requires: Vec<Predicate>,
        ensures: Vec<Predicate>,
        return_type: Type,
    ) -> FnSyms {
        self.function_with(name, entry, Modifier::Checked, params, requires, ensures, return_type)
    }

    fn function_with(
        &mut self,
        name: &str,
        entry: bool,
        reentrancy: Modifier,
        params: Vec<(&str, Type)>,
        requires: Vec<Predicate>,
        ensures: Vec<Predicate>,
        return_type: Type,
    ) -> FnSyms {
        let mut param_decls = Vec::new();
        let mut param_syms = Vec::new();
        for (pname, pty) in &params {
            let id = self.fresh();
            param_decls.push(Param { name: pname.to_string(), ty: pty.clone(), id: NodeId::new(id), source_ref: sr() });
        }
        let kind = if entry {
            SymbolKind::Entrypoint {
                reentrancy,
                parameters: param_decls,
                requires: requires.clone(),
                ensures: ensures.clone(),
                return_type,
            }
        } else {
            SymbolKind::Function {
                visibility: Visibility::Internal,
                reentrancy,
                parameters: param_decls,
                requires: requires.clone(),
                ensures: ensures.clone(),
                return_type,
            }
        };
        let id = self.symbol(vec!["Test", name], kind, None);
        for (pname, pty) in params {
            param_syms.push(self.symbol(vec!["Test", name, pname], SymbolKind::Parameter, Some(pty)));
        }
        FnSyms { id, name: name.to_string(), params: param_syms, requires, ensures }
    }

    fn local(&mut self, f: &FnSyms, name: &str, ty: Type) -> SymbolId {
        let fname = f.name.clone();
        self.symbol(vec!["Test", fname.as_str(), name], SymbolKind::LocalVar, Some(ty))
    }

    fn add_cfg(&mut self, f: &FnSyms, blocks: Vec<BasicBlock>, temps: Vec<(usize, BaseType)>) {
        self.contract.functions.push(SsaCfg {
            function_id: f.id.clone(),
            name: f.name.clone(),
            parameters: f.params.clone(),
            blocks,
            entry: 0,
            requires: f.requires.clone(),
            ensures: f.ensures.clone(),
            local_temps: temps.into_iter().map(|(t, b)| (SymbolId::Temp(t), b)).collect(),
        });
    }
}

fn temp(t: usize) -> Register {
    Register { symbol: SymbolId::Temp(t), version: 0 }
}

/// Storage analysis of every function, on a second copy of the program
/// (the analysis reads the whole contract while it rewrites one function).
fn with_storage(build: fn() -> Prog) -> Result<Prog, String> {
    let reference = build();
    let mut work = build();
    for i in 0..work.contract.functions.len() {
        analyze_storage(&reference.contract, &mut work.contract.functions[i], &reference.table)
            .map_err(|e| format!("Storage analysis error: {:?}", e))?;
    }
    Ok(work)
}

fn run_template_assignment(build: fn() -> Prog) -> Result<Vec<(String, StrMap<Template>)>, String> {
    let program = with_storage(build)?;
    let mut lie = LiquidInferenceEngine::new(&program.table);
    let mut result = Vec::new();
    for cfg in &program.contract.functions {
        let bindings = lie.assign_templates_only(cfg).map_err(|e| format!("Template assignment error: {:?}", e))?;
        result.push((cfg.name.clone(), bindings));
    }
    Ok(result)
}

fn run_refinement_inference(build: fn() -> Prog) -> Result<(), String> {
    let program = with_storage(build)?;
    let mut lie = LiquidInferenceEngine::new(&program.table);
    for cfg in &program.contract.functions {
        lie.infer_function(cfg).map_err(|e| format!("Refinement inference error: {:?}", e))?;
    }
    Ok(())
}

fn bindings_of<'a>(all: &'a Vec<(String, StrMap<Template>)>, name: &str) -> &'a StrMap<Template> {
    &all.iter().find(|(n, _)| n == name).expect("function not found").1
}

fn find_concrete_temp(bindings: &StrMap<Template>) -> Option<(&String, &Template)> {
    bindings.entries().iter().find(|(name, tmpl)| name.contains("__temp_") && tmpl.is_concrete()).map(|(n, t)| (n, t))
}

fn find_all_concrete_temps(bindings: &StrMap<Template>) -> Vec<(&String, &Template)> {
    bindings.entries().iter().filter(|(name, tmpl)| name.contains("__temp_") && tmpl.is_concrete()).map(|(n, t)| (n, t)).collect()
}

// ---------------------------------------------------------------------------
// Template assignment
// ---------------------------------------------------------------------------

// entrypoint foo(a: int, b: int) { var x = a; }
fn prog_params() -> Prog {
    let mut p = Prog::new();
    let f = p.function("foo", true, vec![("a", plain(BaseType::Int, "a")), ("b", plain(BaseType::Int, "b"))], vec![], vec![], unit());
    let x = p.local(&f, "x", inferred(BaseType::Int, "x"));
    let a = f.params[0].clone();
    p.add_cfg(&f, vec![block(vec![copy(&reg(&x, 0), at(&reg(&a, 0)))], ret(None), vec![], vec![])], vec![]);
    p
}

#[test]
fn test_parameter_templates() {
    let bindings = run_template_assignment(prog_params).unwrap();
    let foo = bindings_of(&bindings, "foo");
    let a_tmpl = foo.get("a_0").unwrap();
    let b_tmpl = foo.get("b_0").unwrap();
    assert!(a_tmpl.is_concrete(), "Parameter 'a' should get a Concrete template (explicit type in signature)");
    assert!(b_tmpl.is_concrete(), "Parameter 'b' should get a Concrete template (explicit type in signature)");
    assert_eq!(*a_tmpl.base_type(), BaseType::Int);
    assert_eq!(*b_tmpl.base_type(), BaseType::Int);
}

// entrypoint foo() { var x = 5; }
fn prog_named_constant() -> Prog {
    let mut p = Prog::new();
    let f = p.function("foo", true, vec![], vec![], vec![], unit());
    let x = p.local(&f, "x", inferred(BaseType::Int, "x"));
    p.add_cfg(&f, vec![block(vec![copy(&reg(&x, 0), num(5))], ret(None), vec![], vec![])], vec![]);
    p
}

#[test]
fn test_named_variable_constant_assignment() {
    let bindings = run_template_assignment(prog_named_constant).unwrap();
    let foo = bindings_of(&bindings, "foo");
    let x_tmpl = foo.get("x_0").unwrap();
    assert!(x_tmpl.is_liquid(), "Named variable 'x' should get a Liquid template (SSA adaptation of let-rule), got {:?}", x_tmpl);
    assert_eq!(*x_tmpl.base_type(), BaseType::Int);
}

// entrypoint foo() { var x: {int | x > 0} = 5; }
fn prog_annotated_constant() -> Prog {
    let mut p = Prog::new();
    let f = p.function("foo", true, vec![], vec![], vec![], unit());
    let x = p.local(&f, "x", refined(BaseType::Int, "x", rel(RelOp::Gt, v("x"), lit(0))));
    p.add_cfg(&f, vec![block(vec![copy(&reg(&x, 0), num(5))], ret(None), vec![], vec![])], vec![]);
    p
}

#[test]
fn test_named_variable_with_annotation_gets_concrete() {
    let bindings = run_template_assignment(prog_annotated_constant).unwrap();
    let foo = bindings_of(&bindings, "foo");
    let x_tmpl = foo.get("x_0").unwrap();
    assert!(
        x_tmpl.is_concrete(),
        "Named variable with explicit annotation gets Concrete template (annotation is enforced directly, not deferred to constraint solving)"
    );
    assert_eq!(*x_tmpl.base_type(), BaseType::Int);
}

// entrypoint foo(a: int, b: int) { var z = a + b; }
fn prog_add() -> Prog {
    let mut p = Prog::new();
    let f = p.function("foo", true, vec![("a", plain(BaseType::Int, "a")), ("b", plain(BaseType::Int, "b"))], vec![], vec![], unit());
    let z = p.local(&f, "z", inferred(BaseType::Int, "z"));
    let (a, b) = (f.params[0].clone(), f.params[1].clone());
    p.add_cfg(
        &f,
        vec![block(
            vec![binop(&temp(0), BinaryOperator::Add, at(&reg(&a, 0)), at(&reg(&b, 0))), copy(&reg(&z, 0), at(&temp(0)))],
            ret(None),
            vec![],
            vec![],
        )],
        vec![(0, BaseType::Int)],
    );
    p
}

#[test]
fn test_arithmetic_op_template() {
    let bindings = run_template_assignment(prog_add).unwrap();
    let foo = bindings_of(&bindings, "foo");
    let (add_name, add_tmpl) = find_concrete_temp(foo).expect("Should find a Concrete temp for the addition");
    assert_eq!(*add_tmpl.base_type(), BaseType::Int, "ty(+) result should be Int");
    let refinement = add_tmpl.refinement().unwrap();
    match refinement {
        Predicate::BinRel { op: RelOp::Eq, lhs, rhs, .. } => {
            assert!(
                matches!(lhs, RefinementExpr::Var(name, ..) if name == add_name),
                "LHS should be the dest register '{}', got {:?}",
                add_name,
                lhs
            );
            match rhs {
                RefinementExpr::BinOp { op: ArithOp::Add, lhs: inner_lhs, rhs: inner_rhs, .. } => {
                    assert!(
                        matches!(inner_lhs.as_ref(), RefinementExpr::Var(name, ..) if name == "a_0"),
                        "Left operand should be a_0, got {:?}",
                        inner_lhs
                    );
                    assert!(
                        matches!(inner_rhs.as_ref(), RefinementExpr::Var(name, ..) if name == "b_0"),
                        "Right operand should be b_0, got {:?}",
                        inner_rhs
                    );
                },
                _ => panic!("RHS should be BinOp(Add, a_0, b_0), got {:?}", rhs),
            }
        },
        _ => panic!("Arithmetic template refinement should be BinRel(Eq, v, a+b), got {:?}", refinement),
    }
    assert!(foo.get("z_0").unwrap().is_liquid(), "Named var 'z' should be Liquid");
}

// entrypoint foo(a: int, b: int) { var c = a > b; }
fn prog_compare() -> Prog {
    let mut p = Prog::new();
    let f = p.function("foo", true, vec![("a", plain(BaseType::Int, "a")), ("b", plain(BaseType::Int, "b"))], vec![], vec![], unit());
    let c = p.local(&f, "c", inferred(BaseType::Bool, "c"));
    let (a, b) = (f.params[0].clone(), f.params[1].clone());
    p.add_cfg(
        &f,
        vec![block(
            vec![binop(&temp(0), BinaryOperator::Greater, at(&reg(&a, 0)), at(&reg(&b, 0))), copy(&reg(&c, 0), at(&temp(0)))],
            ret(None),
            vec![],
            vec![],
        )],
        vec![(0, BaseType::Bool)],
    );
    p
}

#[test]
fn test_comparison_op_template() {
    let bindings = run_template_assignment(prog_compare).unwrap();
    let foo = bindings_of(&bindings, "foo");
    let (_, cmp_tmpl) = find_concrete_temp(foo).expect("Should find a Concrete temp for the comparison");
    assert_eq!(*cmp_tmpl.base_type(), BaseType::Bool, "ty(>) result should be Bool");
    let refinement = cmp_tmpl.refinement().unwrap();
    match refinement {
        Predicate::BinRel { op: RelOp::Gt, lhs, rhs, .. } => {
            assert!(matches!(lhs, RefinementExpr::Var(name, ..) if name == "a_0"), "LHS should be a_0, got {:?}", lhs);
            assert!(matches!(rhs, RefinementExpr::Var(name, ..) if name == "b_0"), "RHS should be b_0, got {:?}", rhs);
        },
        _ => panic!("Comparison template should be BinRel(Gt, a_0, b_0), got {:?}", refinement),
    }
}

// entrypoint foo(a: int) { var y = -a; }
fn prog_negate() -> Prog {
    let mut p = Prog::new();
    let f = p.function("foo", true, vec![("a", plain(BaseType::Int, "a"))], vec![], vec![], unit());
    let y = p.local(&f, "y", inferred(BaseType::Int, "y"));
    let a = f.params[0].clone();
    p.add_cfg(
        &f,
        vec![block(vec![unop(&temp(0), UnaryOperator::Negate, at(&reg(&a, 0))), copy(&reg(&y, 0), at(&temp(0)))], ret(None), vec![], vec![])],
        vec![(0, BaseType::Int)],
    );
    p
}

#[test]
fn test_unary_negation_template() {
    let bindings = run_template_assignment(prog_negate).unwrap();
    let foo = bindings_of(&bindings, "foo");
    let (neg_name, neg_tmpl) = find_concrete_temp(foo).expect("Should find a Concrete temp for the negation");
    assert_eq!(*neg_tmpl.base_type(), BaseType::Int);
    let refinement = neg_tmpl.refinement().unwrap();
    match refinement {
        Predicate::BinRel { op: RelOp::Eq, lhs, rhs, .. } => {
            assert!(
                matches!(lhs, RefinementExpr::Var(name, ..) if name == neg_name),
                "LHS should be dest register '{}', got {:?}",
                neg_name,
                lhs
            );
            match rhs {
                RefinementExpr::UnaryOp { op: UnaryOp::Negate, expr, .. } => {
                    assert!(matches!(expr.as_ref(), RefinementExpr::Var(name, ..) if name == "a_0"), "Operand should be a_0, got {:?}", expr);
                },
                _ => panic!("RHS should be UnaryOp(Negate, a_0), got {:?}", rhs),
            }
        },
        _ => panic!("Negation template should be BinRel(Eq, v, -a_0), got {:?}", refinement),
    }
}

// entrypoint foo(x: int) {
//     var y = 0;
//     if (x > 0) { y = 1; } else { y = 2; }
// }
fn prog_phi() -> Prog {
    let mut p = Prog::new();
    let f = p.function("foo", true, vec![("x", plain(BaseType::Int, "x"))], vec![], vec![], unit());
    let y = p.local(&f, "y", inferred(BaseType::Int, "y"));
    let x = f.params[0].clone();
    p.add_cfg(
        &f,
        vec![
            block(
                vec![copy(&reg(&y, 0), num(0)), binop(&temp(0), BinaryOperator::Greater, at(&reg(&x, 0)), num(0))],
                branch(at(&temp(0)), 1, 2),
                vec![],
                vec![1, 2],
            ),
            block(vec![copy(&reg(&y, 1), num(1))], jump(3), vec![0], vec![3]),
            block(vec![copy(&reg(&y, 2), num(2))], jump(3), vec![0], vec![3]),
            block(vec![phi(&reg(&y, 3), vec![(1, &reg(&y, 1)), (2, &reg(&y, 2))])], ret(None), vec![1, 2], vec![]),
        ],
        vec![(0, BaseType::Bool)],
    );
    p
}

#[test]
fn test_phi_node_gets_liquid_template() {
    let bindings = run_template_assignment(prog_phi).unwrap();
    let foo = bindings_of(&bindings, "foo");
    let y_versions: Vec<(&String, &Template)> = foo.entries().iter().filter(|(name, _)| name.starts_with("y_")).map(|(n, t)| (n, t)).collect();
    assert!(
        y_versions.len() >= 2,
        "Should have multiple SSA versions of y due to conditional, got: {:?}",
        y_versions.iter().map(|(n, _)| n.as_str()).collect::<Vec<_>>()
    );
    for (name, tmpl) in &y_versions {
        assert!(tmpl.is_liquid(), "SSA version '{}' of Named var 'y' should be Liquid (Fresh for join point), got {:?}", name, tmpl);
    }
}

// contract Test {
//     state var balance: {balance: int | balance >= 0} = 0;
//     entrypoint foo() { var x = balance; }
// }
fn prog_storage_load() -> Prog {
    let mut p = Prog::new();
    let balance = p.state_var("balance", refined(BaseType::Int, "balance", rel(RelOp::Geq, v("balance"), lit(0))));
    let f = p.function("foo", true, vec![], vec![], vec![], unit());
    let x = p.local(&f, "x", inferred(BaseType::Int, "x"));
    p.add_cfg(&f, vec![block(vec![load(&temp(0), &balance), copy(&reg(&x, 0), at(&temp(0)))], ret(None), vec![], vec![])], vec![(0, BaseType::Int)]);
    p
}

#[test]
fn test_storage_load_template() {
    let bindings = run_template_assignment(prog_storage_load).unwrap();
    let foo = bindings_of(&bindings, "foo");
    let (_, load_tmpl) = find_concrete_temp(foo).expect("Should find a Concrete temp for storage load");
    assert_eq!(*load_tmpl.base_type(), BaseType::Int);
    let refinement = load_tmpl.refinement().unwrap();
    match refinement {
        Predicate::BinRel { op: RelOp::Geq, .. } => {},
        _ => panic!("StorageLoad template should carry the declared storage refinement (>= 0), got {:?}", refinement),
    }
}

// entrypoint foo(a: int, b: int) { var x = 5; var y = a + b; var z = x; }
fn prog_uniqueness() -> Prog {
    let mut p = Prog::new();
    let f = p.function("foo", true, vec![("a", plain(BaseType::Int, "a")), ("b", plain(BaseType::Int, "b"))], vec![], vec![], unit());
    let x = p.local(&f, "x", inferred(BaseType::Int, "x"));
    let y = p.local(&f, "y", inferred(BaseType::Int, "y"));
    let z = p.local(&f, "z", inferred(BaseType::Int, "z"));
    let (a, b) = (f.params[0].clone(), f.params[1].clone());
    p.add_cfg(
        &f,
        vec![block(
            vec![
                copy(&reg(&x, 0), num(5)),
                binop(&temp(0), BinaryOperator::Add, at(&reg(&a, 0)), at(&reg(&b, 0))),
                copy(&reg(&y, 0), at(&temp(0))),
                copy(&reg(&z, 0), at(&reg(&x, 0))),
            ],
            ret(None),
            vec![],
            vec![],
        )],
        vec![(0, BaseType::Int)],
    );
    p
}

#[test]
fn test_liquid_variable_uniqueness() {
    let bindings = run_template_assignment(prog_uniqueness).unwrap();
    let foo = bindings_of(&bindings, "foo");
    let liquid_vars: Vec<_> = foo.entries().iter().filter_map(|(_, tmpl)| tmpl.liquid_var()).collect();
    assert!(!liquid_vars.is_empty(), "Should have at least some Liquid templates");
    let unique: std::collections::HashSet<_> = liquid_vars.iter().collect();
    assert_eq!(liquid_vars.len(), unique.len(), "All liquid variables should be unique. Found {:?}", liquid_vars);
}

// contract Test {
//     internal function annotated_return() -> {int | v > 0} { return 5; }
//     internal function plain_return() -> int { return 5; }
//     entrypoint caller() { var a = annotated_return(); var b = plain_return(); }
// }
fn prog_call_returns() -> Prog {
    let mut p = Prog::new();
    let annotated = p.function("annotated_return", false, vec![], vec![], vec![], refined(BaseType::Int, "v", rel(RelOp::Gt, v("v"), lit(0))));
    let plain_ret = p.function("plain_return", false, vec![], vec![], vec![], plain(BaseType::Int, "v"));
    let caller = p.function("caller", true, vec![], vec![], vec![], unit());
    let a = p.local(&caller, "a", inferred(BaseType::Int, "a"));
    let b = p.local(&caller, "b", inferred(BaseType::Int, "b"));
    p.add_cfg(&annotated, vec![block(vec![], ret(Some(num(5))), vec![], vec![])], vec![]);
    p.add_cfg(&plain_ret, vec![block(vec![], ret(Some(num(5))), vec![], vec![])], vec![]);
    let (ann_id, plain_id) = (annotated.id.clone(), plain_ret.id.clone());
    p.add_cfg(
        &caller,
        vec![block(
            vec![
                call(Some(&temp(0)), &ann_id, vec![]),
                copy(&reg(&a, 0), at(&temp(0))),
                call(Some(&temp(1)), &plain_id, vec![]),
                copy(&reg(&b, 0), at(&temp(1))),
            ],
            ret(None),
            vec![],
            vec![],
        )],
        vec![(0, BaseType::Int), (1, BaseType::Int)],
    );
    p
}

#[test]
fn test_function_call_return_template() {
    let bindings = run_template_assignment(prog_call_returns).unwrap();
    let caller = bindings_of(&bindings, "caller");
    let call_temps: Vec<(&String, &Template)> = caller.entries().iter().filter(|(name, _)| name.contains("__temp_")).map(|(n, t)| (n, t)).collect();
    assert!(
        call_temps.len() >= 2,
        "Should have at least 2 temp registers from the two function calls, got: {:?}",
        call_temps.iter().map(|(n, _)| n.as_str()).collect::<Vec<_>>()
    );
    for (name, tmpl) in &call_temps {
        assert!(
            tmpl.is_concrete(),
            "Function call temp '{}' should be Concrete (application rule: return type is declared in function signature), got {:?}",
            name,
            tmpl
        );
    }
    assert!(caller.get("a_0").unwrap().is_liquid(), "Named var 'a' should be Liquid");
    assert!(caller.get("b_0").unwrap().is_liquid(), "Named var 'b' should be Liquid");
}

// entrypoint foo(a: int, b: int) { var x = a + b; var y = x + 1; }
fn prog_chain() -> Prog {
    let mut p = Prog::new();
    let f = p.function("foo", true, vec![("a", plain(BaseType::Int, "a")), ("b", plain(BaseType::Int, "b"))], vec![], vec![], unit());
    let x = p.local(&f, "x", inferred(BaseType::Int, "x"));
    let y = p.local(&f, "y", inferred(BaseType::Int, "y"));
    let (a, b) = (f.params[0].clone(), f.params[1].clone());
    p.add_cfg(
        &f,
        vec![block(
            vec![
                binop(&temp(0), BinaryOperator::Add, at(&reg(&a, 0)), at(&reg(&b, 0))),
                copy(&reg(&x, 0), at(&temp(0))),
                binop(&temp(1), BinaryOperator::Add, at(&reg(&x, 0)), num(1)),
                copy(&reg(&y, 0), at(&temp(1))),
            ],
            ret(None),
            vec![],
            vec![],
        )],
        vec![(0, BaseType::Int), (1, BaseType::Int)],
    );
    p
}

#[test]
fn test_multiple_operations_template_chain() {
    let bindings = run_template_assignment(prog_chain).unwrap();
    let foo = bindings_of(&bindings, "foo");
    assert!(foo.get("a_0").unwrap().is_concrete(), "Parameter a should be Concrete (explicit type in signature)");
    assert!(foo.get("b_0").unwrap().is_concrete(), "Parameter b should be Concrete (explicit type in signature)");
    assert!(foo.get("x_0").unwrap().is_liquid(), "Named var x should be Liquid (no explicit annotation)");
    assert!(foo.get("y_0").unwrap().is_liquid(), "Named var y should be Liquid (no explicit annotation)");
    let concrete_temps = find_all_concrete_temps(foo);
    assert_eq!(
        concrete_temps.len(),
        2,
        "Should have 2 Concrete temps for 2 additions (ty(+) applied twice), found: {:?}",
        concrete_temps.iter().map(|(n, _)| n.as_str()).collect::<Vec<_>>()
    );
    for (_, tmpl) in &concrete_temps {
        assert_eq!(*tmpl.base_type(), BaseType::Int);
        let refinement = tmpl.refinement().unwrap();
        assert!(
            matches!(refinement, Predicate::BinRel { op: RelOp::Eq, .. }),
            "Arithmetic temp should have equality refinement (v = lhs + rhs), got {:?}",
            refinement
        );
    }
}

// ---------------------------------------------------------------------------
// Refinement inference
// ---------------------------------------------------------------------------

/// entrypoint foo() { var x: {int | x > 0} = <value>; }
fn prog_constant_into_annotation(value: i64) -> Prog {
    let mut p = Prog::new();
    let f = p.function("foo", true, vec![], vec![], vec![], unit());
    let x = p.local(&f, "x", refined(BaseType::Int, "x", rel(RelOp::Gt, v("x"), lit(0))));
    p.add_cfg(&f, vec![block(vec![copy(&reg(&x, 0), num(value))], ret(None), vec![], vec![])], vec![]);
    p
}

#[test]
fn test_constant_satisfies_annotation() {
    let result = run_refinement_inference(|| prog_constant_into_annotation(5));
    assert!(result.is_ok(), "5 satisfies {{x > 0}}: {:?}", result.err());
}

#[test]
fn test_constant_violates_annotation() {
    let result = run_refinement_inference(|| prog_constant_into_annotation(-5));
    assert!(result.is_err(), "-5 does not satisfy {{x > 0}}");
    let error = format!("{:?}", result.unwrap_err());
    assert!(error.contains("cannot satisfy subtyping"), "Expected subtyping error, got: {error}");
}

// entrypoint foo() { var x = 5; var y = x; }
fn prog_unannotated_copy() -> Prog {
    let mut p = Prog::new();
    let f = p.function("foo", true, vec![], vec![], vec![], unit());
    let x = p.local(&f, "x", inferred(BaseType::Int, "x"));
    let y = p.local(&f, "y", inferred(BaseType::Int, "y"));
    p.add_cfg(&f, vec![block(vec![copy(&reg(&x, 0), num(5)), copy(&reg(&y, 0), at(&reg(&x, 0)))], ret(None), vec![], vec![])], vec![]);
    p
}

#[test]
fn test_unannotated_copy_infers_type() {
    let result = run_refinement_inference(prog_unannotated_copy);
    assert!(result.is_ok(), "Unannotated copies always have a valid assignment: {:?}", result.err());
}

/// entrypoint foo() { var x: {int | x > 0} = 5; var y: {int | y <op> 0} = x; }
fn prog_annotated_copy(op: RelOp) -> Prog {
    let mut p = Prog::new();
    let f = p.function("foo", true, vec![], vec![], vec![], unit());
    let x = p.local(&f, "x", refined(BaseType::Int, "x", rel(RelOp::Gt, v("x"), lit(0))));
    let y = p.local(&f, "y", refined(BaseType::Int, "y", rel(op, v("y"), lit(0))));
    p.add_cfg(&f, vec![block(vec![copy(&reg(&x, 0), num(5)), copy(&reg(&y, 0), at(&reg(&x, 0)))], ret(None), vec![], vec![])], vec![]);
    p
}

#[test]
fn test_annotated_copy_compatible() {
    let result = run_refinement_inference(|| prog_annotated_copy(RelOp::Gt));
    assert!(result.is_ok(), "{{x > 0}} <: {{y > 0}}: {:?}", result.err());
}

#[test]
fn test_annotated_copy_incompatible() {
    let result = run_refinement_inference(|| prog_annotated_copy(RelOp::Lt));
    assert!(result.is_err(), "{{x > 0}} is not a subtype of {{y < 0}}");
    let error = format!("{:?}", result.unwrap_err());
    assert!(error.contains("cannot satisfy subtyping"), "Expected subtyping error, got: {error}");
}

// entrypoint foo() { var x: {int | x > 0} = 5; var y: {int | y > 0} = 3; var z = x + y; }
fn prog_addition_of_positives() -> Prog {
    let mut p = Prog::new();
    let f = p.function("foo", true, vec![], vec![], vec![], unit());
    let x = p.local(&f, "x", refined(BaseType::Int, "x", rel(RelOp::Gt, v("x"), lit(0))));
    let y = p.local(&f, "y", refined(BaseType::Int, "y", rel(RelOp::Gt, v("y"), lit(0))));
    let z = p.local(&f, "z", inferred(BaseType::Int, "z"));
    p.add_cfg(
        &f,
        vec![block(
            vec![
                copy(&reg(&x, 0), num(5)),
                copy(&reg(&y, 0), num(3)),
                binop(&temp(0), BinaryOperator::Add, at(&reg(&x, 0)), at(&reg(&y, 0))),
                copy(&reg(&z, 0), at(&temp(0))),
            ],
            ret(None),
            vec![],
            vec![],
        )],
        vec![(0, BaseType::Int)],
    );
    p
}

#[test]
fn test_addition_of_positives() {
    let result = run_refinement_inference(prog_addition_of_positives);
    assert!(result.is_ok(), "Addition of positives is safe: {:?}", result.err());
}

// entrypoint safe_sub(a: {a: int | a >= 0}, b: {b: int | b >= 0}) {
//     if (a >= b) { var result: {int | result >= 0} = a - b; }
// }
fn prog_guarded_subtraction() -> Prog {
    let mut p = Prog::new();
    let f = p.function(
        "safe_sub",
        true,
        vec![
            ("a", refined(BaseType::Int, "a", rel(RelOp::Geq, v("a"), lit(0)))),
            ("b", refined(BaseType::Int, "b", rel(RelOp::Geq, v("b"), lit(0)))),
        ],
        vec![],
        vec![],
        unit(),
    );
    let result = p.local(&f, "result", refined(BaseType::Int, "result", rel(RelOp::Geq, v("result"), lit(0))));
    let (a, b) = (f.params[0].clone(), f.params[1].clone());
    p.add_cfg(
        &f,
        vec![
            block(vec![binop(&temp(0), BinaryOperator::GreaterEqual, at(&reg(&a, 0)), at(&reg(&b, 0)))], branch(at(&temp(0)), 1, 2), vec![], vec![1, 2]),
            block(
                vec![binop(&temp(1), BinaryOperator::Subtract, at(&reg(&a, 0)), at(&reg(&b, 0))), copy(&reg(&result, 0), at(&temp(1)))],
                jump(2),
                vec![0],
                vec![2],
            ),
            block(vec![], ret(None), vec![0, 1], vec![]),
        ],
        vec![(0, BaseType::Bool), (1, BaseType::Int)],
    );
    p
}

#[test]
fn test_guarded_subtraction_non_negative() {
    let result = run_refinement_inference(prog_guarded_subtraction);
    assert!(result.is_ok(), "a >= b ∧ result = a - b ⇒ result >= 0: {:?}", result.err());
}

// entrypoint foo() { var x: {int | x > 0} = 5; var y: {int | y < 0} = -x; }
fn prog_unary_negation() -> Prog {
    let mut p = Prog::new();
    let f = p.function("foo", true, vec![], vec![], vec![], unit());
    let x = p.local(&f, "x", refined(BaseType::Int, "x", rel(RelOp::Gt, v("x"), lit(0))));
    let y = p.local(&f, "y", refined(BaseType::Int, "y", rel(RelOp::Lt, v("y"), lit(0))));
    p.add_cfg(
        &f,
        vec![block(
            vec![copy(&reg(&x, 0), num(5)), unop(&temp(0), UnaryOperator::Negate, at(&reg(&x, 0))), copy(&reg(&y, 0), at(&temp(0)))],
            ret(None),
            vec![],
            vec![],
        )],
        vec![(0, BaseType::Int)],
    );
    p
}

#[test]
fn test_unary_negation() {
    let result = run_refinement_inference(prog_unary_negation);
    assert!(result.is_ok(), "-(positive) is negative: {:?}", result.err());
}

/// internal function helper(n: {int | n > 0}) { var x = n; }
/// entrypoint foo() { helper(<arg>); }
fn prog_refined_param_call(arg: i64) -> Prog {
    let mut p = Prog::new();
    let helper = p.function("helper", false, vec![("n", refined(BaseType::Int, "n", rel(RelOp::Gt, v("n"), lit(0))))], vec![], vec![], unit());
    let x = p.local(&helper, "x", inferred(BaseType::Int, "x"));
    let foo = p.function("foo", true, vec![], vec![], vec![], unit());
    let n = helper.params[0].clone();
    p.add_cfg(&helper, vec![block(vec![copy(&reg(&x, 0), at(&reg(&n, 0)))], ret(None), vec![], vec![])], vec![]);
    let hid = helper.id.clone();
    p.add_cfg(&foo, vec![block(vec![call(None, &hid, vec![num(arg)])], ret(None), vec![], vec![])], vec![]);
    p
}

#[test]
fn test_refined_param_valid_call() {
    let result = run_refinement_inference(|| prog_refined_param_call(5));
    assert!(result.is_ok(), "5 satisfies {{n > 0}}: {:?}", result.err());
}

#[test]
fn test_refined_param_invalid_call() {
    let result = run_refinement_inference(|| prog_refined_param_call(-5));
    assert!(result.is_err(), "-5 does not satisfy {{n > 0}}");
    let error = format!("{:?}", result.unwrap_err());
    assert!(error.contains("cannot satisfy subtyping"), "Expected subtyping error, got: {error}");
}

// internal function add_positives(a: {a: int | a > 0}, b: {b: int | b > 0}) -> int {
//     var result = a + b; return result;
// }
// entrypoint foo() { add_positives(3, 7); }
fn prog_multiple_refined_params() -> Prog {
    let mut p = Prog::new();
    let f = p.function(
        "add_positives",
        false,
        vec![
            ("a", refined(BaseType::Int, "a", rel(RelOp::Gt, v("a"), lit(0)))),
            ("b", refined(BaseType::Int, "b", rel(RelOp::Gt, v("b"), lit(0)))),
        ],
        vec![],
        vec![],
        plain(BaseType::Int, "v"),
    );
    let result = p.local(&f, "result", inferred(BaseType::Int, "result"));
    let foo = p.function("foo", true, vec![], vec![], vec![], unit());
    let (a, b) = (f.params[0].clone(), f.params[1].clone());
    p.add_cfg(
        &f,
        vec![block(
            vec![binop(&temp(0), BinaryOperator::Add, at(&reg(&a, 0)), at(&reg(&b, 0))), copy(&reg(&result, 0), at(&temp(0)))],
            ret(Some(at(&reg(&result, 0)))),
            vec![],
            vec![],
        )],
        vec![(0, BaseType::Int)],
    );
    let fid = f.id.clone();
    p.add_cfg(&foo, vec![block(vec![call(Some(&temp(0)), &fid, vec![num(3), num(7)])], ret(None), vec![], vec![])], vec![(0, BaseType::Int)]);
    p
}

#[test]
fn test_multiple_refined_params() {
    let result = run_refinement_inference(prog_multiple_refined_params);
    assert!(result.is_ok(), "Both args satisfy their params: {:?}", result.err());
}

/// internal function positive() -> {int | v > 0} { return <value>; }
/// entrypoint foo() { <use> positive(); }
/// `use`: 0 for a bare call, 1 for `var res: int = ...`, 2 for
/// `var res: {int | res > 0} = ...`.
fn prog_positive_return(value: i64, usage: u8) -> Prog {
    let mut p = Prog::new();
    let positive = p.function("positive", false, vec![], vec![], vec![], refined(BaseType::Int, "v", rel(RelOp::Gt, v("v"), lit(0))));
    let foo = p.function("foo", true, vec![], vec![], vec![], unit());
    p.add_cfg(&positive, vec![block(vec![], ret(Some(num(value))), vec![], vec![])], vec![]);
    let pid = positive.id.clone();
    let body = match usage {
        0 => vec![call(Some(&temp(0)), &pid, vec![])],
        1 => {
            let res = p.local(&foo, "res", plain(BaseType::Int, "res"));
            vec![call(Some(&temp(0)), &pid, vec![]), copy(&reg(&res, 0), at(&temp(0)))]
        },
        _ => {
            let res = p.local(&foo, "res", refined(BaseType::Int, "res", rel(RelOp::Gt, v("res"), lit(0))));
            vec![call(Some(&temp(0)), &pid, vec![]), copy(&reg(&res, 0), at(&temp(0)))]
        },
    };
    p.add_cfg(&foo, vec![block(body, ret(None), vec![], vec![])], vec![(0, BaseType::Int)]);
    p
}

#[test]
fn test_return_type_valid() {
    let result = run_refinement_inference(|| prog_positive_return(5, 0));
    assert!(result.is_ok(), "5 satisfies {{v > 0}}: {:?}", result.err());
}

#[test]
fn test_return_type_valid_var() {
    let result = run_refinement_inference(|| prog_positive_return(5, 1));
    assert!(result.is_ok(), "5 satisfies {{v > 0}}: {:?}", result.err());
}

#[test]
fn test_return_type_valid_typed_var() {
    let result = run_refinement_inference(|| prog_positive_return(5, 2));
    assert!(result.is_ok(), "5 satisfies {{v > 0}}: {:?}", result.err());
}

#[test]
fn test_return_type_invalid() {
    let result = run_refinement_inference(|| prog_positive_return(-1, 0));
    assert!(result.is_err(), "-1 does not satisfy {{v > 0}}");
}

// entrypoint foo(x: int) {
//     if (x > 0) { var y: {int | y > 0} = x; } else { var z: {int | z <= 0} = x; }
// }
fn prog_path_sensitive() -> Prog {
    let mut p = Prog::new();
    let f = p.function("foo", true, vec![("x", plain(BaseType::Int, "x"))], vec![], vec![], unit());
    let y = p.local(&f, "y", refined(BaseType::Int, "y", rel(RelOp::Gt, v("y"), lit(0))));
    let z = p.local(&f, "z", refined(BaseType::Int, "z", rel(RelOp::Leq, v("z"), lit(0))));
    let x = f.params[0].clone();
    p.add_cfg(
        &f,
        vec![
            block(vec![binop(&temp(0), BinaryOperator::Greater, at(&reg(&x, 0)), num(0))], branch(at(&temp(0)), 1, 2), vec![], vec![1, 2]),
            block(vec![copy(&reg(&y, 0), at(&reg(&x, 0)))], jump(3), vec![0], vec![3]),
            block(vec![copy(&reg(&z, 0), at(&reg(&x, 0)))], jump(3), vec![0], vec![3]),
            block(vec![], ret(None), vec![1, 2], vec![]),
        ],
        vec![(0, BaseType::Bool)],
    );
    p
}

#[test]
fn test_path_sensitive_then_else() {
    let result = run_refinement_inference(prog_path_sensitive);
    assert!(result.is_ok(), "Path conditions refine x in each branch: {:?}", result.err());
}

// entrypoint foo(x: int) { if (x > 0) { var y: {int | y <= 0} = x; } }
fn prog_contradicts_branch() -> Prog {
    let mut p = Prog::new();
    let f = p.function("foo", true, vec![("x", plain(BaseType::Int, "x"))], vec![], vec![], unit());
    let y = p.local(&f, "y", refined(BaseType::Int, "y", rel(RelOp::Leq, v("y"), lit(0))));
    let x = f.params[0].clone();
    p.add_cfg(
        &f,
        vec![
            block(vec![binop(&temp(0), BinaryOperator::Greater, at(&reg(&x, 0)), num(0))], branch(at(&temp(0)), 1, 2), vec![], vec![1, 2]),
            block(vec![copy(&reg(&y, 0), at(&reg(&x, 0)))], jump(2), vec![0], vec![2]),
            block(vec![], ret(None), vec![0, 1], vec![]),
        ],
        vec![(0, BaseType::Bool)],
    );
    p
}

#[test]
fn test_annotation_contradicts_branch() {
    let result = run_refinement_inference(prog_contradicts_branch);
    assert!(result.is_err(), "x > 0 contradicts y <= 0");
}

// entrypoint foo(x: int) { if (x > 0) { if (x > 5) { var y: {int | y > 5} = x; } } }
fn prog_nested_conditionals() -> Prog {
    let mut p = Prog::new();
    let f = p.function("foo", true, vec![("x", plain(BaseType::Int, "x"))], vec![], vec![], unit());
    let y = p.local(&f, "y", refined(BaseType::Int, "y", rel(RelOp::Gt, v("y"), lit(5))));
    let x = f.params[0].clone();
    p.add_cfg(
        &f,
        vec![
            block(vec![binop(&temp(0), BinaryOperator::Greater, at(&reg(&x, 0)), num(0))], branch(at(&temp(0)), 1, 4), vec![], vec![1, 4]),
            block(vec![binop(&temp(1), BinaryOperator::Greater, at(&reg(&x, 0)), num(5))], branch(at(&temp(1)), 2, 3), vec![0], vec![2, 3]),
            block(vec![copy(&reg(&y, 0), at(&reg(&x, 0)))], jump(3), vec![1], vec![3]),
            block(vec![], jump(4), vec![1, 2], vec![4]),
            block(vec![], ret(None), vec![0, 3], vec![]),
        ],
        vec![(0, BaseType::Bool), (1, BaseType::Bool)],
    );
    p
}

#[test]
fn test_nested_conditionals_accumulate() {
    let result = run_refinement_inference(prog_nested_conditionals);
    assert!(result.is_ok(), "x > 0 ∧ x > 5 ⇒ y > 5: {:?}", result.err());
}

fn geq0(name: &str) -> Type {
    refined(BaseType::Int, name, rel(RelOp::Geq, v(name), lit(0)))
}

/// contract Test {
///     state var balance: {balance: int | balance >= 0} = 0;
///     entrypoint <name>(amount: <amount_ty>) { balance = balance <op> amount; }
/// }
fn prog_balance_update(name: &str, amount_ty: Type, op: BinaryOperator) -> Prog {
    let mut p = Prog::new();
    let balance = p.state_var("balance", geq0("balance"));
    let f = p.function(name, true, vec![("amount", amount_ty)], vec![], vec![], unit());
    let amount = f.params[0].clone();
    p.add_cfg(
        &f,
        vec![block(
            vec![load(&temp(0), &balance), binop(&temp(1), op, at(&temp(0)), at(&reg(&amount, 0))), store(&balance, at(&temp(1)))],
            ret(None),
            vec![],
            vec![],
        )],
        vec![(0, BaseType::Int), (1, BaseType::Int)],
    );
    p
}

#[test]
fn test_fold_valid_deposit() {
    let result = run_refinement_inference(|| prog_balance_update("deposit", geq0("amount"), BinaryOperator::Add));
    assert!(result.is_ok(), "balance + amount >= 0 when both >= 0: {:?}", result.err());
}

#[test]
fn test_fold_invalid_unchecked_withdraw() {
    let result = run_refinement_inference(|| prog_balance_update("withdraw", plain(BaseType::Int, "amount"), BinaryOperator::Subtract));
    assert!(result.is_err(), "balance - amount may be negative");
    let error = format!("{:?}", result.unwrap_err());
    assert!(error.contains("subtyping") || error.contains("storage invariant"), "Expected fold/subtyping error, got: {error}");
}

/// contract Test {
///     state var balance: {balance: int | balance >= 0} = 0;
///     entrypoint withdraw(amount: {amount: int | amount >= 0}) <requires> {
///         if (balance >= amount) { balance = balance - amount; }
///     }
/// }
fn prog_guarded_withdraw_with(requires: Vec<Predicate>) -> Prog {
    let mut p = Prog::new();
    let balance = p.state_var("balance", geq0("balance"));
    let f = p.function("withdraw", true, vec![("amount", geq0("amount"))], requires, vec![], unit());
    let amount = f.params[0].clone();
    p.add_cfg(
        &f,
        vec![
            block(
                vec![load(&temp(0), &balance), binop(&temp(1), BinaryOperator::GreaterEqual, at(&temp(0)), at(&reg(&amount, 0)))],
                branch(at(&temp(1)), 1, 2),
                vec![],
                vec![1, 2],
            ),
            block(
                vec![
                    load(&temp(2), &balance),
                    binop(&temp(3), BinaryOperator::Subtract, at(&temp(2)), at(&reg(&amount, 0))),
                    store(&balance, at(&temp(3))),
                ],
                jump(2),
                vec![0],
                vec![2],
            ),
            block(vec![], ret(None), vec![0, 1], vec![]),
        ],
        vec![(0, BaseType::Int), (1, BaseType::Bool), (2, BaseType::Int), (3, BaseType::Int)],
    );
    p
}

#[test]
fn test_fold_guarded_withdraw() {
    let result = run_refinement_inference(|| prog_guarded_withdraw_with(vec![]));
    assert!(result.is_ok(), "Guard ensures balance - amount >= 0: {:?}", result.err());
}

// contract Test {
//     state var x: {x: int | x >= 0} = 0;
//     state var y: {y: int | y >= 0} = 0;
//     entrypoint increment_both(dx: {dx: int | dx >= 0}, dy: {dy: int | dy >= 0}) { x = x + dx; y = y + dy; }
// }
fn prog_two_storage_vars() -> Prog {
    let mut p = Prog::new();
    let x = p.state_var("x", geq0("x"));
    let y = p.state_var("y", geq0("y"));
    let f = p.function("increment_both", true, vec![("dx", geq0("dx")), ("dy", geq0("dy"))], vec![], vec![], unit());
    let (dx, dy) = (f.params[0].clone(), f.params[1].clone());
    p.add_cfg(
        &f,
        vec![block(
            vec![
                load(&temp(0), &x),
                binop(&temp(1), BinaryOperator::Add, at(&temp(0)), at(&reg(&dx, 0))),
                store(&x, at(&temp(1))),
                load(&temp(2), &y),
                binop(&temp(3), BinaryOperator::Add, at(&temp(2)), at(&reg(&dy, 0))),
                store(&y, at(&temp(3))),
            ],
            ret(None),
            vec![],
            vec![],
        )],
        vec![(0, BaseType::Int), (1, BaseType::Int), (2, BaseType::Int), (3, BaseType::Int)],
    );
    p
}

#[test]
fn test_fold_multiple_storage_variables() {
    let result = run_refinement_inference(prog_two_storage_vars);
    assert!(result.is_ok(), "Each storage invariant independently maintained: {:?}", result.err());
}

/// entrypoint <name>(n: {n: int | n >= 0}) {
///     var i = n;
///     while (i > 0) with @invariant(<invariant>) @variant(i) { i = i - 1; }
/// }
fn prog_countdown(name: &str, invariant: Predicate) -> Prog {
    let mut p = Prog::new();
    let f = p.function(name, true, vec![("n", geq0("n"))], vec![], vec![], unit());
    let i = p.local(&f, "i", inferred(BaseType::Int, "i"));
    let n = f.params[0].clone();
    p.add_cfg(
        &f,
        vec![
            block(vec![copy(&reg(&i, 0), at(&reg(&n, 0)))], jump(1), vec![], vec![1]),
            block(
                vec![phi(&reg(&i, 1), vec![(0, &reg(&i, 0)), (2, &reg(&i, 2))]), binop(&temp(0), BinaryOperator::Greater, at(&reg(&i, 1)), num(0))],
                loop_branch(at(&temp(0)), 2, 3, vec![invariant], vec![v("i")]),
                vec![0, 2],
                vec![2, 3],
            ),
            block(
                vec![binop(&temp(1), BinaryOperator::Subtract, at(&reg(&i, 1)), num(1)), copy(&reg(&i, 2), at(&temp(1)))],
                jump(1),
                vec![1],
                vec![1],
            ),
            block(vec![], ret(None), vec![1], vec![]),
        ],
        vec![(0, BaseType::Bool), (1, BaseType::Int)],
    );
    p
}

#[test]
fn test_loop_valid_countdown() {
    let result = run_refinement_inference(|| prog_countdown("countdown", rel(RelOp::Geq, v("i"), lit(0))));
    assert!(result.is_ok(), "Countdown satisfies all loop obligations: {:?}", result.err());
}

#[test]
fn test_loop_invariant_not_preserved() {
    let result = run_refinement_inference(|| prog_countdown("bad_loop", rel(RelOp::Gt, v("i"), lit(0))));
    assert!(result.is_err(), "i > 0 not preserved: i = 1 → i' = 0 violates i' > 0");
    let error = format!("{:?}", result.unwrap_err());
    assert!(error.contains("Loop invariant") || error.contains("subtyping"), "Expected loop invariant error, got: {error}");
}

// internal function foo(x: int) -> int { var y: {int | y > 0} = x; return y; }
// entrypoint bar() { foo(5); }
fn prog_body_without_param_refinement() -> Prog {
    let mut p = Prog::new();
    let foo = p.function("foo", false, vec![("x", plain(BaseType::Int, "x"))], vec![], vec![], plain(BaseType::Int, "v"));
    let y = p.local(&foo, "y", refined(BaseType::Int, "y", rel(RelOp::Gt, v("y"), lit(0))));
    let bar = p.function("bar", true, vec![], vec![], vec![], unit());
    let x = foo.params[0].clone();
    p.add_cfg(&foo, vec![block(vec![copy(&reg(&y, 0), at(&reg(&x, 0)))], ret(Some(at(&reg(&y, 0)))), vec![], vec![])], vec![]);
    let fid = foo.id.clone();
    p.add_cfg(&bar, vec![block(vec![call(Some(&temp(0)), &fid, vec![num(5)])], ret(None), vec![], vec![])], vec![(0, BaseType::Int)]);
    p
}

#[test]
fn test_body_fails_without_param_refinement() {
    let result = run_refinement_inference(prog_body_without_param_refinement);
    assert!(result.is_err(), "Without param refinement, x: int has no guarantee of x > 0");
}

/// internal function foo(<params>) <requires> <ensures> -> int { return <first param>; }
/// entrypoint bar() { foo(<args>); }
fn prog_contract_on_params(params: Vec<&str>, requires: Vec<Predicate>, ensures: Vec<Predicate>, args: Vec<i64>) -> Prog {
    let mut p = Prog::new();
    let foo = p.function(
        "foo",
        false,
        params.iter().map(|n| (*n, plain(BaseType::Int, n))).collect(),
        requires,
        ensures,
        plain(BaseType::Int, "v"),
    );
    let bar = p.function("bar", true, vec![], vec![], vec![], unit());
    let first = foo.params[0].clone();
    p.add_cfg(&foo, vec![block(vec![], ret(Some(at(&reg(&first, 0)))), vec![], vec![])], vec![]);
    let fid = foo.id.clone();
    p.add_cfg(&bar, vec![block(vec![call(Some(&temp(0)), &fid, args.into_iter().map(num).collect())], ret(None), vec![], vec![])], vec![(0, BaseType::Int)]);
    p
}

#[test]
fn test_requires_param_only_rejected() {
    let result = run_refinement_inference(|| prog_contract_on_params(vec!["x"], vec![rel(RelOp::Gt, v("x"), lit(0))], vec![], vec![5]));
    assert!(result.is_err(), "requires with param-only predicate should be rejected");
    let error = format!("{:?}", result.unwrap_err());
    assert!(error.contains("only references parameters/locals"), "Expected validation error, got: {error}");
}

#[test]
fn test_ensures_param_only_rejected() {
    let result = run_refinement_inference(|| prog_contract_on_params(vec!["x"], vec![], vec![rel(RelOp::Gt, v("x"), lit(0))], vec![5]));
    assert!(result.is_err(), "ensures with param-only predicate should be rejected");
    let error = format!("{:?}", result.unwrap_err());
    assert!(error.contains("only references parameters/locals"), "Expected validation error, got: {error}");
}

#[test]
fn test_requires_multiple_params_rejected() {
    let result = run_refinement_inference(|| {
        prog_contract_on_params(vec!["a", "b"], vec![rel(RelOp::Gt, v("a"), lit(0)), rel(RelOp::Gt, v("b"), lit(0))], vec![], vec![3, 7])
    });
    assert!(result.is_err(), "requires with param-only predicates should be rejected");
    let error = format!("{:?}", result.unwrap_err());
    assert!(error.contains("only references parameters/locals"), "Expected validation error, got: {error}");
}

#[test]
fn test_requires_with_storage_accepted() {
    let result = run_refinement_inference(|| prog_guarded_withdraw_with(vec![rel(RelOp::Geq, v("balance"), v("amount"))]));
    if let Err(ref e) = result {
        let error = format!("{:?}", e);
        assert!(!error.contains("only references parameters/locals"), "Storage requires should pass validation, got: {error}");
    }
}

// contract Test {
//     state var balance: {balance: int | balance >= 0} = 0;
//     entrypoint deposit(amount: {amount: int | amount >= 0}) ensures(balance >= 0) { balance = balance + amount; }
// }
fn prog_deposit_with_ensures() -> Prog {
    let mut p = Prog::new();
    let balance = p.state_var("balance", geq0("balance"));
    let f = p.function("deposit", true, vec![("amount", geq0("amount"))], vec![], vec![rel(RelOp::Geq, v("balance"), lit(0))], unit());
    let amount = f.params[0].clone();
    p.add_cfg(
        &f,
        vec![block(
            vec![load(&temp(0), &balance), binop(&temp(1), BinaryOperator::Add, at(&temp(0)), at(&reg(&amount, 0))), store(&balance, at(&temp(1)))],
            ret(None),
            vec![],
            vec![],
        )],
        vec![(0, BaseType::Int), (1, BaseType::Int)],
    );
    p
}

// contract Test {
//     state var balance: {balance: int | balance >= 0} = 0;
//     entrypoint deposit(amount: {amount: int | amount >= 0}) ensures(balance > 1000) { balance = balance + amount; }
// }
fn prog_deposit_with_unprovable_ensures() -> Prog {
    let mut p = Prog::new();
    let balance = p.state_var("balance", geq0("balance"));
    let f = p.function("deposit", true, vec![("amount", geq0("amount"))], vec![], vec![rel(RelOp::Gt, v("balance"), lit(1000))], unit());
    let amount = f.params[0].clone();
    p.add_cfg(
        &f,
        vec![block(
            vec![load(&temp(0), &balance), binop(&temp(1), BinaryOperator::Add, at(&temp(0)), at(&reg(&amount, 0))), store(&balance, at(&temp(1)))],
            ret(None),
            vec![],
            vec![],
        )],
        vec![(0, BaseType::Int), (1, BaseType::Int)],
    );
    p
}

#[test]
fn a_postcondition_that_does_not_hold_is_refused() {
    let result = run_refinement_inference(prog_deposit_with_unprovable_ensures);
    let error = result.expect_err("balance + amount need not exceed 1000");
    assert!(error.contains("Postcondition not satisfied"), "got: {error}");
}

#[test]
fn test_ensures_with_storage_accepted() {
    let result = run_refinement_inference(prog_deposit_with_ensures);
    if let Err(ref e) = result {
        let error = format!("{:?}", e);
        assert!(!error.contains("only references parameters/locals"), "Storage ensures should pass validation, got: {error}");
    }
}

/// internal function <name>(x: <x_ty>) -> {v: int | <ret>} { var result = x <op> 1; return result; }
/// entrypoint foo() { <name>(5); }
fn prog_return_cross_ref(name: &str, x_ty: Type, ret_pred: Predicate, op: BinaryOperator) -> Prog {
    let mut p = Prog::new();
    let f = p.function(name, false, vec![("x", x_ty)], vec![], vec![], refined(BaseType::Int, "v", ret_pred));
    let result = p.local(&f, "result", inferred(BaseType::Int, "result"));
    let foo = p.function("foo", true, vec![], vec![], vec![], unit());
    let x = f.params[0].clone();
    p.add_cfg(
        &f,
        vec![block(
            vec![binop(&temp(0), op, at(&reg(&x, 0)), num(1)), copy(&reg(&result, 0), at(&temp(0)))],
            ret(Some(at(&reg(&result, 0)))),
            vec![],
            vec![],
        )],
        vec![(0, BaseType::Int)],
    );
    let fid = f.id.clone();
    p.add_cfg(&foo, vec![block(vec![call(Some(&temp(0)), &fid, vec![num(5)])], ret(None), vec![], vec![])], vec![(0, BaseType::Int)]);
    p
}

#[test]
fn test_return_type_references_input_param() {
    let result =
        run_refinement_inference(|| prog_return_cross_ref("increment", plain(BaseType::Int, "x"), rel(RelOp::Gt, v("v"), v("x")), BinaryOperator::Add));
    assert!(result.is_ok(), "x + 1 satisfies {{v > x}}: {:?}", result.err());
}

#[test]
fn test_return_type_references_input_param_invalid() {
    let result = run_refinement_inference(|| {
        prog_return_cross_ref("decrement", plain(BaseType::Int, "x"), rel(RelOp::Gt, v("v"), v("x")), BinaryOperator::Subtract)
    });
    assert!(result.is_err(), "x - 1 does not satisfy {{v > x}}");
}

#[test]
fn test_return_type_cross_ref_with_param_refinement() {
    let result = run_refinement_inference(|| prog_return_cross_ref("inc_positive", geq0("x"), rel(RelOp::Gt, v("v"), lit(0)), BinaryOperator::Add));
    assert!(result.is_ok(), "x >= 0 ∧ result = x + 1 ⇒ result > 0: {:?}", result.err());
}

// entrypoint demo(a: {a: int | a > 0}, b: {b: int | b > 5}) {
//     var sum = a + b;
//     if (sum > 10) { var result: {r: int | r > 10} = sum; }
// }
fn prog_iterative_strengthening() -> Prog {
    let mut p = Prog::new();
    let f = p.function(
        "demo",
        true,
        vec![("a", refined(BaseType::Int, "a", rel(RelOp::Gt, v("a"), lit(0)))), ("b", refined(BaseType::Int, "b", rel(RelOp::Gt, v("b"), lit(5))))],
        vec![],
        vec![],
        unit(),
    );
    let sum = p.local(&f, "sum", inferred(BaseType::Int, "sum"));
    let result = p.local(&f, "result", refined(BaseType::Int, "r", rel(RelOp::Gt, v("r"), lit(10))));
    let (a, b) = (f.params[0].clone(), f.params[1].clone());
    p.add_cfg(
        &f,
        vec![
            block(
                vec![
                    binop(&temp(0), BinaryOperator::Add, at(&reg(&a, 0)), at(&reg(&b, 0))),
                    copy(&reg(&sum, 0), at(&temp(0))),
                    binop(&temp(1), BinaryOperator::Greater, at(&reg(&sum, 0)), num(10)),
                ],
                branch(at(&temp(1)), 1, 2),
                vec![],
                vec![1, 2],
            ),
            block(vec![copy(&reg(&result, 0), at(&reg(&sum, 0)))], jump(2), vec![0], vec![2]),
            block(vec![], ret(None), vec![0, 1], vec![]),
        ],
        vec![(0, BaseType::Int), (1, BaseType::Bool)],
    );
    p
}

#[test]
fn test_iterative_type_strengthening() {
    let result = run_refinement_inference(prog_iterative_strengthening);
    assert!(
        result.is_ok(),
        "Solver strengthens κ_sum by combining: a > 0 ∧ b > 5 ∧ sum = a + b ∧ [sum > 10] ⊢ sum > 10: {:?}",
        result.err()
    );
}

// entrypoint demo(a: {a: int | a > 10}, b: {b: int | b > 20}) {
//     var x = a + b; var y: {y: int | y > 20} = x; var z: {z: int | z > 29} = x;
// }
fn prog_multiple_constraints() -> Prog {
    let mut p = Prog::new();
    let f = p.function(
        "demo",
        true,
        vec![("a", refined(BaseType::Int, "a", rel(RelOp::Gt, v("a"), lit(10)))), ("b", refined(BaseType::Int, "b", rel(RelOp::Gt, v("b"), lit(20))))],
        vec![],
        vec![],
        unit(),
    );
    let x = p.local(&f, "x", inferred(BaseType::Int, "x"));
    let y = p.local(&f, "y", refined(BaseType::Int, "y", rel(RelOp::Gt, v("y"), lit(20))));
    let z = p.local(&f, "z", refined(BaseType::Int, "z", rel(RelOp::Gt, v("z"), lit(29))));
    let (a, b) = (f.params[0].clone(), f.params[1].clone());
    p.add_cfg(
        &f,
        vec![block(
            vec![
                binop(&temp(0), BinaryOperator::Add, at(&reg(&a, 0)), at(&reg(&b, 0))),
                copy(&reg(&x, 0), at(&temp(0))),
                copy(&reg(&y, 0), at(&reg(&x, 0))),
                copy(&reg(&z, 0), at(&reg(&x, 0))),
            ],
            ret(None),
            vec![],
            vec![],
        )],
        vec![(0, BaseType::Int)],
    );
    p
}

#[test]
fn test_multiple_constraints_strengthening() {
    let result = run_refinement_inference(prog_multiple_constraints);
    assert!(result.is_ok(), "Solver infers κ_x to satisfy x > 20 ∧ x > 29 via a > 10 ∧ b > 20: {:?}", result.err());
}

// entrypoint demo(n: int, a: {a: int | a > 10}, b: {b: int | b > 20}) {
//     var x = 0;
//     if (n > 5) { x = 50; } else { x = a + b; }
//     var result: {r: int | r > 25} = x;
// }
fn prog_join_point() -> Prog {
    let mut p = Prog::new();
    let f = p.function(
        "demo",
        true,
        vec![
            ("n", plain(BaseType::Int, "n")),
            ("a", refined(BaseType::Int, "a", rel(RelOp::Gt, v("a"), lit(10)))),
            ("b", refined(BaseType::Int, "b", rel(RelOp::Gt, v("b"), lit(20)))),
        ],
        vec![],
        vec![],
        unit(),
    );
    let x = p.local(&f, "x", inferred(BaseType::Int, "x"));
    let result = p.local(&f, "result", refined(BaseType::Int, "r", rel(RelOp::Gt, v("r"), lit(25))));
    let (n, a, b) = (f.params[0].clone(), f.params[1].clone(), f.params[2].clone());
    p.add_cfg(
        &f,
        vec![
            block(
                vec![copy(&reg(&x, 0), num(0)), binop(&temp(0), BinaryOperator::Greater, at(&reg(&n, 0)), num(5))],
                branch(at(&temp(0)), 1, 2),
                vec![],
                vec![1, 2],
            ),
            block(vec![copy(&reg(&x, 1), num(50))], jump(3), vec![0], vec![3]),
            block(
                vec![binop(&temp(1), BinaryOperator::Add, at(&reg(&a, 0)), at(&reg(&b, 0))), copy(&reg(&x, 2), at(&temp(1)))],
                jump(3),
                vec![0],
                vec![3],
            ),
            block(
                vec![phi(&reg(&x, 3), vec![(1, &reg(&x, 1)), (2, &reg(&x, 2))]), copy(&reg(&result, 0), at(&reg(&x, 3)))],
                ret(None),
                vec![1, 2],
                vec![],
            ),
        ],
        vec![(0, BaseType::Bool), (1, BaseType::Int)],
    );
    p
}

#[test]
fn test_join_point_strengthening() {
    let result = run_refinement_inference(prog_join_point);
    assert!(result.is_ok(), "Solver verifies both paths: 50 > 25 ∧ (a + b > 30 > 25): {:?}", result.err());
}

// As above, but the then-branch assigns 10, which does not satisfy r > 25.
fn prog_join_point_one_path_fails() -> Prog {
    let mut p = Prog::new();
    let f = p.function(
        "demo",
        true,
        vec![
            ("n", plain(BaseType::Int, "n")),
            ("a", refined(BaseType::Int, "a", rel(RelOp::Gt, v("a"), lit(10)))),
            ("b", refined(BaseType::Int, "b", rel(RelOp::Gt, v("b"), lit(20)))),
        ],
        vec![],
        vec![],
        unit(),
    );
    let x = p.local(&f, "x", inferred(BaseType::Int, "x"));
    let result = p.local(&f, "result", refined(BaseType::Int, "r", rel(RelOp::Gt, v("r"), lit(25))));
    let (n, a, b) = (f.params[0].clone(), f.params[1].clone(), f.params[2].clone());
    p.add_cfg(
        &f,
        vec![
            block(
                vec![copy(&reg(&x, 0), num(0)), binop(&temp(0), BinaryOperator::Greater, at(&reg(&n, 0)), num(5))],
                branch(at(&temp(0)), 1, 2),
                vec![],
                vec![1, 2],
            ),
            block(vec![copy(&reg(&x, 1), num(10))], jump(3), vec![0], vec![3]),
            block(
                vec![binop(&temp(1), BinaryOperator::Add, at(&reg(&a, 0)), at(&reg(&b, 0))), copy(&reg(&x, 2), at(&temp(1)))],
                jump(3),
                vec![0],
                vec![3],
            ),
            block(
                vec![phi(&reg(&x, 3), vec![(1, &reg(&x, 1)), (2, &reg(&x, 2))]), copy(&reg(&result, 0), at(&reg(&x, 3)))],
                ret(None),
                vec![1, 2],
                vec![],
            ),
        ],
        vec![(0, BaseType::Bool), (1, BaseType::Int)],
    );
    p
}

#[test]
fn join_point_rejects_a_path_that_misses_the_demand() {
    let result = run_refinement_inference(prog_join_point_one_path_fails);
    assert!(result.is_err(), "10 > 25 fails on the then-path");
    assert!(result.unwrap_err().contains("cannot satisfy subtyping"));
}

// entrypoint demo(a: {a: int | a > 0}, b: {b: int | b > 0}) {
//     var sum = a + b; var result: {r: int | r > 100} = sum;
// }
fn prog_insufficient_information() -> Prog {
    let mut p = Prog::new();
    let f = p.function(
        "demo",
        true,
        vec![("a", refined(BaseType::Int, "a", rel(RelOp::Gt, v("a"), lit(0)))), ("b", refined(BaseType::Int, "b", rel(RelOp::Gt, v("b"), lit(0))))],
        vec![],
        vec![],
        unit(),
    );
    let sum = p.local(&f, "sum", inferred(BaseType::Int, "sum"));
    let result = p.local(&f, "result", refined(BaseType::Int, "r", rel(RelOp::Gt, v("r"), lit(100))));
    let (a, b) = (f.params[0].clone(), f.params[1].clone());
    p.add_cfg(
        &f,
        vec![block(
            vec![
                binop(&temp(0), BinaryOperator::Add, at(&reg(&a, 0)), at(&reg(&b, 0))),
                copy(&reg(&sum, 0), at(&temp(0))),
                copy(&reg(&result, 0), at(&reg(&sum, 0))),
            ],
            ret(None),
            vec![],
            vec![],
        )],
        vec![(0, BaseType::Int)],
    );
    p
}

#[test]
fn test_strengthening_insufficient_information() {
    let result = run_refinement_inference(prog_insufficient_information);
    assert!(result.is_err(), "Cannot prove sum > 100 from just a > 0 ∧ b > 0");
}

// entrypoint demo(a: {a: int | a >= 0}) {
//     var x = a + 1;
//     var pos: {p: int | p > 0} = x;
//     if (x > a) { var greater: {g: int | g > a} = x; }
// }
fn prog_cross_ref_param() -> Prog {
    let mut p = Prog::new();
    let f = p.function("demo", true, vec![("a", geq0("a"))], vec![], vec![], unit());
    let x = p.local(&f, "x", inferred(BaseType::Int, "x"));
    let pos = p.local(&f, "pos", refined(BaseType::Int, "p", rel(RelOp::Gt, v("p"), lit(0))));
    let greater = p.local(&f, "greater", refined(BaseType::Int, "g", rel(RelOp::Gt, v("g"), v("a"))));
    let a = f.params[0].clone();
    p.add_cfg(
        &f,
        vec![
            block(
                vec![
                    binop(&temp(0), BinaryOperator::Add, at(&reg(&a, 0)), num(1)),
                    copy(&reg(&x, 0), at(&temp(0))),
                    copy(&reg(&pos, 0), at(&reg(&x, 0))),
                    binop(&temp(1), BinaryOperator::Greater, at(&reg(&x, 0)), at(&reg(&a, 0))),
                ],
                branch(at(&temp(1)), 1, 2),
                vec![],
                vec![1, 2],
            ),
            block(vec![copy(&reg(&greater, 0), at(&reg(&x, 0)))], jump(2), vec![0], vec![2]),
            block(vec![], ret(None), vec![0, 1], vec![]),
        ],
        vec![(0, BaseType::Int), (1, BaseType::Bool)],
    );
    p
}

#[test]
fn test_cross_ref_to_parameter_in_refinement() {
    let result = run_refinement_inference(prog_cross_ref_param);
    assert!(result.is_ok(), "Cross-ref to param 'a' should resolve to 'a_0': {:?}", result.err());
}

// entrypoint demo(flag: bool, a: {a: int | a > 0}) { var x = 0; if (flag) { x = a; } }
fn prog_bool_param_branch() -> Prog {
    let mut p = Prog::new();
    let f = p.function(
        "demo",
        true,
        vec![("flag", plain(BaseType::Bool, "flag")), ("a", refined(BaseType::Int, "a", rel(RelOp::Gt, v("a"), lit(0))))],
        vec![],
        vec![],
        unit(),
    );
    let x = p.local(&f, "x", inferred(BaseType::Int, "x"));
    let (flag, a) = (f.params[0].clone(), f.params[1].clone());
    p.add_cfg(
        &f,
        vec![
            block(vec![copy(&reg(&x, 0), num(0))], branch(at(&reg(&flag, 0)), 1, 2), vec![], vec![1, 2]),
            block(vec![copy(&reg(&x, 1), at(&reg(&a, 0)))], jump(2), vec![0], vec![2]),
            block(vec![phi(&reg(&x, 2), vec![(0, &reg(&x, 0)), (1, &reg(&x, 1))])], ret(None), vec![0, 1], vec![]),
        ],
        vec![],
    );
    p
}

#[test]
fn test_bool_param_in_branch_condition() {
    let result = run_refinement_inference(prog_bool_param_branch);
    assert!(result.is_ok(), "Bool param in branch should not panic: {:?}", result.err());
}

// ---------------------------------------------------------------------------
// Storage analysis
// ---------------------------------------------------------------------------

fn external_call(object: &Register, method: &str, args: Vec<Operand>) -> SsaInstruction {
    SsaInstruction::Call {
        dest: None,
        target: CallTarget::External { object: object.clone(), method: method.to_string() },
        args,
        source_ref: sr(),
    }
}

fn ext_ty(binder: &str) -> Type {
    plain(BaseType::Contract("External".to_string()), binder)
}

fn function_blocks<'a>(p: &'a Prog, name: &str) -> &'a SsaCfg {
    p.contract.functions.iter().find(|f| f.name == name).expect("function not found")
}

fn count_instructions_of_type<F: Fn(&SsaInstruction) -> bool>(b: &BasicBlock, predicate: F) -> usize {
    b.instructions.iter().filter(|i| predicate(i)).count()
}

fn position_of<F: Fn(&SsaInstruction) -> bool>(b: &BasicBlock, predicate: F) -> Option<usize> {
    b.instructions.iter().position(|i| predicate(i))
}

fn is_unfold(i: &SsaInstruction) -> bool {
    matches!(i, SsaInstruction::Unfold { .. })
}

fn is_fold(i: &SsaInstruction) -> bool {
    matches!(i, SsaInstruction::Fold { .. })
}

fn is_call(i: &SsaInstruction) -> bool {
    matches!(i, SsaInstruction::Call { .. })
}

// contract Test {
//     state var balance: {int | balance >= 0} = 0;
//     entrypoint foo() { var x: int = balance; }
// }
fn prog_simple_load() -> Prog {
    let mut p = Prog::new();
    let balance = p.state_var("balance", geq0("balance"));
    let f = p.function("foo", true, vec![], vec![], vec![], unit());
    let x = p.local(&f, "x", plain(BaseType::Int, "x"));
    p.add_cfg(&f, vec![block(vec![load(&temp(0), &balance), copy(&reg(&x, 0), at(&temp(0)))], ret(None), vec![], vec![])], vec![(0, BaseType::Int)]);
    p
}

#[test]
fn test_simple_storage_load() {
    let program = with_storage(prog_simple_load).unwrap();
    let cfg = function_blocks(&program, "foo");
    let entry_block = &cfg.blocks[cfg.entry];
    let unfold_idx = position_of(entry_block, is_unfold).expect("Should have unfold instruction");
    let load_idx = position_of(entry_block, |i| matches!(i, SsaInstruction::StorageLoad { .. })).expect("Should have load instruction");
    let fold_idx = position_of(entry_block, is_fold).expect("Should have fold instruction");
    assert!(unfold_idx < load_idx, "Unfold should come before load");
    assert!(load_idx < fold_idx, "Load should come before fold");
}

// contract Test {
//     state var balance: {int | balance >= 0} = 0;
//     entrypoint foo() { balance = 100; }
// }
fn prog_simple_store() -> Prog {
    let mut p = Prog::new();
    let balance = p.state_var("balance", geq0("balance"));
    let f = p.function("foo", true, vec![], vec![], vec![], unit());
    p.add_cfg(&f, vec![block(vec![store(&balance, num(100))], ret(None), vec![], vec![])], vec![]);
    p
}

#[test]
fn test_simple_storage_write() {
    let program = with_storage(prog_simple_store).unwrap();
    let cfg = function_blocks(&program, "foo");
    let entry_block = &cfg.blocks[cfg.entry];
    let unfold_idx = position_of(entry_block, is_unfold).expect("Should have unfold");
    let store_idx = position_of(entry_block, |i| matches!(i, SsaInstruction::StorageStore { .. })).expect("Should have store");
    let fold_idx = position_of(entry_block, is_fold).expect("Should have fold");
    assert!(unfold_idx < store_idx, "Unfold before store");
    assert!(store_idx < fold_idx, "Store before fold");
}

// contract Test {
//     state var balance: {int | balance >= 0} = 0;
//     entrypoint foo(ext: External) { ext.bar(); balance = 100; }
// }
fn prog_write_after_call() -> Prog {
    let mut p = Prog::new();
    let balance = p.state_var("balance", geq0("balance"));
    let f = p.function("foo", true, vec![("ext", ext_ty("ext"))], vec![], vec![], unit());
    let ext = f.params[0].clone();
    p.add_cfg(&f, vec![block(vec![external_call(&reg(&ext, 0), "bar", vec![]), store(&balance, num(100))], ret(None), vec![], vec![])], vec![]);
    p
}

#[test]
fn test_cei_violation_write_after_call() {
    let result = with_storage(prog_write_after_call);
    assert!(result.is_err(), "Write after external call should be rejected");
    let error_msg = format!("{:?}", result.err().unwrap());
    assert!(
        error_msg.contains("StorageAccessAfterExternalCall") || error_msg.contains("write"),
        "Error should mention StorageAccessAfterExternalCall violation, got: {}",
        error_msg
    );
}

// contract Test {
//     state var balance: {int | balance >= 0} = 0;
//     entrypoint foo(ext: External, c: bool) { while (c) { balance = 1; ext.bar(); } }
// }
// The store comes before the call in the loop body, but runs again after it
// through the back edge.
fn prog_store_before_call_in_loop() -> Prog {
    let mut p = Prog::new();
    let balance = p.state_var("balance", geq0("balance"));
    let f = p.function("foo", true, vec![("ext", ext_ty("ext")), ("c", plain(BaseType::Bool, "c"))], vec![], vec![], unit());
    let ext = f.params[0].clone();
    let c = f.params[1].clone();
    p.add_cfg(
        &f,
        vec![
            block(vec![], branch(at(&reg(&c, 0)), 1, 2), vec![1], vec![1, 2]),
            block(vec![store(&balance, num(1)), external_call(&reg(&ext, 0), "bar", vec![])], jump(0), vec![0], vec![0]),
            block(vec![], ret(None), vec![0], vec![]),
        ],
        vec![],
    );
    p
}

#[test]
fn store_reached_again_through_a_back_edge_is_a_write_after_call() {
    let result = with_storage(prog_store_before_call_in_loop);
    assert!(result.is_err(), "the store runs again after the call on the next iteration");
    let error_msg = format!("{:?}", result.err().unwrap());
    assert!(error_msg.contains("StorageAccessAfterExternalCall"), "got: {}", error_msg);
}

// contract Test {
//     state var balance: {int | balance >= 0} = 0;
//     entrypoint foo() { balance = balance + 100; }
// }
fn prog_load_then_store() -> Prog {
    let mut p = Prog::new();
    let balance = p.state_var("balance", geq0("balance"));
    let f = p.function("foo", true, vec![], vec![], vec![], unit());
    p.add_cfg(
        &f,
        vec![block(
            vec![load(&temp(0), &balance), binop(&temp(1), BinaryOperator::Add, at(&temp(0)), num(100)), store(&balance, at(&temp(1)))],
            ret(None),
            vec![],
            vec![],
        )],
        vec![(0, BaseType::Int), (1, BaseType::Int)],
    );
    p
}

#[test]
fn test_load_then_store_single_unfold() {
    let program = with_storage(prog_load_then_store).unwrap();
    let cfg = function_blocks(&program, "foo");
    let entry_block = &cfg.blocks[cfg.entry];
    assert_eq!(count_instructions_of_type(entry_block, is_unfold), 1, "Should only unfold once for load+store");
    assert_eq!(count_instructions_of_type(entry_block, is_fold), 1, "Should fold once at the end");
}

// contract Test {
//     state var balance: {int | balance >= 0} = 0;
//     state var count: {int | count >= 0} = 0;
//     entrypoint foo(ext: External) { ext.bar(); }
// }
fn prog_call_two_vars() -> Prog {
    let mut p = Prog::new();
    p.state_var("balance", geq0("balance"));
    p.state_var("count", geq0("count"));
    let f = p.function("foo", true, vec![("ext", ext_ty("ext"))], vec![], vec![], unit());
    let ext = f.params[0].clone();
    p.add_cfg(&f, vec![block(vec![external_call(&reg(&ext, 0), "bar", vec![])], ret(None), vec![], vec![])], vec![]);
    p
}

#[test]
fn test_external_call_multiple_storage_vars() {
    let program = with_storage(prog_call_two_vars).unwrap();
    let cfg = function_blocks(&program, "foo");
    let entry_block = &cfg.blocks[cfg.entry];
    assert_eq!(count_instructions_of_type(entry_block, is_unfold), 2, "Should unfold both storage vars before external call");
    assert_eq!(count_instructions_of_type(entry_block, is_fold), 2, "Should fold both storage vars after external call");
}

// contract Test {
//     state var balance: {int | balance >= 0} = 0;
//     entrypoint foo(ext: External) { ext.bar(); var x: int = balance; }
// }
fn prog_read_after_call() -> Prog {
    let mut p = Prog::new();
    let balance = p.state_var("balance", geq0("balance"));
    let f = p.function("foo", true, vec![("ext", ext_ty("ext"))], vec![], vec![], unit());
    let x = p.local(&f, "x", plain(BaseType::Int, "x"));
    let ext = f.params[0].clone();
    p.add_cfg(
        &f,
        vec![block(
            vec![external_call(&reg(&ext, 0), "bar", vec![]), load(&temp(0), &balance), copy(&reg(&x, 0), at(&temp(0)))],
            ret(None),
            vec![],
            vec![],
        )],
        vec![(0, BaseType::Int)],
    );
    p
}

#[test]
fn test_read_after_external_call_allowed() {
    let result = with_storage(prog_read_after_call);
    assert!(result.is_ok(), "Read after external call should be allowed");
}

// contract Test {
//     state var balance: {int | balance >= 0} = 0;
//     entrypoint foo(ext: External, cond: bool) { ext.bar(); if (cond) { balance = 100; } }
// }
fn prog_conditional_write_after_call() -> Prog {
    let mut p = Prog::new();
    let balance = p.state_var("balance", geq0("balance"));
    let f = p.function("foo", true, vec![("ext", ext_ty("ext")), ("cond", plain(BaseType::Bool, "cond"))], vec![], vec![], unit());
    let (ext, cond) = (f.params[0].clone(), f.params[1].clone());
    p.add_cfg(
        &f,
        vec![
            block(vec![external_call(&reg(&ext, 0), "bar", vec![])], branch(at(&reg(&cond, 0)), 1, 2), vec![], vec![1, 2]),
            block(vec![store(&balance, num(100))], jump(2), vec![0], vec![2]),
            block(vec![], ret(None), vec![0, 1], vec![]),
        ],
        vec![],
    );
    p
}

#[test]
fn test_write_in_conditional_after_external_call() {
    let result = with_storage(prog_conditional_write_after_call);
    assert!(result.is_err(), "Write after external call should be forbidden even in conditional");
    let error_msg = format!("{:?}", result.err().unwrap());
    assert!(error_msg.contains("StorageAccessAfterExternalCall"), "Error should mention storage access after external call");
}

// contract Test {
//     state const MAX: int = 1000;
//     entrypoint foo() { MAX = 2000; }
// }
fn prog_write_const() -> Prog {
    let mut p = Prog::new();
    let max = p.state_const("MAX", plain(BaseType::Int, "MAX"));
    let f = p.function("foo", true, vec![], vec![], vec![], unit());
    p.add_cfg(&f, vec![block(vec![store(&max, num(2000))], ret(None), vec![], vec![])], vec![]);
    p
}

#[test]
fn test_write_to_const_forbidden() {
    let result = with_storage(prog_write_const);
    assert!(result.is_err(), "Writing to state const should be forbidden");
    let error_msg = format!("{:?}", result.err().unwrap());
    assert!(
        error_msg.contains("WriteToImmutable") || error_msg.contains("const"),
        "Error should mention write to immutable/const, got: {}",
        error_msg
    );
}

// contract Test {
//     state var balance: {int | balance >= 0} = 0;
//     internal function helper(ext: External) { ext.bar(); }
//     entrypoint foo(ext: External) { helper(ext); }
// }
fn prog_internal_with_external() -> Prog {
    let mut p = Prog::new();
    p.state_var("balance", geq0("balance"));
    let helper = p.function("helper", false, vec![("ext", ext_ty("ext"))], vec![], vec![], unit());
    let foo = p.function("foo", true, vec![("ext", ext_ty("ext"))], vec![], vec![], unit());
    let hext = helper.params[0].clone();
    let fext = foo.params[0].clone();
    p.add_cfg(&helper, vec![block(vec![external_call(&reg(&hext, 0), "bar", vec![])], ret(None), vec![], vec![])], vec![]);
    let hid = helper.id.clone();
    p.add_cfg(&foo, vec![block(vec![call(None, &hid, vec![at(&reg(&fext, 0))])], ret(None), vec![], vec![])], vec![]);
    p
}

#[test]
fn test_internal_with_external_call() {
    let program = with_storage(prog_internal_with_external).unwrap();
    let cfg = function_blocks(&program, "foo");
    let call_block = cfg.blocks.iter().find(|b| b.instructions.iter().any(is_call)).expect("Should have call");
    let has_pre_call_unfold = call_block.instructions.iter().take_while(|i| !is_call(i)).any(is_unfold);
    assert!(has_pre_call_unfold, "Should unfold before internal call that contains external calls");
}

// contract Test {
//     state var balance: {int | balance >= 0} = 0;
//     entrypoint withdraw(ext: External, amount: int) { balance = balance - amount; ext.transfer(amount); }
// }
fn prog_correct_cei() -> Prog {
    let mut p = Prog::new();
    let balance = p.state_var("balance", geq0("balance"));
    let f = p.function("withdraw", true, vec![("ext", ext_ty("ext")), ("amount", plain(BaseType::Int, "amount"))], vec![], vec![], unit());
    let (ext, amount) = (f.params[0].clone(), f.params[1].clone());
    p.add_cfg(
        &f,
        vec![block(
            vec![
                load(&temp(0), &balance),
                binop(&temp(1), BinaryOperator::Subtract, at(&temp(0)), at(&reg(&amount, 0))),
                store(&balance, at(&temp(1))),
                external_call(&reg(&ext, 0), "transfer", vec![at(&reg(&amount, 0))]),
            ],
            ret(None),
            vec![],
            vec![],
        )],
        vec![(0, BaseType::Int), (1, BaseType::Int)],
    );
    p
}

#[test]
fn test_correct_cei_pattern() {
    let result = with_storage(prog_correct_cei);
    assert!(result.is_ok(), "Correct CEI pattern should compile");
}

// contract Test {
//     state var balance: {int | balance >= 0} = 0;
//     internal function safe_helper() { balance = balance + 1; }
//     entrypoint foo() { safe_helper(); }
// }
fn prog_internal_without_external() -> Prog {
    let mut p = Prog::new();
    let balance = p.state_var("balance", geq0("balance"));
    let helper = p.function("safe_helper", false, vec![], vec![], vec![], unit());
    let foo = p.function("foo", true, vec![], vec![], vec![], unit());
    p.add_cfg(
        &helper,
        vec![block(
            vec![load(&temp(0), &balance), binop(&temp(1), BinaryOperator::Add, at(&temp(0)), num(1)), store(&balance, at(&temp(1)))],
            ret(None),
            vec![],
            vec![],
        )],
        vec![(0, BaseType::Int), (1, BaseType::Int)],
    );
    let hid = helper.id.clone();
    p.add_cfg(&foo, vec![block(vec![call(None, &hid, vec![])], ret(None), vec![], vec![])], vec![]);
    p
}

#[test]
fn test_internal_without_external_call() {
    let program = with_storage(prog_internal_without_external).unwrap();
    let cfg = function_blocks(&program, "foo");
    let entry_block = &cfg.blocks[cfg.entry];
    let call_idx = position_of(entry_block, is_call).expect("Should have call");
    let has_unfold_before_call = call_idx > 0 && is_unfold(&entry_block.instructions[call_idx - 1]);
    assert!(!has_unfold_before_call, "Should NOT unfold before internal call without external calls");
}

// contract Test {
//     state var balance: {int | balance >= 0} = 0;
//     entrypoint foo(ext: External) guarded { ext.bar(); balance = 100; }
// }
fn prog_guarded_entrypoint() -> Prog {
    let mut p = Prog::new();
    let balance = p.state_var("balance", geq0("balance"));
    let f = p.function_with("foo", true, Modifier::Guarded, vec![("ext", ext_ty("ext"))], vec![], vec![], unit());
    let ext = f.params[0].clone();
    p.add_cfg(&f, vec![block(vec![external_call(&reg(&ext, 0), "bar", vec![]), store(&balance, num(100))], ret(None), vec![], vec![])], vec![]);
    p
}

#[test]
fn test_guarded_entrypoint() {
    let result = with_storage(prog_guarded_entrypoint);
    assert!(result.is_ok(), "Guarded entrypoint should allow write after external call");
}

// contract Test {
//     state var balance: {int | balance >= 0} = 0;
//     internal function level3(ext: External) { ext.bar(); }
//     internal function level2(ext: External) { level3(ext); }
//     internal function level1(ext: External) { level2(ext); }
//     entrypoint foo(ext: External) { level1(ext); }
// }
fn prog_nested_internal_calls() -> Prog {
    let mut p = Prog::new();
    p.state_var("balance", geq0("balance"));
    let l3 = p.function("level3", false, vec![("ext", ext_ty("ext"))], vec![], vec![], unit());
    let l2 = p.function("level2", false, vec![("ext", ext_ty("ext"))], vec![], vec![], unit());
    let l1 = p.function("level1", false, vec![("ext", ext_ty("ext"))], vec![], vec![], unit());
    let foo = p.function("foo", true, vec![("ext", ext_ty("ext"))], vec![], vec![], unit());
    let e3 = l3.params[0].clone();
    p.add_cfg(&l3, vec![block(vec![external_call(&reg(&e3, 0), "bar", vec![])], ret(None), vec![], vec![])], vec![]);
    for (caller, callee) in [(&l2, &l3), (&l1, &l2), (&foo, &l1)] {
        let e = caller.params[0].clone();
        let cid = callee.id.clone();
        p.add_cfg(caller, vec![block(vec![call(None, &cid, vec![at(&reg(&e, 0))])], ret(None), vec![], vec![])], vec![]);
    }
    p
}

#[test]
fn test_nested_internal_calls() {
    let program = with_storage(prog_nested_internal_calls).unwrap();
    let cfg = function_blocks(&program, "foo");
    let entry_block = &cfg.blocks[cfg.entry];
    let has_unfold = entry_block.instructions.iter().any(is_unfold);
    let has_fold = entry_block.instructions.iter().any(is_fold);
    assert!(has_unfold, "Should unfold before nested call chain with external");
    assert!(has_fold, "Should fold after nested call chain with external");
}

// contract Test {
//     state var balance: {int | balance >= 0} = 0;
//     entrypoint foo(ext1: External, ext2: External, ext3: External) { ext1.bar(); ext2.bar(); ext3.bar(); }
// }
fn prog_three_calls() -> Prog {
    let mut p = Prog::new();
    p.state_var("balance", geq0("balance"));
    let f = p.function("foo", true, vec![("ext1", ext_ty("ext1")), ("ext2", ext_ty("ext2")), ("ext3", ext_ty("ext3"))], vec![], vec![], unit());
    let exts: Vec<SymbolId> = f.params.clone();
    p.add_cfg(&f, vec![block(exts.iter().map(|e| external_call(&reg(e, 0), "bar", vec![])).collect(), ret(None), vec![], vec![])], vec![]);
    p
}

#[test]
fn test_multiple_consecutive_external_calls() {
    let program = with_storage(prog_three_calls).unwrap();
    let entry_block = &program.contract.functions[0].blocks[0];
    assert_eq!(count_instructions_of_type(entry_block, is_call), 3, "Should have 3 calls");
    assert_eq!(count_instructions_of_type(entry_block, is_unfold), 3, "Should unfold before each call");
    assert_eq!(count_instructions_of_type(entry_block, is_fold), 3, "Should fold after each call");
}

// contract Test {
//     state var balance: {int | balance >= 0} = 0;
//     state const MAX: int = 1000;
//     entrypoint foo(ext: External) { ext.bar(); }
// }
fn prog_const_and_call() -> Prog {
    let mut p = Prog::new();
    p.state_var("balance", geq0("balance"));
    p.state_const("MAX", plain(BaseType::Int, "MAX"));
    let f = p.function("foo", true, vec![("ext", ext_ty("ext"))], vec![], vec![], unit());
    let ext = f.params[0].clone();
    p.add_cfg(&f, vec![block(vec![external_call(&reg(&ext, 0), "bar", vec![])], ret(None), vec![], vec![])], vec![]);
    p
}

#[test]
fn test_const_not_unfolded_on_external_call() {
    let program = with_storage(prog_const_and_call).unwrap();
    let cfg = function_blocks(&program, "foo");
    let entry_block = &cfg.blocks[cfg.entry];
    assert_eq!(count_instructions_of_type(entry_block, is_unfold), 1, "Should only unfold mutable var");
    assert_eq!(count_instructions_of_type(entry_block, is_fold), 1, "Should only fold mutable var");
}

// contract Test {
//     state var balance: {int | balance >= 0} = 0;
//     internal function helper(ext: External) { ext.bar(); balance = 100; }
//     entrypoint foo(ext: External) guarded { helper(ext); }
// }
fn prog_guarded_with_internal() -> Prog {
    let mut p = Prog::new();
    let balance = p.state_var("balance", geq0("balance"));
    let helper = p.function("helper", false, vec![("ext", ext_ty("ext"))], vec![], vec![], unit());
    let foo = p.function_with("foo", true, Modifier::Guarded, vec![("ext", ext_ty("ext"))], vec![], vec![], unit());
    let hext = helper.params[0].clone();
    let fext = foo.params[0].clone();
    p.add_cfg(&helper, vec![block(vec![external_call(&reg(&hext, 0), "bar", vec![]), store(&balance, num(100))], ret(None), vec![], vec![])], vec![]);
    let hid = helper.id.clone();
    p.add_cfg(&foo, vec![block(vec![call(None, &hid, vec![at(&reg(&fext, 0))])], ret(None), vec![], vec![])], vec![]);
    p
}

#[test]
fn test_guarded_with_internal_call() {
    let result = with_storage(prog_guarded_with_internal);
    assert!(result.is_err(), "Internal function should still validate CEI even if called from guarded");
}

// ---------------------------------------------------------------------------
// Constraint generation
// ---------------------------------------------------------------------------

fn run_constraint_generation(build: fn() -> Prog) -> Result<Vec<(String, ConstraintSet)>, String> {
    let program = with_storage(build)?;
    let mut lie = LiquidInferenceEngine::new(&program.table);
    let mut result = Vec::new();
    for cfg in &program.contract.functions {
        let constraints = lie.generate_constraints_only(cfg).map_err(|e| format!("Constraint generation error: {:?}", e))?;
        result.push((cfg.name.clone(), constraints));
    }
    Ok(result)
}

fn constraints_of<'a>(all: &'a Vec<(String, ConstraintSet)>, name: &str) -> &'a Vec<Constraint> {
    all.iter().find(|(n, _)| n == name).expect("function not found").1.constraints()
}

fn count_constraints(cs: &Vec<Constraint>, predicate: fn(&Constraint) -> bool) -> usize {
    cs.iter().filter(|c| predicate(c)).count()
}

fn is_subtype(c: &Constraint) -> bool {
    matches!(c, Constraint::Subtype { .. })
}

fn is_wellformed(c: &Constraint) -> bool {
    matches!(c, Constraint::WellFormed { .. })
}

fn is_binop(c: &Constraint) -> bool {
    matches!(c, Constraint::BinaryOp { .. })
}

fn is_requires(c: &Constraint) -> bool {
    matches!(c, Constraint::Requires { .. })
}

fn is_ensures(c: &Constraint) -> bool {
    matches!(c, Constraint::Ensures { .. })
}

fn is_fold_constraint(c: &Constraint) -> bool {
    matches!(c, Constraint::Fold { .. })
}

fn is_loop_invariant_entry(c: &Constraint) -> bool {
    matches!(c, Constraint::LoopInvariantEntry { .. })
}

fn is_loop_invariant_preservation(c: &Constraint) -> bool {
    matches!(c, Constraint::LoopInvariantPreservation { .. })
}

fn is_loop_variant_nonneg(c: &Constraint) -> bool {
    matches!(c, Constraint::LoopVariantNonNegative { .. })
}

fn is_loop_variant_decreases(c: &Constraint) -> bool {
    matches!(c, Constraint::LoopVariantDecreases { .. })
}

fn texts(cs: &[&Constraint]) -> Vec<String> {
    cs.iter().map(|c| format!("{:?}", c)).collect()
}

#[test]
fn test_copy_generates_subtype() {
    let constraints = run_constraint_generation(prog_params).unwrap();
    let foo = constraints_of(&constraints, "foo");
    let subtypes: Vec<&Constraint> = foo.iter().filter(|c| is_subtype(c)).collect();
    assert!(!subtypes.is_empty(), "Copy instruction should generate at least one Subtype constraint");
    let copy_subtype = subtypes.iter().find(|c| {
        if let Constraint::Subtype { sub, sup, .. } = c {
            sub.binder() == "a_0" && sup.binder() == "x_0"
        } else {
            false
        }
    });
    assert!(copy_subtype.is_some(), "Should find Subtype(a_0 <: x_0) from Copy instruction. Available subtypes: {:?}", texts(&subtypes));
    if let Some(Constraint::Subtype { context, .. }) = copy_subtype {
        assert!(context.in_scope("a_0"), "Context should contain binding for parameter a_0");
    }
}

#[test]
fn test_arithmetic_generates_wellformed_and_binop() {
    let constraints = run_constraint_generation(prog_add).unwrap();
    let foo = constraints_of(&constraints, "foo");
    let wf_count = count_constraints(foo, is_wellformed);
    assert!(wf_count >= 3, "BinaryOp should generate at least 3 WellFormed constraints (left, right, dest), got {}", wf_count);
    let binop_count = count_constraints(foo, is_binop);
    assert_eq!(binop_count, 1, "Should generate exactly 1 BinaryOp constraint for a + b");
    let binop = foo.iter().find(|c| is_binop(c)).unwrap();
    if let Constraint::BinaryOp { op, result, context, .. } = binop {
        assert_eq!(*op, BinaryOperator::Add, "Operator should be Add");
        assert!(result.is_concrete(), "Arithmetic result template should be Concrete (ty(+) from paper)");
        assert!(context.in_scope("a_0") && context.in_scope("b_0"), "Context should have both operands in scope");
    } else {
        panic!("Expected BinaryOp constraint");
    }
}

#[test]
fn test_phi_generates_subtype_per_branch() {
    let constraints = run_constraint_generation(prog_phi).unwrap();
    let foo = constraints_of(&constraints, "foo");
    let subtype_count = count_constraints(foo, is_subtype);
    assert!(subtype_count >= 4, "Should have at least 4 Subtype constraints (copies + phi joins), got {}", subtype_count);
}

#[test]
fn test_return_generates_subtype_to_declared_type() {
    let constraints = run_constraint_generation(|| prog_positive_return(5, 0)).unwrap();
    let positive = constraints_of(&constraints, "positive");
    let subtypes: Vec<&Constraint> = positive.iter().filter(|c| is_subtype(c)).collect();
    let return_subtype = subtypes.iter().find(|c| {
        if let Constraint::Subtype { sup, .. } = c {
            if let Some(ref_pred) = sup.refinement() {
                matches!(ref_pred, Predicate::BinRel { op: RelOp::Gt, .. })
            } else {
                false
            }
        } else {
            false
        }
    });
    assert!(return_subtype.is_some(), "Return should generate Subtype(actual <: {{int | v > 0}}). Available subtypes: {:?}", texts(&subtypes));
}

#[test]
fn test_storage_load_generates_subtype() {
    let constraints = run_constraint_generation(prog_storage_load).unwrap();
    let foo = constraints_of(&constraints, "foo");
    let subtype_count = count_constraints(foo, is_subtype);
    assert!(subtype_count >= 2, "StorageLoad + Copy should produce at least 2 Subtype constraints, got {}", subtype_count);
}

#[test]
fn test_storage_store_generates_subtype() {
    let constraints = run_constraint_generation(prog_simple_store).unwrap();
    let set_balance = constraints_of(&constraints, "foo");
    let subtype_count = count_constraints(set_balance, is_subtype);
    assert!(subtype_count >= 1, "StorageStore should generate at least 1 Subtype constraint for the write, got {}", subtype_count);
}

#[test]
fn test_fold_generates_fold_constraint() {
    let constraints = run_constraint_generation(|| prog_balance_update("deposit", geq0("amount"), BinaryOperator::Add)).unwrap();
    let deposit = constraints_of(&constraints, "deposit");
    let fold_count = count_constraints(deposit, is_fold_constraint);
    assert!(fold_count >= 1, "Storage mutation should generate at least 1 Fold constraint, got {}", fold_count);
    let fold = deposit.iter().find(|c| is_fold_constraint(c)).unwrap();
    if let Constraint::Fold { refinement, .. } = fold {
        assert!(
            matches!(refinement, Predicate::BinRel { op: RelOp::Geq, .. }),
            "Fold refinement should be the declared storage invariant (>= 0), got {:?}",
            refinement
        );
    } else {
        panic!("Expected Fold constraint");
    }
}

/// contract Test {
///     state var balance: {balance: int | balance >= 0} = 0;
///     internal function helper(n: {n: int | n > 0}) requires(balance >= n) { var x = n; }
///     entrypoint foo() { helper(5); }
/// }
fn prog_helper_with_requires() -> Prog {
    let mut p = Prog::new();
    let _balance = p.state_var("balance", geq0("balance"));
    let helper = p.function(
        "helper",
        false,
        vec![("n", refined(BaseType::Int, "n", rel(RelOp::Gt, v("n"), lit(0))))],
        vec![rel(RelOp::Geq, v("balance"), v("n"))],
        vec![],
        unit(),
    );
    let x = p.local(&helper, "x", inferred(BaseType::Int, "x"));
    let foo = p.function("foo", true, vec![], vec![], vec![], unit());
    let n = helper.params[0].clone();
    p.add_cfg(&helper, vec![block(vec![copy(&reg(&x, 0), at(&reg(&n, 0)))], ret(None), vec![], vec![])], vec![]);
    let hid = helper.id.clone();
    p.add_cfg(&foo, vec![block(vec![call(None, &hid, vec![num(5)])], ret(None), vec![], vec![])], vec![]);
    p
}

#[test]
fn test_function_call_generates_requires_and_param_subtype() {
    let constraints = run_constraint_generation(prog_helper_with_requires).unwrap();
    let foo = constraints_of(&constraints, "foo");
    let requires_count = count_constraints(foo, is_requires);
    assert!(requires_count >= 1, "Call to function with requires should generate at least 1 Requires constraint, got {}", requires_count);
    let subtype_count = count_constraints(foo, is_subtype);
    assert!(subtype_count >= 1, "Call should generate Subtype constraints for arguments, got {}", subtype_count);
    let req = foo.iter().find(|c| is_requires(c)).unwrap();
    if let Constraint::Requires { condition, .. } = req {
        assert!(
            matches!(condition, Predicate::BinRel { op: RelOp::Geq, .. }),
            "Requires condition should be a >= comparison (balance >= n substituted), got {:?}",
            condition
        );
    }
}

#[test]
fn test_branch_adds_path_assumptions() {
    let constraints = run_constraint_generation(prog_path_sensitive).unwrap();
    let foo = constraints_of(&constraints, "foo");
    let subtypes: Vec<&Constraint> = foo.iter().filter(|c| is_subtype(c)).collect();
    let has_assumptions = subtypes.iter().any(|c| !c.context().assumptions().is_empty());
    assert!(
        has_assumptions,
        "Branch constraints should have path assumptions in their TypeContext. Constraints: {:?}",
        subtypes.iter().map(|c| format!("{:?} (assumptions: {})", c, c.context().assumptions().len())).collect::<Vec<_>>()
    );
    let max_assumptions = subtypes.iter().map(|c| c.context().assumptions().len()).max().unwrap_or(0);
    assert!(
        max_assumptions >= 1,
        "Should find constraints with at least 1 path assumption (branch condition), max found: {}",
        max_assumptions
    );
}

#[test]
fn test_loop_generates_invariant_constraints() {
    let constraints = run_constraint_generation(|| prog_countdown("countdown", rel(RelOp::Geq, v("i"), lit(0)))).unwrap();
    let countdown = constraints_of(&constraints, "countdown");
    let entry_count = count_constraints(countdown, is_loop_invariant_entry);
    assert!(entry_count >= 1, "Loop should generate at least 1 LoopInvariantEntry constraint, got {}", entry_count);
    let preservation_count = count_constraints(countdown, is_loop_invariant_preservation);
    assert!(preservation_count >= 1, "Loop should generate at least 1 LoopInvariantPreservation constraint, got {}", preservation_count);
    let nonneg_count = count_constraints(countdown, is_loop_variant_nonneg);
    assert!(nonneg_count >= 1, "Loop should generate at least 1 LoopVariantNonNegative constraint, got {}", nonneg_count);
    let decreases_count = count_constraints(countdown, is_loop_variant_decreases);
    assert!(decreases_count >= 1, "Loop should generate at least 1 LoopVariantDecreases constraint, got {}", decreases_count);
    let entry = countdown.iter().find(|c| is_loop_invariant_entry(c)).unwrap();
    if let Constraint::LoopInvariantEntry { loop_invariant, .. } = entry {
        assert!(
            matches!(loop_invariant, Predicate::BinRel { op: RelOp::Geq, .. }),
            "Loop invariant should be >= comparison (i >= 0), got {:?}",
            loop_invariant
        );
    }
}

#[test]
fn test_annotated_variable_generates_contract_subtype() {
    let constraints = run_constraint_generation(prog_annotated_constant).unwrap();
    let foo = constraints_of(&constraints, "foo");
    let subtypes: Vec<&Constraint> = foo.iter().filter(|c| is_subtype(c)).collect();
    assert!(
        subtypes.len() >= 2,
        "Annotated variable should generate at least 2 Subtype constraints (normal flow + annotation check), got {}",
        subtypes.len()
    );
    let annotation_check = subtypes.iter().find(|c| {
        if let Constraint::Subtype { sup, .. } = c {
            if let Some(ref_pred) = sup.refinement() {
                matches!(ref_pred, Predicate::BinRel { op: RelOp::Gt, .. })
            } else {
                false
            }
        } else {
            false
        }
    });
    assert!(
        annotation_check.is_some(),
        "Should find a Subtype constraint where sup carries the user annotation (x > 0). Available: {:?}",
        texts(&subtypes)
    );
}

#[test]
fn test_ensures_at_return() {
    let constraints = run_constraint_generation(prog_deposit_with_ensures).unwrap();
    let deposit = constraints_of(&constraints, "deposit");
    let ensures_count = count_constraints(deposit, is_ensures);
    assert!(ensures_count >= 1, "Function with ensures clause should generate Ensures constraint at return, got {}", ensures_count);
    let ensures = deposit.iter().find(|c| is_ensures(c)).unwrap();
    if let Constraint::Ensures { condition, .. } = ensures {
        assert!(
            matches!(condition, Predicate::BinRel { op: RelOp::Geq, .. }),
            "Ensures condition should be >= comparison (balance >= 0), got {:?}",
            condition
        );
    }
}

// ---------------------------------------------------------------------------
// Refinement inference, end to end
// ---------------------------------------------------------------------------

#[test]
fn test_explicit_refinement_type() {
    let result = run_refinement_inference(prog_annotated_constant);
    assert!(result.is_ok(), "Should accept valid explicit refinement");
}

#[test]
fn test_basic_type_inference() {
    let result = run_refinement_inference(prog_unannotated_copy);
    assert!(result.is_ok(), "Should infer types for untyped variables");
}

#[test]
fn test_invalid_subtyping() {
    let result = run_refinement_inference(|| prog_constant_into_annotation(-5));
    assert!(result.is_err(), "Should reject invalid refinement");
    let error = format!("{:?}", result.unwrap_err());
    assert!(error.contains("cannot satisfy subtyping"), "Error should mention subtyping/refinement violation");
}

#[test]
fn test_binary_operation_inference() {
    let result = run_refinement_inference(prog_addition_of_positives);
    assert!(result.is_ok(), "Should infer type for binary operation result");
}

#[test]
fn test_function_requires_valid() {
    let result = run_refinement_inference(|| prog_refined_param_call(5));
    assert!(result.is_ok(), "Should accept valid precondition");
}

#[test]
fn test_storage_fold_valid() {
    let result = run_refinement_inference(|| prog_balance_update("deposit", geq0("amount"), BinaryOperator::Add));
    assert!(result.is_ok(), "Should accept when invariant is maintained");
}

#[test]
fn test_storage_fold_invalid() {
    let result = run_refinement_inference(|| prog_balance_update("withdraw", plain(BaseType::Int, "amount"), BinaryOperator::Subtract));
    assert!(result.is_err(), "Should reject when invariant can be violated");
    let error = format!("{:?}", result.unwrap_err());
    assert!(error.contains("subtyping"), "Error should mention subtyping constraint violation");
}

#[test]
fn test_conditional_path_sensitivity() {
    let result = run_refinement_inference(prog_path_sensitive);
    assert!(result.is_ok(), "Should handle path-sensitive refinements");
}

#[test]
fn test_conditional_invalid_branch() {
    let result = run_refinement_inference(prog_contradicts_branch);
    assert!(result.is_err(), "Should reject refinement that contradicts branch condition");
}

#[test]
fn every_qualifier_names_the_refined_value_alike() {
    let by_var = Qualifier::comparison(true, RelOp::Gt).instantiate(&vec!["x".to_string()]).unwrap();
    let by_const = Qualifier::constant_comparison(0, true, RelOp::Gt).instantiate(&vec![]).unwrap();
    let a = by_var.free_variables();
    let b = by_const.free_variables();
    assert!(a.contains("__self") && a.contains("x"), "got {:?}", a);
    assert!(b.contains("__self"), "got {:?}", b);
    assert!(!a.contains("ν") && !b.contains("ν"));
}
