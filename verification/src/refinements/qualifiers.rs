use vstd::prelude::*;
use vstd::string::StringExecFns;

use crate::ast::meta::SourceRef;
use crate::ast::node_id::NodeId;
use crate::ast::predicate::{ArithOp, ExprV, PredV, Predicate, RefinementExpr, RelOp, pred_eq, pred_holds, rel_holds, arith_value, valuation_of, atoms_of};
use crate::ast::types::{BaseType, BaseTypeV};
use crate::names::StrSet;
use crate::refinements::constraints::{TypeContext, preds_view, bindings_view};
use crate::refinements::templates::{Template, TemplateV};

verus! {

// ---------------------------------------------------------------------------
// Qualifiers
// ---------------------------------------------------------------------------

/// Which global of the chain a qualifier compares with.
#[derive(Debug, Clone, Copy, PartialEq, Eq, Hash, Structural)]
pub enum BlockchainGlobal {
    MsgSender,
    MsgValue,
    BlockTimestamp,
}

/// The shape of a qualifier; `?` marks a place for a variable in scope and
/// `ν` the value being refined.
#[derive(Debug, PartialEq, Eq, Hash)]
pub enum QualifierPattern {
    /// `? op ν` or `ν op ?`.
    Comparison { lhs_is_nu: bool, op: RelOp },
    /// `c op ν` or `ν op c`.
    ConstantComparison { constant: i64, lhs_is_nu: bool, op: RelOp },
    /// `ν = ? op ?`, or `ν rel ? op ?`.
    BinaryArithmetic { op: ArithOp, result_op: Option<RelOp> },
    /// `ν` or `¬ν`.
    Boolean { negated: bool },
    /// `ν = f(?)`, or `ν rel f(?)`.
    UninterpFunction { function_name: String, result_op: Option<RelOp> },
    /// `ν op g` for a global `g`.
    BlockchainGlobal { global: BlockchainGlobal, op: RelOp },
}

pub enum QualifierPatternV {
    Comparison { lhs_is_nu: bool, op: RelOp },
    ConstantComparison { constant: i64, lhs_is_nu: bool, op: RelOp },
    BinaryArithmetic { op: ArithOp, result_op: Option<RelOp> },
    Boolean { negated: bool },
    UninterpFunction { function_name: Seq<char>, result_op: Option<RelOp> },
    BlockchainGlobal { global: BlockchainGlobal, op: RelOp },
}

impl View for QualifierPattern {
    type V = QualifierPatternV;

    open spec fn view(&self) -> QualifierPatternV {
        match *self {
            QualifierPattern::Comparison { lhs_is_nu, op } => QualifierPatternV::Comparison { lhs_is_nu, op },
            QualifierPattern::ConstantComparison { constant, lhs_is_nu, op } => QualifierPatternV::ConstantComparison {
                constant,
                lhs_is_nu,
                op,
            },
            QualifierPattern::BinaryArithmetic { op, result_op } => QualifierPatternV::BinaryArithmetic { op, result_op },
            QualifierPattern::Boolean { negated } => QualifierPatternV::Boolean { negated },
            QualifierPattern::UninterpFunction { function_name, result_op } => QualifierPatternV::UninterpFunction {
                function_name: function_name@,
                result_op,
            },
            QualifierPattern::BlockchainGlobal { global, op } => QualifierPatternV::BlockchainGlobal { global, op },
        }
    }
}

/// How many places a pattern has.
pub open spec fn pattern_arity(p: QualifierPatternV) -> nat {
    match p {
        QualifierPatternV::Comparison { .. } => 1,
        QualifierPatternV::ConstantComparison { .. } => 0,
        QualifierPatternV::BinaryArithmetic { .. } => 2,
        QualifierPatternV::Boolean { .. } => 0,
        QualifierPatternV::UninterpFunction { .. } => 1,
        QualifierPatternV::BlockchainGlobal { .. } => 0,
    }
}

/// A predicate template with places for variables.
#[derive(Debug)]
pub struct Qualifier {
    pattern: QualifierPattern,
    arity: usize,
}

impl View for Qualifier {
    type V = QualifierPatternV;

    closed spec fn view(&self) -> QualifierPatternV {
        self.pattern@
    }
}

impl Qualifier {
    #[verifier::type_invariant]
    closed spec fn arity_matches(&self) -> bool {
        self.arity == pattern_arity(self.pattern@)
    }

    /// The number of places.
    pub fn arity(&self) -> (r: usize)
        ensures
            r == pattern_arity(self@),
    {
        proof {
            use_type_invariant(self);
        }
        self.arity
    }
}

impl Clone for Qualifier {
    fn clone(&self) -> (r: Self)
        ensures
            r@ == self@,
    {
        proof {
            use_type_invariant(self);
        }
        let pattern = match &self.pattern {
            QualifierPattern::Comparison { lhs_is_nu, op } => QualifierPattern::Comparison { lhs_is_nu: *lhs_is_nu, op: *op },
            QualifierPattern::ConstantComparison { constant, lhs_is_nu, op } => QualifierPattern::ConstantComparison {
                constant: *constant,
                lhs_is_nu: *lhs_is_nu,
                op: *op,
            },
            QualifierPattern::BinaryArithmetic { op, result_op } => QualifierPattern::BinaryArithmetic { op: *op, result_op: *result_op },
            QualifierPattern::Boolean { negated } => QualifierPattern::Boolean { negated: *negated },
            QualifierPattern::UninterpFunction { function_name, result_op } => QualifierPattern::UninterpFunction {
                function_name: function_name.clone(),
                result_op: *result_op,
            },
            QualifierPattern::BlockchainGlobal { global, op } => QualifierPattern::BlockchainGlobal { global: *global, op: *op },
        };
        Qualifier { pattern, arity: self.arity }
    }
}

/// The node id and source position of synthesized predicates.
pub open spec fn syn_id() -> NodeId {
    NodeId(0)
}

pub open spec fn unknown_ref() -> SourceRef {
    SourceRef { start: 0, end: 0 }
}

/// `ν` as characters.
pub open spec fn nu_name() -> Seq<char> {
    seq!['ν']
}

/// `__self` as characters.
pub open spec fn self_name() -> Seq<char> {
    seq!['_', '_', 's', 'e', 'l', 'f']
}

pub open spec fn syn_var(n: Seq<char>) -> ExprV {
    ExprV::Var(n, syn_id(), unknown_ref())
}

/// The predicate a qualifier gives for the given variables, when their
/// number is the qualifier's arity. Every shape names the refined value
/// `__self`, the binder a liquid variable's predicate is read with.
pub open spec fn instantiate_spec(q: QualifierPatternV, args: Seq<Seq<char>>) -> Option<PredV> {
    if args.len() != pattern_arity(q) {
        None
    } else {
        Some(
            match q {
                QualifierPatternV::Comparison { lhs_is_nu, op } => if lhs_is_nu {
                    PredV::BinRel(op, syn_var(self_name()), syn_var(args[0]), syn_id(), unknown_ref())
                } else {
                    PredV::BinRel(op, syn_var(args[0]), syn_var(self_name()), syn_id(), unknown_ref())
                },
                QualifierPatternV::ConstantComparison { constant, lhs_is_nu, op } => if lhs_is_nu {
                    PredV::BinRel(op, syn_var(self_name()), ExprV::IntLit(constant, syn_id(), unknown_ref()), syn_id(), unknown_ref())
                } else {
                    PredV::BinRel(op, ExprV::IntLit(constant, syn_id(), unknown_ref()), syn_var(self_name()), syn_id(), unknown_ref())
                },
                QualifierPatternV::BinaryArithmetic { op, result_op } => PredV::BinRel(
                    match result_op {
                        Some(r) => r,
                        None => RelOp::Eq,
                    },
                    syn_var(self_name()),
                    ExprV::BinOp(op, Box::new(syn_var(args[0])), Box::new(syn_var(args[1])), syn_id(), unknown_ref()),
                    syn_id(),
                    unknown_ref(),
                ),
                QualifierPatternV::Boolean { negated } => if negated {
                    PredV::Not(Box::new(PredV::Var(self_name(), syn_id(), unknown_ref())), syn_id(), unknown_ref())
                } else {
                    PredV::Var(self_name(), syn_id(), unknown_ref())
                },
                QualifierPatternV::UninterpFunction { function_name, result_op } => PredV::BinRel(
                    match result_op {
                        Some(r) => r,
                        None => RelOp::Eq,
                    },
                    syn_var(self_name()),
                    ExprV::UninterpFn(function_name, seq![syn_var(args[0])], syn_id(), unknown_ref()),
                    syn_id(),
                    unknown_ref(),
                ),
                QualifierPatternV::BlockchainGlobal { global, op } => PredV::BinRel(
                    op,
                    syn_var(self_name()),
                    match global {
                        BlockchainGlobal::MsgSender => ExprV::MsgSender(syn_id(), unknown_ref()),
                        BlockchainGlobal::MsgValue => ExprV::MsgValue(syn_id(), unknown_ref()),
                        BlockchainGlobal::BlockTimestamp => ExprV::BlockTimestamp(syn_id(), unknown_ref()),
                    },
                    syn_id(),
                    unknown_ref(),
                ),
            },
        )
    }
}

/// An instance means its qualifier. With a number for each name (the
/// refined value's being that of `__self`) and a truth for each boolean
/// name, the instance holds exactly when: for a comparison with a variable
/// `x`, `v op x` (or `x op v`); for a comparison with a constant `c`,
/// `v op c` when the refined value is on the left and `c op v` otherwise;
/// for arithmetic, `v` relates as asked to the operation on the two
/// variables; for a boolean qualifier, `v` is true (or false).
pub proof fn lemma_instance_meaning(
    q: QualifierPatternV,
    args: Seq<Seq<char>>,
    value: spec_fn(ExprV) -> int,
    env: spec_fn(Seq<char>) -> int,
    atom: spec_fn(PredV) -> bool,
    truth: spec_fn(Seq<char>) -> bool,
)
    requires
        args.len() == pattern_arity(q),
        valuation_of(value, env),
        atoms_of(atom, truth),
    ensures
        instantiate_spec(q, args) is Some,
        q matches QualifierPatternV::Comparison { lhs_is_nu, op } ==> (pred_holds(instantiate_spec(q, args).unwrap(), value, atom) <==> if lhs_is_nu {
            rel_holds(op, env(self_name()), env(args[0]))
        } else {
            rel_holds(op, env(args[0]), env(self_name()))
        }),
        q matches QualifierPatternV::ConstantComparison { constant, lhs_is_nu, op } ==> (pred_holds(
            instantiate_spec(q, args).unwrap(),
            value,
            atom,
        ) <==> if lhs_is_nu {
            rel_holds(op, env(self_name()), constant as int)
        } else {
            rel_holds(op, constant as int, env(self_name()))
        }),
        q matches QualifierPatternV::BinaryArithmetic { op, result_op } ==> (pred_holds(instantiate_spec(q, args).unwrap(), value, atom) <==> rel_holds(
            match result_op {
                Some(r) => r,
                None => RelOp::Eq,
            },
            env(self_name()),
            arith_value(op, env(args[0]), env(args[1])),
        )),
        q matches QualifierPatternV::Boolean { negated } ==> (pred_holds(instantiate_spec(q, args).unwrap(), value, atom) <==> truth(self_name())
            != negated),
{
    assert(value(syn_var(self_name())) == env(self_name()));
    assert(atom(PredV::Var(self_name(), syn_id(), unknown_ref())) == truth(self_name()));
    if args.len() > 0 {
        assert(value(syn_var(args[0])) == env(args[0]));
    }
    if args.len() > 1 {
        assert(value(syn_var(args[1])) == env(args[1]));
    }
    match q {
        QualifierPatternV::ConstantComparison { constant, .. } => {
            assert(value(ExprV::IntLit(constant, syn_id(), unknown_ref())) == constant as int);
        },
        QualifierPatternV::BinaryArithmetic { op, .. } => {
            assert(value(ExprV::BinOp(op, Box::new(syn_var(args[0])), Box::new(syn_var(args[1])), syn_id(), unknown_ref())) == arith_value(
                op,
                value(syn_var(args[0])),
                value(syn_var(args[1])),
            ));
        },
        QualifierPatternV::Boolean { negated } => {
            let v = PredV::Var(self_name(), syn_id(), unknown_ref());
            assert(pred_holds(v, value, atom) == truth(self_name()));
            if negated {
                assert(instantiate_spec(q, args).unwrap() == PredV::Not(Box::new(v), syn_id(), unknown_ref()));
                assert(pred_holds(PredV::Not(Box::new(v), syn_id(), unknown_ref()), value, atom) == !truth(self_name()));
            } else {
                assert(instantiate_spec(q, args).unwrap() == v);
            }
        },
        _ => {},
    }
}

/// Every qualifier names the refined value the same way: an instance
/// mentions only its arguments and `__self`.
pub proof fn lemma_instance_value_variable(q: QualifierPatternV, args: Seq<Seq<char>>, n: Seq<char>)
    requires
        instantiate_spec(q, args) is Some,
        crate::ast::predicate::pred_free_vars(instantiate_spec(q, args).unwrap()).contains(n),
    ensures
        args.contains(n) || n == self_name(),
{
    let p = instantiate_spec(q, args).unwrap();
    if pattern_arity(q) > 0 {
        assert(args.contains(args[0]));
    }
    if pattern_arity(q) > 1 {
        assert(args.contains(args[1]));
    }
    match p {
        PredV::BinRel(_, l, r, _, _) => {
            assert(crate::ast::predicate::pred_free_vars(p) == crate::ast::predicate::expr_free_vars(l).union(
                crate::ast::predicate::expr_free_vars(r),
            ));
            match q {
                QualifierPatternV::Comparison { .. } => {
                    assert(n == self_name() || n == args[0]);
                },
                QualifierPatternV::BinaryArithmetic { op, .. } => {
                    let a = syn_var(args[0]);
                    let b = syn_var(args[1]);
                    assert(r == ExprV::BinOp(op, Box::new(a), Box::new(b), syn_id(), unknown_ref()));
                    assert(crate::ast::predicate::expr_free_vars(r) == crate::ast::predicate::expr_free_vars(a).union(
                        crate::ast::predicate::expr_free_vars(b),
                    ));
                    assert(n == self_name() || n == args[0] || n == args[1]);
                },
                QualifierPatternV::UninterpFunction { .. } => {
                    if n != self_name() {
                        assert(crate::ast::predicate::expr_free_vars(r).contains(n));
                        let es = seq![syn_var(args[0])];
                        let i = choose|i: int| 0 <= i < es.len() && crate::ast::predicate::expr_free_vars(es[i]).contains(n);
                        assert(es[i] == syn_var(args[0]));
                        assert(n == args[0]);
                    }
                },
                _ => {
                    assert(n == self_name());
                },
            }
        },
        PredV::Not(x, _, _) => {
            assert(*x == PredV::Var(self_name(), syn_id(), unknown_ref()));
            assert(crate::ast::predicate::pred_free_vars(p) == crate::ast::predicate::pred_free_vars(*x));
            assert(crate::ast::predicate::pred_free_vars(*x) == set![self_name()]);
        },
        _ => {
            assert(p == PredV::Var(self_name(), syn_id(), unknown_ref()));
            assert(crate::ast::predicate::pred_free_vars(p) == set![self_name()]);
        },
    }
}

fn syn_var_expr(name: String) -> (r: RefinementExpr)
    ensures
        r@ == syn_var(name@),
{
    RefinementExpr::Var(name, NodeId::new(0), SourceRef::unknown())
}

fn self_string() -> (r: String)
    ensures
        r@ == self_name(),
{
    proof {
        reveal_strlit("__self");
    }
    String::from_str("__self")
}

impl Qualifier {
    /// `? op ν` (or `ν op ?` when `lhs_is_nu`).
    pub fn comparison(lhs_is_nu: bool, op: RelOp) -> (r: Self)
        ensures
            r@ == (QualifierPatternV::Comparison { lhs_is_nu, op }),
    {
        Qualifier { pattern: QualifierPattern::Comparison { lhs_is_nu, op }, arity: 1 }
    }

    /// `c op ν` (or `ν op c` when `lhs_is_nu`).
    pub fn constant_comparison(constant: i64, lhs_is_nu: bool, op: RelOp) -> (r: Self)
        ensures
            r@ == (QualifierPatternV::ConstantComparison { constant, lhs_is_nu, op }),
    {
        Qualifier { pattern: QualifierPattern::ConstantComparison { constant, lhs_is_nu, op }, arity: 0 }
    }

    /// `ν = ? op ?` (or `ν rel ? op ?`).
    pub fn binary_arithmetic(op: ArithOp, result_op: Option<RelOp>) -> (r: Self)
        ensures
            r@ == (QualifierPatternV::BinaryArithmetic { op, result_op }),
    {
        Qualifier { pattern: QualifierPattern::BinaryArithmetic { op, result_op }, arity: 2 }
    }

    /// `ν` (or `¬ν`).
    pub fn boolean(negated: bool) -> (r: Self)
        ensures
            r@ == (QualifierPatternV::Boolean { negated }),
    {
        Qualifier { pattern: QualifierPattern::Boolean { negated }, arity: 0 }
    }

    /// `ν = f(?)` (or `ν rel f(?)`).
    pub fn uninterp_function(function_name: String, result_op: Option<RelOp>) -> (r: Self)
        ensures
            r@ == (QualifierPatternV::UninterpFunction { function_name: function_name@, result_op }),
    {
        Qualifier { pattern: QualifierPattern::UninterpFunction { function_name, result_op }, arity: 1 }
    }

    /// `ν op g`.
    pub fn blockchain_global(global: BlockchainGlobal, op: RelOp) -> (r: Self)
        ensures
            r@ == (QualifierPatternV::BlockchainGlobal { global, op }),
    {
        Qualifier { pattern: QualifierPattern::BlockchainGlobal { global, op }, arity: 0 }
    }

    /// The predicate for the given variables; `None` when their number is
    /// not the qualifier's arity.
    pub fn instantiate(&self, args: &Vec<String>) -> (r: Option<Predicate>)
        ensures
            match r {
                Some(p) => instantiate_spec(self@, args@.map_values(|s: String| s@)) == Some(p@),
                None => instantiate_spec(self@, args@.map_values(|s: String| s@)) is None,
            },
    {
        proof {
            use_type_invariant(self);
        }
        let ghost names = args@.map_values(|s: String| s@);
        if args.len() != self.arity {
            return None;
        }
        let p = match &self.pattern {
            QualifierPattern::Comparison { lhs_is_nu, op } => {
                let var_expr = syn_var_expr(args[0].clone());
                let nu = syn_var_expr(self_string());
                if *lhs_is_nu {
                    Predicate::BinRel { op: *op, lhs: nu, rhs: var_expr, id: NodeId::new(0), source_ref: SourceRef::unknown() }
                } else {
                    Predicate::BinRel { op: *op, lhs: var_expr, rhs: nu, id: NodeId::new(0), source_ref: SourceRef::unknown() }
                }
            },
            QualifierPattern::ConstantComparison { constant, lhs_is_nu, op } => {
                let const_expr = RefinementExpr::IntLit(*constant, NodeId::new(0), SourceRef::unknown());
                let nu = syn_var_expr(self_string());
                if *lhs_is_nu {
                    Predicate::BinRel { op: *op, lhs: nu, rhs: const_expr, id: NodeId::new(0), source_ref: SourceRef::unknown() }
                } else {
                    Predicate::BinRel { op: *op, lhs: const_expr, rhs: nu, id: NodeId::new(0), source_ref: SourceRef::unknown() }
                }
            },
            QualifierPattern::BinaryArithmetic { op, result_op } => {
                let lhs_expr = syn_var_expr(args[0].clone());
                let rhs_expr = syn_var_expr(args[1].clone());
                let nu = syn_var_expr(self_string());
                let arith = RefinementExpr::BinOp {
                    op: *op,
                    lhs: Box::new(lhs_expr),
                    rhs: Box::new(rhs_expr),
                    id: NodeId::new(0),
                    source_ref: SourceRef::unknown(),
                };
                let rel = match result_op {
                    Some(r) => *r,
                    None => RelOp::Eq,
                };
                Predicate::BinRel { op: rel, lhs: nu, rhs: arith, id: NodeId::new(0), source_ref: SourceRef::unknown() }
            },
            QualifierPattern::Boolean { negated } => {
                let nu_pred = Predicate::Var(self_string(), NodeId::new(0), SourceRef::unknown());
                assert(nu_pred@ == PredV::Var(self_name(), syn_id(), unknown_ref()));
                if *negated {
                    let p = Predicate::Not(Box::new(nu_pred), NodeId::new(0), SourceRef::unknown());
                    assert(p@ == PredV::Not(Box::new(PredV::Var(self_name(), syn_id(), unknown_ref())), syn_id(), unknown_ref()));
                    p
                } else {
                    nu_pred
                }
            },
            QualifierPattern::UninterpFunction { function_name, result_op } => {
                let arg_expr = syn_var_expr(args[0].clone());
                let mut fargs: Vec<RefinementExpr> = Vec::new();
                fargs.push(arg_expr);
                let func_expr = RefinementExpr::UninterpFn {
                    name: function_name.clone(),
                    args: fargs,
                    id: NodeId::new(0),
                    source_ref: SourceRef::unknown(),
                };
                let nu = syn_var_expr(self_string());
                let rel = match result_op {
                    Some(r) => *r,
                    None => RelOp::Eq,
                };
                let p = Predicate::BinRel { op: rel, lhs: nu, rhs: func_expr, id: NodeId::new(0), source_ref: SourceRef::unknown() };
                proof {
                    if let PredV::BinRel(_, _, f, _, _) = p@ {
                        if let ExprV::UninterpFn(_, a, _, _) = f {
                            assert(a =~= seq![syn_var(names[0])]);
                        }
                    }
                }
                p
            },
            QualifierPattern::BlockchainGlobal { global, op } => {
                let global_expr = match global {
                    BlockchainGlobal::MsgSender => RefinementExpr::MsgSender(NodeId::new(0), SourceRef::unknown()),
                    BlockchainGlobal::MsgValue => RefinementExpr::MsgValue(NodeId::new(0), SourceRef::unknown()),
                    BlockchainGlobal::BlockTimestamp => RefinementExpr::BlockTimestamp(NodeId::new(0), SourceRef::unknown()),
                };
                let nu = syn_var_expr(self_string());
                Predicate::BinRel { op: *op, lhs: nu, rhs: global_expr, id: NodeId::new(0), source_ref: SourceRef::unknown() }
            },
        };
        proof {
            assert(names.len() == pattern_arity(self@));
            match self@ {
                QualifierPatternV::Comparison { .. } => assert(instantiate_spec(self@, names) == Some(p@)),
                QualifierPatternV::ConstantComparison { .. } => assert(instantiate_spec(self@, names) == Some(p@)),
                QualifierPatternV::BinaryArithmetic { .. } => assert(instantiate_spec(self@, names) == Some(p@)),
                QualifierPatternV::Boolean { .. } => assert(instantiate_spec(self@, names) == Some(p@)),
                QualifierPatternV::UninterpFunction { .. } => assert(instantiate_spec(self@, names) == Some(p@)),
                QualifierPatternV::BlockchainGlobal { .. } => assert(instantiate_spec(self@, names) == Some(p@)),
            }
        }
        Some(p)
    }
}

// ---------------------------------------------------------------------------
// Which qualifiers fit which types
// ---------------------------------------------------------------------------

pub open spec fn is_equality(op: RelOp) -> bool {
    op == RelOp::Eq || op == RelOp::Neq
}

/// Whether a one-place qualifier makes sense for a variable of type `t`.
pub open spec fn compatible_with_type(q: QualifierPatternV, t: BaseTypeV) -> bool {
    match q {
        QualifierPatternV::Comparison { op, .. } => match t {
            BaseTypeV::Address | BaseTypeV::Bool | BaseTypeV::String => is_equality(op),
            BaseTypeV::Int => true,
            _ => false,
        },
        QualifierPatternV::ConstantComparison { .. } => t is Int,
        QualifierPatternV::BinaryArithmetic { .. } => t is Int,
        QualifierPatternV::Boolean { .. } => t is Bool,
        QualifierPatternV::UninterpFunction { .. } => true,
        QualifierPatternV::BlockchainGlobal { global, op } => match global {
            BlockchainGlobal::MsgSender => t is Address && is_equality(op),
            _ => t is Int,
        },
    }
}

/// Whether a two-place qualifier makes sense for variables of types `t1`, `t2`.
pub open spec fn binary_compatible(q: QualifierPatternV, t1: BaseTypeV, t2: BaseTypeV) -> bool {
    match q {
        QualifierPatternV::BinaryArithmetic { .. } => t1 is Int && t2 is Int,
        _ => true,
    }
}

fn is_eq_op(op: RelOp) -> (r: bool)
    ensures
        r == is_equality(op),
{
    match op {
        RelOp::Eq | RelOp::Neq => true,
        _ => false,
    }
}

impl QualifierSet {
    fn is_qualifier_compatible_with_type(qualifier: &Qualifier, var_type: &BaseType) -> (r: bool)
        ensures
            r == compatible_with_type(qualifier@, var_type@),
    {
        match &qualifier.pattern {
            QualifierPattern::Comparison { op, .. } => match var_type {
                BaseType::Address | BaseType::Bool | BaseType::String => is_eq_op(*op),
                BaseType::Int => true,
                _ => false,
            },
            QualifierPattern::ConstantComparison { .. } => match var_type {
                BaseType::Int => true,
                _ => false,
            },
            QualifierPattern::BinaryArithmetic { .. } => match var_type {
                BaseType::Int => true,
                _ => false,
            },
            QualifierPattern::Boolean { .. } => match var_type {
                BaseType::Bool => true,
                _ => false,
            },
            QualifierPattern::UninterpFunction { .. } => true,
            QualifierPattern::BlockchainGlobal { global, op } => match global {
                BlockchainGlobal::MsgSender => match var_type {
                    BaseType::Address => is_eq_op(*op),
                    _ => false,
                },
                _ => match var_type {
                    BaseType::Int => true,
                    _ => false,
                },
            },
        }
    }

    fn is_binary_qualifier_compatible(qualifier: &Qualifier, type1: &BaseType, type2: &BaseType) -> (r: bool)
        ensures
            r == binary_compatible(qualifier@, type1@, type2@),
    {
        match &qualifier.pattern {
            QualifierPattern::BinaryArithmetic { .. } => match (type1, type2) {
                (BaseType::Int, BaseType::Int) => true,
                _ => false,
            },
            _ => true,
        }
    }
}

// ---------------------------------------------------------------------------
// Qualifier sets
// ---------------------------------------------------------------------------

/// The elements of `s`, each once, in the order of first occurrence.
pub open spec fn dedup<A>(s: Seq<A>) -> Seq<A>
    decreases s.len(),
{
    if s.len() == 0 {
        s
    } else if dedup(s.drop_last()).contains(s.last()) {
        dedup(s.drop_last())
    } else {
        dedup(s.drop_last()).push(s.last())
    }
}

pub open spec fn comparison_ops() -> Seq<RelOp> {
    seq![RelOp::Lt, RelOp::Leq, RelOp::Gt, RelOp::Geq, RelOp::Eq, RelOp::Neq]
}

pub open spec fn constant_ops() -> Seq<RelOp> {
    seq![RelOp::Leq, RelOp::Geq, RelOp::Lt, RelOp::Gt, RelOp::Eq, RelOp::Neq]
}

/// For each relation, the `? op ν` then the `ν op ?` qualifier.
pub open spec fn comparison_qualifiers() -> Seq<QualifierPatternV> {
    Seq::new(12, |i: int| QualifierPatternV::Comparison { lhs_is_nu: i % 2 == 1, op: comparison_ops()[i / 2] })
}

/// For each relation, `c op ν` then `ν op c`.
pub open spec fn constant_block(c: i64) -> Seq<QualifierPatternV> {
    Seq::new(12, |i: int| QualifierPatternV::ConstantComparison { constant: c, lhs_is_nu: i % 2 == 1, op: constant_ops()[i / 2] })
}

pub open spec fn constant_qualifiers(cs: Seq<i64>) -> Seq<QualifierPatternV>
    decreases cs.len(),
{
    if cs.len() == 0 {
        Seq::empty()
    } else {
        constant_qualifiers(cs.drop_last()) + constant_block(cs.last())
    }
}

pub open spec fn arithmetic_qualifiers() -> Seq<QualifierPatternV> {
    seq![
        QualifierPatternV::BinaryArithmetic { op: ArithOp::Add, result_op: None },
        QualifierPatternV::BinaryArithmetic { op: ArithOp::Add, result_op: Some(RelOp::Geq) },
        QualifierPatternV::BinaryArithmetic { op: ArithOp::Add, result_op: Some(RelOp::Leq) },
        QualifierPatternV::BinaryArithmetic { op: ArithOp::Sub, result_op: None },
        QualifierPatternV::BinaryArithmetic { op: ArithOp::Sub, result_op: Some(RelOp::Geq) },
        QualifierPatternV::BinaryArithmetic { op: ArithOp::Sub, result_op: Some(RelOp::Leq) },
    ]
}

pub open spec fn boolean_qualifiers() -> Seq<QualifierPatternV> {
    seq![QualifierPatternV::Boolean { negated: false }, QualifierPatternV::Boolean { negated: true }]
}

/// The constants a set is built with: 0, 1, then the program's, each once.
pub open spec fn all_constants(program_constants: Seq<i64>) -> Seq<i64> {
    dedup(seq![0i64, 1i64] + program_constants)
}

/// The qualifiers of `with_constants(program_constants)`, in order.
pub open spec fn core_qualifiers(program_constants: Seq<i64>) -> Seq<QualifierPatternV> {
    comparison_qualifiers() + constant_qualifiers(all_constants(program_constants)) + arithmetic_qualifiers()
        + boolean_qualifiers()
}

/// The qualifiers `extended` adds to the core ones.
pub open spec fn chain_qualifiers() -> Seq<QualifierPatternV> {
    seq![
        QualifierPatternV::BlockchainGlobal { global: BlockchainGlobal::MsgSender, op: RelOp::Eq },
        QualifierPatternV::BlockchainGlobal { global: BlockchainGlobal::BlockTimestamp, op: RelOp::Geq },
        QualifierPatternV::BlockchainGlobal { global: BlockchainGlobal::MsgValue, op: RelOp::Geq },
        QualifierPatternV::UninterpFunction { function_name: seq!['l', 'e', 'n'], result_op: None },
        QualifierPatternV::UninterpFunction { function_name: seq!['l', 'e', 'n'], result_op: Some(RelOp::Lt) },
        QualifierPatternV::UninterpFunction {
            function_name: seq!['b', 'a', 'l', 'a', 'n', 'c', 'e', '_', 'o', 'f'],
            result_op: None,
        },
    ]
}

/// The qualifiers available to inference.
#[derive(Debug)]
pub struct QualifierSet {
    qualifiers: Vec<Qualifier>,
    extended: bool,
}

pub struct QualifierSetV {
    pub qualifiers: Seq<QualifierPatternV>,
    pub extended: bool,
}

impl View for QualifierSet {
    type V = QualifierSetV;

    closed spec fn view(&self) -> QualifierSetV {
        QualifierSetV { qualifiers: self.qualifiers@.map_values(|q: Qualifier| q@), extended: self.extended }
    }
}

pub open spec fn patterns_view(s: Seq<Qualifier>) -> Seq<QualifierPatternV> {
    s.map_values(|q: Qualifier| q@)
}

fn push_both_sides(qs: &mut Vec<Qualifier>, c: Option<i64>, op: RelOp)
    ensures
        patterns_view(final(qs)@) == patterns_view(old(qs)@) + match c {
            Some(k) => seq![
                QualifierPatternV::ConstantComparison { constant: k, lhs_is_nu: false, op },
                QualifierPatternV::ConstantComparison { constant: k, lhs_is_nu: true, op },
            ],
            None => seq![
                QualifierPatternV::Comparison { lhs_is_nu: false, op },
                QualifierPatternV::Comparison { lhs_is_nu: true, op },
            ],
        },
{
    match c {
        Some(k) => {
            qs.push(Qualifier::constant_comparison(k, false, op));
            qs.push(Qualifier::constant_comparison(k, true, op));
        },
        None => {
            qs.push(Qualifier::comparison(false, op));
            qs.push(Qualifier::comparison(true, op));
        },
    }
    proof {
        assert(patterns_view(qs@) =~= patterns_view(old(qs)@) + match c {
            Some(k) => seq![
                QualifierPatternV::ConstantComparison { constant: k, lhs_is_nu: false, op },
                QualifierPatternV::ConstantComparison { constant: k, lhs_is_nu: true, op },
            ],
            None => seq![
                QualifierPatternV::Comparison { lhs_is_nu: false, op },
                QualifierPatternV::Comparison { lhs_is_nu: true, op },
            ],
        });
    }
}

fn push_six(qs: &mut Vec<Qualifier>, c: Option<i64>, ops: [RelOp; 6])
    ensures
        patterns_view(final(qs)@) == patterns_view(old(qs)@) + Seq::new(12, |i: int| match c {
            Some(k) => QualifierPatternV::ConstantComparison { constant: k, lhs_is_nu: i % 2 == 1, op: ops@[i / 2] },
            None => QualifierPatternV::Comparison { lhs_is_nu: i % 2 == 1, op: ops@[i / 2] },
        }),
{
    let ghost start = patterns_view(qs@);
    let mut j: usize = 0;
    while j < 6
        invariant
            j <= 6,
            patterns_view(qs@) == start + Seq::new(2 * j as nat, |i: int| match c {
                Some(k) => QualifierPatternV::ConstantComparison { constant: k, lhs_is_nu: i % 2 == 1, op: ops@[i / 2] },
                None => QualifierPatternV::Comparison { lhs_is_nu: i % 2 == 1, op: ops@[i / 2] },
            }),
        decreases 6 - j,
    {
        push_both_sides(qs, c, ops[j]);
        j = j + 1;
        proof {
            assert(patterns_view(qs@) =~= start + Seq::new(2 * j as nat, |i: int| match c {
                Some(k) => QualifierPatternV::ConstantComparison { constant: k, lhs_is_nu: i % 2 == 1, op: ops@[i / 2] },
                None => QualifierPatternV::Comparison { lhs_is_nu: i % 2 == 1, op: ops@[i / 2] },
            }));
        }
    }
}

/// The constants of `cs`, each once, in the order of first occurrence.
fn dedup_constants(cs: &Vec<i64>) -> (r: Vec<i64>)
    ensures
        r@ == dedup(cs@),
{
    let mut out: Vec<i64> = Vec::new();
    let mut i: usize = 0;
    while i < cs.len()
        invariant
            i <= cs.len(),
            out@ == dedup(cs@.subrange(0, i as int)),
        decreases cs.len() - i,
    {
        let c = cs[i];
        let mut found = false;
        let mut k: usize = 0;
        while k < out.len()
            invariant
                k <= out.len(),
                found == out@.subrange(0, k as int).contains(c),
            decreases out.len() - k,
        {
            if out[k] == c {
                found = true;
            }
            proof {
                let s0 = out@.subrange(0, k as int);
                let s1 = out@.subrange(0, k + 1);
                assert(s1 =~= s0.push(out@[k as int]));
                if s0.contains(c) {
                    let w = choose|w: int| 0 <= w < s0.len() && s0[w] == c;
                    assert(s1[w] == c);
                }
                if out@[k as int] == c {
                    assert(s1[k as int] == c);
                }
                if s1.contains(c) {
                    let w = choose|w: int| 0 <= w < s1.len() && s1[w] == c;
                    if w < k {
                        assert(s0[w] == c);
                    }
                }
            }
            k = k + 1;
        }
        proof {
            assert(out@.subrange(0, out.len() as int) =~= out@);
            assert(cs@.subrange(0, i + 1).drop_last() =~= cs@.subrange(0, i as int));
        }
        if !found {
            out.push(c);
        }
        i = i + 1;
    }
    proof {
        assert(cs@.subrange(0, cs.len() as int) =~= cs@);
    }
    out
}

impl QualifierSet {
    /// The qualifiers in order.
    pub fn qualifiers(&self) -> (r: &Vec<Qualifier>)
        ensures
            patterns_view(r@) == self@.qualifiers,
    {
        &self.qualifiers
    }

    /// The core set: comparisons, the constants 0 and 1, linear arithmetic
    /// and booleans.
    pub fn core_set() -> (r: Self)
        ensures
            r@.qualifiers == core_qualifiers(Seq::empty()),
            !r@.extended,
    {
        Self::with_constants(Vec::new())
    }

    /// The core set with comparisons against the program's constants too;
    /// each constant gets its qualifiers once, in the order of first
    /// occurrence after 0 and 1.
    pub fn with_constants(program_constants: Vec<i64>) -> (r: Self)
        ensures
            r@.qualifiers == core_qualifiers(program_constants@),
            !r@.extended,
    {
        let mut qualifiers: Vec<Qualifier> = Vec::new();
        push_six(&mut qualifiers, None, [RelOp::Lt, RelOp::Leq, RelOp::Gt, RelOp::Geq, RelOp::Eq, RelOp::Neq]);
        proof {
            assert(patterns_view(qualifiers@) =~= comparison_qualifiers());
        }
        let mut base: Vec<i64> = Vec::new();
        base.push(0);
        base.push(1);
        let mut rest = program_constants;
        let ghost pc = rest@;
        base.append(&mut rest);
        proof {
            assert(base@ =~= seq![0i64, 1i64] + pc);
        }
        let all = dedup_constants(&base);
        let mut i: usize = 0;
        while i < all.len()
            invariant
                i <= all.len(),
                all@ == all_constants(pc),
                patterns_view(qualifiers@) == comparison_qualifiers() + constant_qualifiers(all@.subrange(0, i as int)),
            decreases all.len() - i,
        {
            push_six(&mut qualifiers, Some(all[i]), [RelOp::Leq, RelOp::Geq, RelOp::Lt, RelOp::Gt, RelOp::Eq, RelOp::Neq]);
            proof {
                assert(all@.subrange(0, i + 1).drop_last() =~= all@.subrange(0, i as int));
                assert(constant_block(all@[i as int]) =~= Seq::new(12, |k: int| QualifierPatternV::ConstantComparison {
                    constant: all@[i as int],
                    lhs_is_nu: k % 2 == 1,
                    op: constant_ops()[k / 2],
                }));
            }
            i = i + 1;
        }
        proof {
            assert(all@.subrange(0, all.len() as int) =~= all@);
        }
        let ghost before_arith = patterns_view(qualifiers@);
        qualifiers.push(Qualifier::binary_arithmetic(ArithOp::Add, None));
        qualifiers.push(Qualifier::binary_arithmetic(ArithOp::Add, Some(RelOp::Geq)));
        qualifiers.push(Qualifier::binary_arithmetic(ArithOp::Add, Some(RelOp::Leq)));
        qualifiers.push(Qualifier::binary_arithmetic(ArithOp::Sub, None));
        qualifiers.push(Qualifier::binary_arithmetic(ArithOp::Sub, Some(RelOp::Geq)));
        qualifiers.push(Qualifier::binary_arithmetic(ArithOp::Sub, Some(RelOp::Leq)));
        qualifiers.push(Qualifier::boolean(false));
        qualifiers.push(Qualifier::boolean(true));
        let r = QualifierSet { qualifiers, extended: false };
        proof {
            assert(r@.qualifiers =~= before_arith + arithmetic_qualifiers() + boolean_qualifiers());
        }
        r
    }

    /// The core set plus comparisons with the chain's globals and the
    /// functions `len` and `balance_of`.
    pub fn extended() -> (r: Self)
        ensures
            r@.qualifiers == core_qualifiers(Seq::empty()) + chain_qualifiers(),
            r@.extended,
    {
        let mut set = Self::core_set();
        let ghost before = set@.qualifiers;
        set.extended = true;
        proof {
            reveal_strlit("len");
            reveal_strlit("balance_of");
        }
        set.qualifiers.push(Qualifier::blockchain_global(BlockchainGlobal::MsgSender, RelOp::Eq));
        set.qualifiers.push(Qualifier::blockchain_global(BlockchainGlobal::BlockTimestamp, RelOp::Geq));
        set.qualifiers.push(Qualifier::blockchain_global(BlockchainGlobal::MsgValue, RelOp::Geq));
        set.qualifiers.push(Qualifier::uninterp_function(String::from_str("len"), None));
        set.qualifiers.push(Qualifier::uninterp_function(String::from_str("len"), Some(RelOp::Lt)));
        set.qualifiers.push(Qualifier::uninterp_function(String::from_str("balance_of"), None));
        proof {
            assert("len"@ =~= seq!['l', 'e', 'n']);
            assert("balance_of"@ =~= seq!['b', 'a', 'l', 'a', 'n', 'c', 'e', '_', 'o', 'f']);
            assert(set@.qualifiers =~= before + chain_qualifiers());
        }
        set
    }

    pub fn len(&self) -> (r: usize)
        ensures
            r == self@.qualifiers.len(),
    {
        self.qualifiers.len()
    }

    pub fn is_extended(&self) -> (r: bool)
        ensures
            r == self@.extended,
    {
        self.extended
    }
}


// ---------------------------------------------------------------------------
// Candidate predicates for a context
// ---------------------------------------------------------------------------

/// The variables of a context with their base types, in binding order.
pub open spec fn var_infos(bs: Seq<(Seq<char>, TemplateV)>) -> Seq<(Seq<char>, BaseTypeV)> {
    bs.map_values(|b: (Seq<char>, TemplateV)| (b.0, b.1.base()))
}

/// The instances of a one-place qualifier over the variables that fit it,
/// split into those that mention a relevant variable and the others.
pub open spec fn unary_instances(
    q: QualifierPatternV,
    vs: Seq<(Seq<char>, BaseTypeV)>,
    relevant: Set<Seq<char>>,
) -> (Seq<PredV>, Seq<PredV>)
    decreases vs.len(),
{
    if vs.len() == 0 {
        (Seq::empty(), Seq::empty())
    } else {
        let (r, o) = unary_instances(q, vs.drop_last(), relevant);
        let (v, t) = vs.last();
        if !compatible_with_type(q, t) {
            (r, o)
        } else {
            let p = instantiate_spec(q, seq![v]).unwrap();
            if relevant.contains(v) {
                (r.push(p), o)
            } else {
                (r, o.push(p))
            }
        }
    }
}

/// The instances of a two-place qualifier whose first variable is `v1`.
pub open spec fn binary_row(
    q: QualifierPatternV,
    v1: Seq<char>,
    t1: BaseTypeV,
    vs: Seq<(Seq<char>, BaseTypeV)>,
    relevant: Set<Seq<char>>,
) -> (Seq<PredV>, Seq<PredV>)
    decreases vs.len(),
{
    if vs.len() == 0 {
        (Seq::empty(), Seq::empty())
    } else {
        let (r, o) = binary_row(q, v1, t1, vs.drop_last(), relevant);
        let (v2, t2) = vs.last();
        if !binary_compatible(q, t1, t2) {
            (r, o)
        } else {
            let p = instantiate_spec(q, seq![v1, v2]).unwrap();
            if relevant.contains(v1) || relevant.contains(v2) {
                (r.push(p), o)
            } else {
                (r, o.push(p))
            }
        }
    }
}

/// The instances of a two-place qualifier over all ordered pairs of variables.
pub open spec fn binary_instances(
    q: QualifierPatternV,
    firsts: Seq<(Seq<char>, BaseTypeV)>,
    vs: Seq<(Seq<char>, BaseTypeV)>,
    relevant: Set<Seq<char>>,
) -> (Seq<PredV>, Seq<PredV>)
    decreases firsts.len(),
{
    if firsts.len() == 0 {
        (Seq::empty(), Seq::empty())
    } else {
        let (r, o) = binary_instances(q, firsts.drop_last(), vs, relevant);
        let (v1, t1) = firsts.last();
        let (r2, o2) = binary_row(q, v1, t1, vs, relevant);
        (r + r2, o + o2)
    }
}

/// The instances of one qualifier; those of a qualifier without places are
/// always relevant.
pub open spec fn qualifier_instances(
    q: QualifierPatternV,
    vs: Seq<(Seq<char>, BaseTypeV)>,
    relevant: Set<Seq<char>>,
) -> (Seq<PredV>, Seq<PredV>) {
    if pattern_arity(q) == 0 {
        (seq![instantiate_spec(q, Seq::empty()).unwrap()], Seq::empty())
    } else if pattern_arity(q) == 1 {
        unary_instances(q, vs, relevant)
    } else {
        binary_instances(q, vs, vs, relevant)
    }
}

/// The instances of the qualifiers of arity `a`, in the set's order.
pub open spec fn arity_instances(
    qs: Seq<QualifierPatternV>,
    a: nat,
    vs: Seq<(Seq<char>, BaseTypeV)>,
    relevant: Set<Seq<char>>,
) -> (Seq<PredV>, Seq<PredV>)
    decreases qs.len(),
{
    if qs.len() == 0 {
        (Seq::empty(), Seq::empty())
    } else {
        let (r, o) = arity_instances(qs.drop_last(), a, vs, relevant);
        if pattern_arity(qs.last()) == a {
            let (r2, o2) = qualifier_instances(qs.last(), vs, relevant);
            (r + r2, o + o2)
        } else {
            (r, o)
        }
    }
}

/// The instances of the qualifiers of arity below `n`, by increasing arity.
pub open spec fn instances_upto(
    qs: Seq<QualifierPatternV>,
    n: nat,
    vs: Seq<(Seq<char>, BaseTypeV)>,
    relevant: Set<Seq<char>>,
) -> (Seq<PredV>, Seq<PredV>)
    decreases n,
{
    if n == 0 {
        (Seq::empty(), Seq::empty())
    } else {
        let (r, o) = instances_upto(qs, (n - 1) as nat, vs, relevant);
        let (r2, o2) = arity_instances(qs, (n - 1) as nat, vs, relevant);
        (r + r2, o + o2)
    }
}

/// All candidate predicates: the relevant ones, then the others; within
/// each, by arity, then by qualifier, then by variable.
pub open spec fn candidate_predicates(
    qs: Seq<QualifierPatternV>,
    vs: Seq<(Seq<char>, BaseTypeV)>,
    relevant: Set<Seq<char>>,
) -> Seq<PredV> {
    let (r, o) = instances_upto(qs, 3, vs, relevant);
    r + o
}

// ---------------------------------------------------------------------------
// The order of generation
// ---------------------------------------------------------------------------

/// A generated instance, tagged with whether it counts as relevant.
pub type Tagged = (PredV, bool);

/// The instances tagged as relevant, in order.
pub open spec fn relevant_part(s: Seq<Tagged>) -> Seq<PredV>
    decreases s.len(),
{
    if s.len() == 0 {
        Seq::empty()
    } else if s.last().1 {
        relevant_part(s.drop_last()).push(s.last().0)
    } else {
        relevant_part(s.drop_last())
    }
}

/// The instances tagged as not relevant, in order.
pub open spec fn other_part(s: Seq<Tagged>) -> Seq<PredV>
    decreases s.len(),
{
    if s.len() == 0 {
        Seq::empty()
    } else if s.last().1 {
        other_part(s.drop_last())
    } else {
        other_part(s.drop_last()).push(s.last().0)
    }
}

/// The instances of a one-place qualifier in the order they are generated.
pub open spec fn unary_generated(q: QualifierPatternV, vs: Seq<(Seq<char>, BaseTypeV)>, relevant: Set<Seq<char>>) -> Seq<Tagged>
    decreases vs.len(),
{
    if vs.len() == 0 {
        Seq::empty()
    } else {
        let g = unary_generated(q, vs.drop_last(), relevant);
        let (v, t) = vs.last();
        if !compatible_with_type(q, t) {
            g
        } else {
            g.push((instantiate_spec(q, seq![v]).unwrap(), relevant.contains(v)))
        }
    }
}

/// The instances of a two-place qualifier with first variable `v1`, in
/// the order they are generated.
pub open spec fn row_generated(
    q: QualifierPatternV,
    v1: Seq<char>,
    t1: BaseTypeV,
    vs: Seq<(Seq<char>, BaseTypeV)>,
    relevant: Set<Seq<char>>,
) -> Seq<Tagged>
    decreases vs.len(),
{
    if vs.len() == 0 {
        Seq::empty()
    } else {
        let g = row_generated(q, v1, t1, vs.drop_last(), relevant);
        let (v2, t2) = vs.last();
        if !binary_compatible(q, t1, t2) {
            g
        } else {
            g.push((instantiate_spec(q, seq![v1, v2]).unwrap(), relevant.contains(v1) || relevant.contains(v2)))
        }
    }
}

/// The instances of a two-place qualifier, row by row.
pub open spec fn binary_generated(
    q: QualifierPatternV,
    firsts: Seq<(Seq<char>, BaseTypeV)>,
    vs: Seq<(Seq<char>, BaseTypeV)>,
    relevant: Set<Seq<char>>,
) -> Seq<Tagged>
    decreases firsts.len(),
{
    if firsts.len() == 0 {
        Seq::empty()
    } else {
        binary_generated(q, firsts.drop_last(), vs, relevant) + row_generated(q, firsts.last().0, firsts.last().1, vs, relevant)
    }
}

/// The instances of one qualifier in the order they are generated.
pub open spec fn qualifier_generated(q: QualifierPatternV, vs: Seq<(Seq<char>, BaseTypeV)>, relevant: Set<Seq<char>>) -> Seq<Tagged> {
    if pattern_arity(q) == 0 {
        seq![(instantiate_spec(q, Seq::empty()).unwrap(), true)]
    } else if pattern_arity(q) == 1 {
        unary_generated(q, vs, relevant)
    } else {
        binary_generated(q, vs, vs, relevant)
    }
}

/// The instances of the qualifiers of arity `a`, qualifier by qualifier.
pub open spec fn arity_generated(qs: Seq<QualifierPatternV>, a: nat, vs: Seq<(Seq<char>, BaseTypeV)>, relevant: Set<Seq<char>>) -> Seq<Tagged>
    decreases qs.len(),
{
    if qs.len() == 0 {
        Seq::empty()
    } else if pattern_arity(qs.last()) == a {
        arity_generated(qs.drop_last(), a, vs, relevant) + qualifier_generated(qs.last(), vs, relevant)
    } else {
        arity_generated(qs.drop_last(), a, vs, relevant)
    }
}

/// Every instance in the order of generation: by arity, then by
/// qualifier, then by variable, each tagged with its relevance.
pub open spec fn generated_upto(qs: Seq<QualifierPatternV>, n: nat, vs: Seq<(Seq<char>, BaseTypeV)>, relevant: Set<Seq<char>>) -> Seq<Tagged>
    decreases n,
{
    if n == 0 {
        Seq::empty()
    } else {
        generated_upto(qs, (n - 1) as nat, vs, relevant) + arity_generated(qs, (n - 1) as nat, vs, relevant)
    }
}

proof fn lemma_parts_add(a: Seq<Tagged>, b: Seq<Tagged>)
    ensures
        relevant_part(a + b) == relevant_part(a) + relevant_part(b),
        other_part(a + b) == other_part(a) + other_part(b),
    decreases b.len(),
{
    if b.len() == 0 {
        assert(a + b =~= a);
        assert(relevant_part(a) + relevant_part(b) =~= relevant_part(a));
        assert(other_part(a) + other_part(b) =~= other_part(a));
    } else {
        lemma_parts_add(a, b.drop_last());
        assert((a + b).drop_last() =~= a + b.drop_last());
        assert((a + b).last() == b.last());
        if b.last().1 {
            assert(relevant_part(a) + relevant_part(b) =~= (relevant_part(a) + relevant_part(b.drop_last())).push(b.last().0));
        } else {
            assert(other_part(a) + other_part(b) =~= (other_part(a) + other_part(b.drop_last())).push(b.last().0));
        }
    }
}

proof fn lemma_parts_push(a: Seq<Tagged>, x: Tagged)
    ensures
        relevant_part(a.push(x)) == if x.1 { relevant_part(a).push(x.0) } else { relevant_part(a) },
        other_part(a.push(x)) == if x.1 { other_part(a) } else { other_part(a).push(x.0) },
{
    assert(a.push(x).drop_last() =~= a);
}

proof fn lemma_unary_parts(q: QualifierPatternV, vs: Seq<(Seq<char>, BaseTypeV)>, relevant: Set<Seq<char>>)
    ensures
        unary_instances(q, vs, relevant) == (relevant_part(unary_generated(q, vs, relevant)), other_part(unary_generated(q, vs, relevant))),
    decreases vs.len(),
{
    if vs.len() > 0 {
        lemma_unary_parts(q, vs.drop_last(), relevant);
        let (v, t) = vs.last();
        if compatible_with_type(q, t) {
            lemma_parts_push(unary_generated(q, vs.drop_last(), relevant), (instantiate_spec(q, seq![v]).unwrap(), relevant.contains(v)));
        }
    }
}

proof fn lemma_row_parts(q: QualifierPatternV, v1: Seq<char>, t1: BaseTypeV, vs: Seq<(Seq<char>, BaseTypeV)>, relevant: Set<Seq<char>>)
    ensures
        binary_row(q, v1, t1, vs, relevant) == (relevant_part(row_generated(q, v1, t1, vs, relevant)), other_part(
            row_generated(q, v1, t1, vs, relevant),
        )),
    decreases vs.len(),
{
    if vs.len() > 0 {
        lemma_row_parts(q, v1, t1, vs.drop_last(), relevant);
        let (v2, t2) = vs.last();
        if binary_compatible(q, t1, t2) {
            lemma_parts_push(
                row_generated(q, v1, t1, vs.drop_last(), relevant),
                (instantiate_spec(q, seq![v1, v2]).unwrap(), relevant.contains(v1) || relevant.contains(v2)),
            );
        }
    }
}

proof fn lemma_binary_parts(
    q: QualifierPatternV,
    firsts: Seq<(Seq<char>, BaseTypeV)>,
    vs: Seq<(Seq<char>, BaseTypeV)>,
    relevant: Set<Seq<char>>,
)
    ensures
        binary_instances(q, firsts, vs, relevant) == (relevant_part(binary_generated(q, firsts, vs, relevant)), other_part(
            binary_generated(q, firsts, vs, relevant),
        )),
    decreases firsts.len(),
{
    if firsts.len() > 0 {
        lemma_binary_parts(q, firsts.drop_last(), vs, relevant);
        lemma_row_parts(q, firsts.last().0, firsts.last().1, vs, relevant);
        lemma_parts_add(binary_generated(q, firsts.drop_last(), vs, relevant), row_generated(q, firsts.last().0, firsts.last().1, vs, relevant));
    }
}

proof fn lemma_qualifier_parts(q: QualifierPatternV, vs: Seq<(Seq<char>, BaseTypeV)>, relevant: Set<Seq<char>>)
    ensures
        qualifier_instances(q, vs, relevant) == (relevant_part(qualifier_generated(q, vs, relevant)), other_part(
            qualifier_generated(q, vs, relevant),
        )),
{
    if pattern_arity(q) == 0 {
        let x = (instantiate_spec(q, Seq::empty()).unwrap(), true);
        lemma_parts_push(Seq::empty(), x);
        assert(seq![x] =~= Seq::<Tagged>::empty().push(x));
        assert(seq![x.0] =~= Seq::<PredV>::empty().push(x.0));
    } else if pattern_arity(q) == 1 {
        lemma_unary_parts(q, vs, relevant);
    } else {
        lemma_binary_parts(q, vs, vs, relevant);
    }
}

proof fn lemma_arity_parts(qs: Seq<QualifierPatternV>, a: nat, vs: Seq<(Seq<char>, BaseTypeV)>, relevant: Set<Seq<char>>)
    ensures
        arity_instances(qs, a, vs, relevant) == (relevant_part(arity_generated(qs, a, vs, relevant)), other_part(
            arity_generated(qs, a, vs, relevant),
        )),
    decreases qs.len(),
{
    if qs.len() > 0 {
        lemma_arity_parts(qs.drop_last(), a, vs, relevant);
        if pattern_arity(qs.last()) == a {
            lemma_qualifier_parts(qs.last(), vs, relevant);
            lemma_parts_add(arity_generated(qs.drop_last(), a, vs, relevant), qualifier_generated(qs.last(), vs, relevant));
        }
    }
}

proof fn lemma_upto_parts(qs: Seq<QualifierPatternV>, n: nat, vs: Seq<(Seq<char>, BaseTypeV)>, relevant: Set<Seq<char>>)
    ensures
        instances_upto(qs, n, vs, relevant) == (relevant_part(generated_upto(qs, n, vs, relevant)), other_part(
            generated_upto(qs, n, vs, relevant),
        )),
    decreases n,
{
    if n > 0 {
        lemma_upto_parts(qs, (n - 1) as nat, vs, relevant);
        lemma_arity_parts(qs, (n - 1) as nat, vs, relevant);
        lemma_parts_add(generated_upto(qs, (n - 1) as nat, vs, relevant), arity_generated(qs, (n - 1) as nat, vs, relevant));
    }
}

/// The candidates are the instances in the order they are generated (by
/// arity, then qualifier, then variable), stably partitioned: those that
/// have no places or mention a relevant variable first, then the others,
/// each part in the order of generation.
pub proof fn lemma_candidates_stable_partition(qs: Seq<QualifierPatternV>, vs: Seq<(Seq<char>, BaseTypeV)>, relevant: Set<Seq<char>>)
    ensures
        candidate_predicates(qs, vs, relevant) == relevant_part(generated_upto(qs, 3, vs, relevant)) + other_part(
            generated_upto(qs, 3, vs, relevant),
        ),
{
    lemma_upto_parts(qs, 3, vs, relevant);
}

/// Whether a predicate mentions only variables of the context and the
/// refined value `__self`.
pub open spec fn mentions_in_scope(p: PredV, vs: Seq<(Seq<char>, BaseTypeV)>) -> bool {
    forall|n: Seq<char>| #[trigger] crate::ast::predicate::pred_free_vars(p).contains(n) ==> n == self_name() || in_names(n, vs)
}

/// Whether a name is one of the context's variables.
pub open spec fn in_names(n: Seq<char>, vs: Seq<(Seq<char>, BaseTypeV)>) -> bool {
    exists|j: int| 0 <= j < vs.len() && vs[j].0 == n
}

/// Whether every predicate of a list mentions only variables in scope.
pub open spec fn all_in_scope(ps: Seq<PredV>, vs: Seq<(Seq<char>, BaseTypeV)>) -> bool {
    forall|i: int| 0 <= i < ps.len() ==> mentions_in_scope(#[trigger] ps[i], vs)
}

proof fn lemma_instance_in_scope(q: QualifierPatternV, args: Seq<Seq<char>>, vs: Seq<(Seq<char>, BaseTypeV)>)
    requires
        instantiate_spec(q, args) is Some,
        forall|a: int| 0 <= a < args.len() ==> in_names(args[a], vs),
    ensures
        mentions_in_scope(instantiate_spec(q, args).unwrap(), vs),
{
    assert forall|n: Seq<char>| #[trigger] crate::ast::predicate::pred_free_vars(instantiate_spec(q, args).unwrap()).contains(n)
        implies n == self_name() || in_names(n, vs) by {
        lemma_instance_value_variable(q, args, n);
        if n != self_name() {
            let a = choose|a: int| 0 <= a < args.len() && args[a] == n;
            assert(in_names(args[a], vs));
        }
    }
}

proof fn lemma_concat_in_scope(a: Seq<PredV>, b: Seq<PredV>, vs: Seq<(Seq<char>, BaseTypeV)>)
    requires
        all_in_scope(a, vs),
        all_in_scope(b, vs),
    ensures
        all_in_scope(a + b, vs),
{
    assert forall|i: int| 0 <= i < (a + b).len() implies mentions_in_scope(#[trigger] (a + b)[i], vs) by {
        if i < a.len() {
            assert((a + b)[i] == a[i]);
        } else {
            assert((a + b)[i] == b[i - a.len()]);
        }
    }
}

proof fn lemma_push_in_scope(a: Seq<PredV>, p: PredV, vs: Seq<(Seq<char>, BaseTypeV)>)
    requires
        all_in_scope(a, vs),
        mentions_in_scope(p, vs),
    ensures
        all_in_scope(a.push(p), vs),
{
    assert forall|i: int| 0 <= i < a.push(p).len() implies mentions_in_scope(#[trigger] a.push(p)[i], vs) by {
        if i < a.len() {
            assert(a.push(p)[i] == a[i]);
        }
    }
}

proof fn lemma_unary_in_scope(q: QualifierPatternV, us: Seq<(Seq<char>, BaseTypeV)>, vs: Seq<(Seq<char>, BaseTypeV)>, relevant: Set<Seq<char>>)
    requires
        pattern_arity(q) == 1,
        forall|k: int| 0 <= k < us.len() ==> in_names((#[trigger] us[k]).0, vs),
    ensures
        all_in_scope(unary_instances(q, us, relevant).0, vs),
        all_in_scope(unary_instances(q, us, relevant).1, vs),
    decreases us.len(),
{
    if us.len() > 0 {
        let (r, o) = unary_instances(q, us.drop_last(), relevant);
        assert forall|k: int| 0 <= k < us.drop_last().len() implies in_names((#[trigger] us.drop_last()[k]).0, vs) by {
            assert(us.drop_last()[k] == us[k]);
        }
        lemma_unary_in_scope(q, us.drop_last(), vs, relevant);
        let (v, t) = us.last();
        if compatible_with_type(q, t) {
            let args = seq![v];
            assert(in_names(us[us.len() - 1].0, vs));
            assert forall|a: int| 0 <= a < args.len() implies in_names(args[a], vs) by {
                assert(args[a] == us[us.len() - 1].0);
            }
            lemma_instance_in_scope(q, args, vs);
            let p = instantiate_spec(q, args).unwrap();
            lemma_push_in_scope(r, p, vs);
            lemma_push_in_scope(o, p, vs);
        }
    }
}

proof fn lemma_row_in_scope(
    q: QualifierPatternV,
    v1: Seq<char>,
    t1: BaseTypeV,
    us: Seq<(Seq<char>, BaseTypeV)>,
    vs: Seq<(Seq<char>, BaseTypeV)>,
    relevant: Set<Seq<char>>,
)
    requires
        pattern_arity(q) == 2,
        in_names(v1, vs),
        forall|k: int| 0 <= k < us.len() ==> in_names((#[trigger] us[k]).0, vs),
    ensures
        all_in_scope(binary_row(q, v1, t1, us, relevant).0, vs),
        all_in_scope(binary_row(q, v1, t1, us, relevant).1, vs),
    decreases us.len(),
{
    if us.len() > 0 {
        let (r, o) = binary_row(q, v1, t1, us.drop_last(), relevant);
        assert forall|k: int| 0 <= k < us.drop_last().len() implies in_names((#[trigger] us.drop_last()[k]).0, vs) by {
            assert(us.drop_last()[k] == us[k]);
        }
        lemma_row_in_scope(q, v1, t1, us.drop_last(), vs, relevant);
        let (v2, t2) = us.last();
        if binary_compatible(q, t1, t2) {
            let args = seq![v1, v2];
            assert(in_names(us[us.len() - 1].0, vs));
            assert forall|a: int| 0 <= a < args.len() implies in_names(args[a], vs) by {
                if a == 1 {
                    assert(args[a] == us[us.len() - 1].0);
                }
            }
            lemma_instance_in_scope(q, args, vs);
            let p = instantiate_spec(q, args).unwrap();
            lemma_push_in_scope(r, p, vs);
            lemma_push_in_scope(o, p, vs);
        }
    }
}

proof fn lemma_binary_in_scope(
    q: QualifierPatternV,
    firsts: Seq<(Seq<char>, BaseTypeV)>,
    vs: Seq<(Seq<char>, BaseTypeV)>,
    relevant: Set<Seq<char>>,
)
    requires
        pattern_arity(q) == 2,
        forall|k: int| 0 <= k < firsts.len() ==> in_names((#[trigger] firsts[k]).0, vs),
    ensures
        all_in_scope(binary_instances(q, firsts, vs, relevant).0, vs),
        all_in_scope(binary_instances(q, firsts, vs, relevant).1, vs),
    decreases firsts.len(),
{
    if firsts.len() > 0 {
        assert forall|k: int| 0 <= k < firsts.drop_last().len() implies in_names((#[trigger] firsts.drop_last()[k]).0, vs) by {
            assert(firsts.drop_last()[k] == firsts[k]);
        }
        lemma_binary_in_scope(q, firsts.drop_last(), vs, relevant);
        let (v1, t1) = firsts.last();
        assert(in_names(firsts[firsts.len() - 1].0, vs));
        assert forall|k: int| 0 <= k < vs.len() implies in_names((#[trigger] vs[k]).0, vs) by {
            assert(vs[k].0 == vs[k].0);
        }
        lemma_row_in_scope(q, v1, t1, vs, vs, relevant);
        let (r, o) = binary_instances(q, firsts.drop_last(), vs, relevant);
        let (r2, o2) = binary_row(q, v1, t1, vs, relevant);
        lemma_concat_in_scope(r, r2, vs);
        lemma_concat_in_scope(o, o2, vs);
    }
}

proof fn lemma_qualifier_in_scope(q: QualifierPatternV, vs: Seq<(Seq<char>, BaseTypeV)>, relevant: Set<Seq<char>>)
    ensures
        all_in_scope(qualifier_instances(q, vs, relevant).0, vs),
        all_in_scope(qualifier_instances(q, vs, relevant).1, vs),
{
    assert forall|k: int| 0 <= k < vs.len() implies in_names((#[trigger] vs[k]).0, vs) by {
        assert(vs[k].0 == vs[k].0);
    }
    if pattern_arity(q) == 0 {
        lemma_instance_in_scope(q, Seq::empty(), vs);
        let p = instantiate_spec(q, Seq::empty()).unwrap();
        lemma_push_in_scope(Seq::empty(), p, vs);
        assert(seq![p] == Seq::<PredV>::empty().push(p));
    } else if pattern_arity(q) == 1 {
        lemma_unary_in_scope(q, vs, vs, relevant);
    } else {
        lemma_binary_in_scope(q, vs, vs, relevant);
    }
}

proof fn lemma_arity_in_scope(qs: Seq<QualifierPatternV>, a: nat, vs: Seq<(Seq<char>, BaseTypeV)>, relevant: Set<Seq<char>>)
    ensures
        all_in_scope(arity_instances(qs, a, vs, relevant).0, vs),
        all_in_scope(arity_instances(qs, a, vs, relevant).1, vs),
    decreases qs.len(),
{
    if qs.len() > 0 {
        lemma_arity_in_scope(qs.drop_last(), a, vs, relevant);
        if pattern_arity(qs.last()) == a {
            lemma_qualifier_in_scope(qs.last(), vs, relevant);
            let (r, o) = arity_instances(qs.drop_last(), a, vs, relevant);
            let (r2, o2) = qualifier_instances(qs.last(), vs, relevant);
            lemma_concat_in_scope(r, r2, vs);
            lemma_concat_in_scope(o, o2, vs);
        }
    }
}

proof fn lemma_upto_in_scope(qs: Seq<QualifierPatternV>, n: nat, vs: Seq<(Seq<char>, BaseTypeV)>, relevant: Set<Seq<char>>)
    ensures
        all_in_scope(instances_upto(qs, n, vs, relevant).0, vs),
        all_in_scope(instances_upto(qs, n, vs, relevant).1, vs),
    decreases n,
{
    if n > 0 {
        lemma_upto_in_scope(qs, (n - 1) as nat, vs, relevant);
        lemma_arity_in_scope(qs, (n - 1) as nat, vs, relevant);
        let (r, o) = instances_upto(qs, (n - 1) as nat, vs, relevant);
        let (r2, o2) = arity_instances(qs, (n - 1) as nat, vs, relevant);
        lemma_concat_in_scope(r, r2, vs);
        lemma_concat_in_scope(o, o2, vs);
    }
}

/// Every candidate predicate mentions only variables bound in the context
/// and the refined value.
pub proof fn lemma_candidates_in_scope(qs: Seq<QualifierPatternV>, vs: Seq<(Seq<char>, BaseTypeV)>, relevant: Set<Seq<char>>)
    ensures
        all_in_scope(candidate_predicates(qs, vs, relevant), vs),
{
    lemma_upto_in_scope(qs, 3, vs, relevant);
    let (r, o) = instances_upto(qs, 3, vs, relevant);
    lemma_concat_in_scope(r, o, vs);
}

proof fn lemma_unary_step(q: QualifierPatternV, vs: Seq<(Seq<char>, BaseTypeV)>, i: int, relevant: Set<Seq<char>>)
    requires
        0 <= i < vs.len(),
    ensures
        unary_instances(q, vs.subrange(0, i + 1), relevant) == ({
            let (r, o) = unary_instances(q, vs.subrange(0, i), relevant);
            let (v, t) = vs[i];
            if !compatible_with_type(q, t) {
                (r, o)
            } else {
                let p = instantiate_spec(q, seq![v]).unwrap();
                if relevant.contains(v) {
                    (r.push(p), o)
                } else {
                    (r, o.push(p))
                }
            }
        }),
{
    assert(vs.subrange(0, i + 1).drop_last() =~= vs.subrange(0, i));
}

proof fn lemma_row_step(q: QualifierPatternV, v1: Seq<char>, t1: BaseTypeV, vs: Seq<(Seq<char>, BaseTypeV)>, j: int, relevant: Set<Seq<char>>)
    requires
        0 <= j < vs.len(),
    ensures
        binary_row(q, v1, t1, vs.subrange(0, j + 1), relevant) == ({
            let (r, o) = binary_row(q, v1, t1, vs.subrange(0, j), relevant);
            let (v2, t2) = vs[j];
            if !binary_compatible(q, t1, t2) {
                (r, o)
            } else {
                let p = instantiate_spec(q, seq![v1, v2]).unwrap();
                if relevant.contains(v1) || relevant.contains(v2) {
                    (r.push(p), o)
                } else {
                    (r, o.push(p))
                }
            }
        }),
{
    assert(vs.subrange(0, j + 1).drop_last() =~= vs.subrange(0, j));
}

proof fn lemma_preds_push(v: Seq<Predicate>, p: Predicate)
    ensures
        preds_view(v.push(p)) == preds_view(v).push(p@),
{
    assert(preds_view(v.push(p)) =~= preds_view(v).push(p@));
}

fn contains_pred(v: &Vec<Predicate>, p: &Predicate) -> (r: bool)
    ensures
        r == preds_view(v@).contains(p@),
{
    let ghost pv = preds_view(v@);
    let mut k: usize = 0;
    while k < v.len()
        invariant
            k <= v.len(),
            pv == preds_view(v@),
            forall|w: int| 0 <= w < k ==> pv[w] != p@,
        decreases v.len() - k,
    {
        if pred_eq(&v[k], p) {
            proof {
                assert(pv[k as int] == p@);
            }
            return true;
        }
        k = k + 1;
    }
    false
}

fn one_arg(a: &String) -> (r: Vec<String>)
    ensures
        r@.map_values(|s: String| s@) == seq![a@],
{
    let mut v: Vec<String> = Vec::new();
    v.push(a.clone());
    proof {
        assert(v@.map_values(|s: String| s@) =~= seq![a@]);
    }
    v
}

fn two_args(a: &String, b: &String) -> (r: Vec<String>)
    ensures
        r@.map_values(|s: String| s@) == seq![a@, b@],
{
    let mut v: Vec<String> = Vec::new();
    v.push(a.clone());
    v.push(b.clone());
    proof {
        assert(v@.map_values(|s: String| s@) =~= seq![a@, b@]);
    }
    v
}

impl QualifierSet {
    fn add_unary(
        q: &Qualifier,
        bindings: &Vec<(String, Template)>,
        relevant_vars: &StrSet,
        rel: &mut Vec<Predicate>,
        oth: &mut Vec<Predicate>,
    )
        requires
            pattern_arity(q@) == 1,
        ensures
            preds_view(final(rel)@) == preds_view(old(rel)@) + unary_instances(q@, var_infos(bindings_view(bindings@)), relevant_vars@).0,
            preds_view(final(oth)@) == preds_view(old(oth)@) + unary_instances(q@, var_infos(bindings_view(bindings@)), relevant_vars@).1,
    {
        let ghost vs = var_infos(bindings_view(bindings@));
        let ghost r0 = preds_view(rel@);
        let ghost o0 = preds_view(oth@);
        let mut i: usize = 0;
        while i < bindings.len()
            invariant
                i <= bindings.len(),
                vs == var_infos(bindings_view(bindings@)),
                pattern_arity(q@) == 1,
                preds_view(rel@) == r0 + unary_instances(q@, vs.subrange(0, i as int), relevant_vars@).0,
                preds_view(oth@) == o0 + unary_instances(q@, vs.subrange(0, i as int), relevant_vars@).1,
            decreases bindings.len() - i,
        {
            let b = &bindings[i];
            let base = b.1.base_type();
            let ghost prev = unary_instances(q@, vs.subrange(0, i as int), relevant_vars@);
            proof {
                lemma_unary_step(q@, vs, i as int, relevant_vars@);
                assert(vs[i as int] == (b.0@, b.1@.base()));
            }
            if Self::is_qualifier_compatible_with_type(q, base) {
                let args = one_arg(&b.0);
                match q.instantiate(&args) {
                    Some(pred) => {
                        if relevant_vars.contains(b.0.as_str()) {
                            let ghost pre = rel@;
                            let ghost pg = pred;
                            rel.push(pred);
                            proof {
                                lemma_preds_push(pre, pg);
                                assert(preds_view(rel@) =~= r0 + prev.0.push(pg@));
                            }
                        } else {
                            let ghost pre = oth@;
                            let ghost pg = pred;
                            oth.push(pred);
                            proof {
                                lemma_preds_push(pre, pg);
                                assert(preds_view(oth@) =~= o0 + prev.1.push(pg@));
                            }
                        }
                    },
                    None => {},
                }
            }
            i = i + 1;
        }
        proof {
            assert(vs.subrange(0, bindings.len() as int) =~= vs);
        }
    }

    fn add_binary_row(
        q: &Qualifier,
        first: &(String, Template),
        bindings: &Vec<(String, Template)>,
        relevant_vars: &StrSet,
        rel: &mut Vec<Predicate>,
        oth: &mut Vec<Predicate>,
    )
        requires
            pattern_arity(q@) == 2,
        ensures
            preds_view(final(rel)@) == preds_view(old(rel)@) + binary_row(q@, first.0@, first.1@.base(), var_infos(bindings_view(bindings@)), relevant_vars@).0,
            preds_view(final(oth)@) == preds_view(old(oth)@) + binary_row(q@, first.0@, first.1@.base(), var_infos(bindings_view(bindings@)), relevant_vars@).1,
    {
        let ghost vs = var_infos(bindings_view(bindings@));
        let ghost r0 = preds_view(rel@);
        let ghost o0 = preds_view(oth@);
        let t1 = first.1.base_type();
        let rel1 = relevant_vars.contains(first.0.as_str());
        let mut j: usize = 0;
        while j < bindings.len()
            invariant
                j <= bindings.len(),
                vs == var_infos(bindings_view(bindings@)),
                pattern_arity(q@) == 2,
                t1@ == first.1@.base(),
                rel1 == relevant_vars@.contains(first.0@),
                preds_view(rel@) == r0 + binary_row(q@, first.0@, first.1@.base(), vs.subrange(0, j as int), relevant_vars@).0,
                preds_view(oth@) == o0 + binary_row(q@, first.0@, first.1@.base(), vs.subrange(0, j as int), relevant_vars@).1,
            decreases bindings.len() - j,
        {
            let b = &bindings[j];
            let t2 = b.1.base_type();
            let ghost prev = binary_row(q@, first.0@, first.1@.base(), vs.subrange(0, j as int), relevant_vars@);
            proof {
                lemma_row_step(q@, first.0@, first.1@.base(), vs, j as int, relevant_vars@);
                assert(vs[j as int] == (b.0@, b.1@.base()));
            }
            if Self::is_binary_qualifier_compatible(q, t1, t2) {
                let args = two_args(&first.0, &b.0);
                match q.instantiate(&args) {
                    Some(pred) => {
                        if rel1 || relevant_vars.contains(b.0.as_str()) {
                            let ghost pre = rel@;
                            let ghost pg = pred;
                            rel.push(pred);
                            proof {
                                lemma_preds_push(pre, pg);
                                assert(preds_view(rel@) =~= r0 + prev.0.push(pg@));
                            }
                        } else {
                            let ghost pre = oth@;
                            let ghost pg = pred;
                            oth.push(pred);
                            proof {
                                lemma_preds_push(pre, pg);
                                assert(preds_view(oth@) =~= o0 + prev.1.push(pg@));
                            }
                        }
                    },
                    None => {},
                }
            }
            j = j + 1;
        }
        proof {
            assert(vs.subrange(0, bindings.len() as int) =~= vs);
        }
    }

    fn add_binary(
        q: &Qualifier,
        bindings: &Vec<(String, Template)>,
        relevant_vars: &StrSet,
        rel: &mut Vec<Predicate>,
        oth: &mut Vec<Predicate>,
    )
        requires
            pattern_arity(q@) == 2,
        ensures
            preds_view(final(rel)@) == preds_view(old(rel)@) + binary_instances(q@, var_infos(bindings_view(bindings@)), var_infos(bindings_view(bindings@)), relevant_vars@).0,
            preds_view(final(oth)@) == preds_view(old(oth)@) + binary_instances(q@, var_infos(bindings_view(bindings@)), var_infos(bindings_view(bindings@)), relevant_vars@).1,
    {
        let ghost vs = var_infos(bindings_view(bindings@));
        let ghost r0 = preds_view(rel@);
        let ghost o0 = preds_view(oth@);
        let mut i: usize = 0;
        while i < bindings.len()
            invariant
                i <= bindings.len(),
                vs == var_infos(bindings_view(bindings@)),
                pattern_arity(q@) == 2,
                preds_view(rel@) == r0 + binary_instances(q@, vs.subrange(0, i as int), vs, relevant_vars@).0,
                preds_view(oth@) == o0 + binary_instances(q@, vs.subrange(0, i as int), vs, relevant_vars@).1,
            decreases bindings.len() - i,
        {
            let ghost rb = preds_view(rel@);
            let ghost ob = preds_view(oth@);
            Self::add_binary_row(q, &bindings[i], bindings, relevant_vars, rel, oth);
            proof {
                assert(vs.subrange(0, i + 1).drop_last() =~= vs.subrange(0, i as int));
                assert(vs[i as int] == (bindings@[i as int].0@, bindings@[i as int].1@.base()));
                assert(preds_view(rel@) =~= r0 + binary_instances(q@, vs.subrange(0, i + 1), vs, relevant_vars@).0);
                assert(preds_view(oth@) =~= o0 + binary_instances(q@, vs.subrange(0, i + 1), vs, relevant_vars@).1);
            }
            i = i + 1;
        }
        proof {
            assert(vs.subrange(0, bindings.len() as int) =~= vs);
        }
    }

    fn add_instances(
        q: &Qualifier,
        bindings: &Vec<(String, Template)>,
        relevant_vars: &StrSet,
        rel: &mut Vec<Predicate>,
        oth: &mut Vec<Predicate>,
    )
        ensures
            preds_view(final(rel)@) == preds_view(old(rel)@) + qualifier_instances(q@, var_infos(bindings_view(bindings@)), relevant_vars@).0,
            preds_view(final(oth)@) == preds_view(old(oth)@) + qualifier_instances(q@, var_infos(bindings_view(bindings@)), relevant_vars@).1,
    {
        let a = q.arity();
        if a == 0 {
            let args: Vec<String> = Vec::new();
            proof {
                assert(args@.map_values(|s: String| s@) =~= Seq::<Seq<char>>::empty());
            }
            match q.instantiate(&args) {
                Some(pred) => rel.push(pred),
                None => {},
            }
            proof {
                assert(preds_view(rel@) =~= preds_view(old(rel)@) + qualifier_instances(q@, var_infos(bindings_view(bindings@)), relevant_vars@).0);
                assert(preds_view(oth@) =~= preds_view(old(oth)@) + qualifier_instances(q@, var_infos(bindings_view(bindings@)), relevant_vars@).1);
            }
        } else if a == 1 {
            Self::add_unary(q, bindings, relevant_vars, rel, oth);
        } else {
            Self::add_binary(q, bindings, relevant_vars, rel, oth);
        }
    }

    /// All candidate predicates for a context, the relevant ones first (see
    /// `candidate_predicates`): qualifiers without places as they are, the
    /// others over the bound variables whose types they fit.
    pub fn instantiate_all_with_relevance(&self, context: &TypeContext, relevant_vars: &StrSet) -> (r: Vec<Predicate>)
        ensures
            preds_view(r@) == candidate_predicates(self@.qualifiers, var_infos(context@.bindings), relevant_vars@),
    {
        let bindings = context.bindings();
        let ghost vs = var_infos(context@.bindings);
        let ghost qs = self@.qualifiers;
        let mut rel: Vec<Predicate> = Vec::new();
        let mut oth: Vec<Predicate> = Vec::new();
        let mut arity: usize = 0;
        proof {
            assert(preds_view(rel@) =~= Seq::<PredV>::empty());
            assert(preds_view(oth@) =~= Seq::<PredV>::empty());
        }
        while arity < 3
            invariant
                arity <= 3,
                bindings_view(bindings@) == context@.bindings,
                vs == var_infos(context@.bindings),
                qs == self@.qualifiers,
                preds_view(rel@) == instances_upto(qs, arity as nat, vs, relevant_vars@).0,
                preds_view(oth@) == instances_upto(qs, arity as nat, vs, relevant_vars@).1,
            decreases 3 - arity,
        {
            let ghost rb = preds_view(rel@);
            let ghost ob = preds_view(oth@);
            let mut k: usize = 0;
            while k < self.qualifiers.len()
                invariant
                    k <= self.qualifiers.len(),
                    arity < 3,
                    bindings_view(bindings@) == context@.bindings,
                    vs == var_infos(context@.bindings),
                    qs == self@.qualifiers,
                    preds_view(rel@) == rb + arity_instances(qs.subrange(0, k as int), arity as nat, vs, relevant_vars@).0,
                    preds_view(oth@) == ob + arity_instances(qs.subrange(0, k as int), arity as nat, vs, relevant_vars@).1,
                decreases self.qualifiers.len() - k,
            {
                let q = &self.qualifiers[k];
                proof {
                    assert(qs.subrange(0, k + 1).drop_last() =~= qs.subrange(0, k as int));
                    assert(qs[k as int] == q@);
                }
                if q.arity() == arity {
                    Self::add_instances(q, bindings, relevant_vars, &mut rel, &mut oth);
                }
                proof {
                    assert(preds_view(rel@) =~= rb + arity_instances(qs.subrange(0, k + 1), arity as nat, vs, relevant_vars@).0);
                    assert(preds_view(oth@) =~= ob + arity_instances(qs.subrange(0, k + 1), arity as nat, vs, relevant_vars@).1);
                }
                k = k + 1;
            }
            proof {
                assert(qs.subrange(0, self.qualifiers.len() as int) =~= qs);
            }
            arity = arity + 1;
        }
        let ghost rv = preds_view(rel@);
        let ghost ov = preds_view(oth@);
        rel.append(&mut oth);
        proof {
            assert(preds_view(rel@) =~= rv + ov);
        }
        rel
    }

    /// `instantiate_all_with_relevance` with no relevant variables.
    pub fn instantiate_all(&self, context: &TypeContext) -> (r: Vec<Predicate>)
        ensures
            preds_view(r@) == candidate_predicates(self@.qualifiers, var_infos(context@.bindings), Set::empty()),
    {
        let none = StrSet::new();
        self.instantiate_all_with_relevance(context, &none)
    }

    /// The candidates of `instantiate_all`, each once, in the order of first
    /// occurrence.
    #[verifier::rlimit(40)]
    pub fn instantiate_all_unique(&self, context: &TypeContext) -> (r: Vec<Predicate>)
        ensures
            preds_view(r@) == dedup(candidate_predicates(self@.qualifiers, var_infos(context@.bindings), Set::empty())),
    {
        let all = self.instantiate_all(context);
        let ghost av = preds_view(all@);
        let mut out: Vec<Predicate> = Vec::new();
        let mut i: usize = 0;
        proof {
            assert(preds_view(out@) =~= dedup(av.subrange(0, 0)));
        }
        while i < all.len()
            invariant
                i <= all.len(),
                av == preds_view(all@),
                preds_view(out@) == dedup(av.subrange(0, i as int)),
            decreases all.len() - i,
        {
            let p = &all[i];
            let found = contains_pred(&out, p);
            let ghost ov = preds_view(out@);
            proof {
                assert(av.subrange(0, i + 1).drop_last() =~= av.subrange(0, i as int));
                assert(av[i as int] == p@);
            }
            if !found {
                out.push(p.clone());
                proof {
                    assert(preds_view(out@) =~= ov.push(av[i as int]));
                }
            }
            i = i + 1;
        }
        proof {
            assert(av.subrange(0, all.len() as int) =~= av);
        }
        out
    }
}

} // verus!
