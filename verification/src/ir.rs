use vstd::prelude::*;
use vstd::string::StringExecFns;

use crate::ast::expression::{BinaryOperator, UnaryOperator};
use crate::ast::meta::SourceRef;
use crate::ast::predicate::{Predicate, RefinementExpr, PredV, ExprV, filler_expr, clone_exprs};
use crate::ast::types::{BaseType, BaseTypeV};
use crate::names::{decimal, usize_to_string};

verus! {

// ---------------------------------------------------------------------------
// Symbols and registers
// ---------------------------------------------------------------------------

/// A symbol of the program: a named declaration (its source name and a
/// number that tells apart declarations of the same name), or a temporary
/// introduced when lowering expressions.
#[derive(Debug)]
pub enum SymbolId {
    Named(String, usize),
    Temp(usize),
}

pub enum SymbolIdV {
    Named(Seq<char>, usize),
    Temp(usize),
}

impl View for SymbolId {
    type V = SymbolIdV;

    open spec fn view(&self) -> SymbolIdV {
        match *self {
            SymbolId::Named(n, k) => SymbolIdV::Named(n@, k),
            SymbolId::Temp(t) => SymbolIdV::Temp(t),
        }
    }
}

impl Clone for SymbolId {
    fn clone(&self) -> (r: Self)
        ensures
            r@ == self@,
    {
        match self {
            SymbolId::Named(n, k) => SymbolId::Named(n.clone(), *k),
            SymbolId::Temp(t) => SymbolId::Temp(*t),
        }
    }
}

/// Whether two symbols are the same.
pub fn symbol_eq(a: &SymbolId, b: &SymbolId) -> (r: bool)
    ensures
        r == (a@ == b@),
{
    match (a, b) {
        (SymbolId::Named(n1, k1), SymbolId::Named(n2, k2)) => *k1 == *k2 && *n1 == *n2,
        (SymbolId::Temp(t1), SymbolId::Temp(t2)) => *t1 == *t2,
        _ => false,
    }
}

/// `"__temp_"` as characters.
pub open spec fn temp_prefix() -> Seq<char> {
    seq!['_', '_', 't', 'e', 'm', 'p', '_']
}

/// The name of version `version` of a symbol: `x_3` for the named `x`,
/// `__temp_5_0` for temporary 5.
pub open spec fn register_name(symbol: SymbolIdV, version: nat) -> Seq<char> {
    match symbol {
        SymbolIdV::Named(n, _) => n + seq!['_'] + decimal(version),
        SymbolIdV::Temp(t) => temp_prefix() + decimal(t as nat) + seq!['_'] + decimal(version),
    }
}

/// A version of a symbol in SSA form.
#[derive(Debug)]
pub struct Register {
    pub symbol: SymbolId,
    pub version: usize,
}

pub struct RegisterV {
    pub symbol: SymbolIdV,
    pub version: usize,
}

impl View for Register {
    type V = RegisterV;

    open spec fn view(&self) -> RegisterV {
        RegisterV { symbol: self.symbol@, version: self.version }
    }
}

impl RegisterV {
    pub open spec fn name(self) -> Seq<char> {
        register_name(self.symbol, self.version as nat)
    }
}

impl Clone for Register {
    fn clone(&self) -> (r: Self)
        ensures
            r@ == self@,
    {
        Register { symbol: self.symbol.clone(), version: self.version }
    }
}

impl Register {
    /// The register's name, as the refinements refer to it.
    pub fn to_string(&self) -> (r: String)
        ensures
            r@ == self@.name(),
    {
        proof {
            reveal_strlit("_");
            reveal_strlit("__temp_");
        }
        match &self.symbol {
            SymbolId::Named(n, _) => {
                let mut s = n.clone();
                s.append("_");
                let v = usize_to_string(self.version);
                s.append(v.as_str());
                s
            },
            SymbolId::Temp(t) => {
                let mut s = String::from_str("__temp_");
                let ts = usize_to_string(*t);
                s.append(ts.as_str());
                s.append("_");
                let v = usize_to_string(self.version);
                s.append(v.as_str());
                s
            },
        }
    }
}

// ---------------------------------------------------------------------------
// Operands and instructions
// ---------------------------------------------------------------------------

#[derive(Debug)]
pub enum Constant {
    Int(i64),
    Bool(bool),
    /// An address, as its 32 bytes.
    Address([u8; 32]),
    String(String),
}

pub enum ConstantV {
    Int(i64),
    Bool(bool),
    Address(Seq<u8>),
    String(Seq<char>),
}

impl View for Constant {
    type V = ConstantV;

    open spec fn view(&self) -> ConstantV {
        match *self {
            Constant::Int(i) => ConstantV::Int(i),
            Constant::Bool(b) => ConstantV::Bool(b),
            Constant::Address(a) => ConstantV::Address(a@),
            Constant::String(s) => ConstantV::String(s@),
        }
    }
}

impl Clone for Constant {
    fn clone(&self) -> (r: Self)
        ensures
            r@ == self@,
    {
        match self {
            Constant::Int(i) => Constant::Int(*i),
            Constant::Bool(b) => Constant::Bool(*b),
            Constant::Address(a) => Constant::Address(*a),
            Constant::String(s) => Constant::String(s.clone()),
        }
    }
}

#[derive(Debug)]
pub enum Operand {
    Location(Register),
    Constant(Constant),
}

pub enum OperandV {
    Location(RegisterV),
    Constant(ConstantV),
}

impl View for Operand {
    type V = OperandV;

    open spec fn view(&self) -> OperandV {
        match *self {
            Operand::Location(r) => OperandV::Location(r@),
            Operand::Constant(c) => OperandV::Constant(c@),
        }
    }
}

impl Clone for Operand {
    fn clone(&self) -> (r: Self)
        ensures
            r@ == self@,
    {
        match self {
            Operand::Location(r) => Operand::Location(r.clone()),
            Operand::Constant(c) => Operand::Constant(c.clone()),
        }
    }
}

pub fn clone_operands(v: &Vec<Operand>) -> (r: Vec<Operand>)
    ensures
        r@.map_values(|o: Operand| o@) == v@.map_values(|o: Operand| o@),
{
    let mut out: Vec<Operand> = Vec::new();
    let mut i: usize = 0;
    while i < v.len()
        invariant
            i <= v.len(),
            out.len() == i,
            forall|j: int| 0 <= j < i ==> (#[trigger] out@[j])@ == v@[j]@,
        decreases v.len() - i,
    {
        out.push(v[i].clone());
        i = i + 1;
    }
    assert(out@.map_values(|o: Operand| o@) =~= v@.map_values(|o: Operand| o@));
    out
}

/// Who a call goes to: a function of this contract, or a method of another
/// contract through the register that holds it.
#[derive(Debug)]
pub enum CallTarget {
    Internal(SymbolId),
    External { object: Register, method: String },
}

pub enum CallTargetV {
    Internal(SymbolIdV),
    External(RegisterV, Seq<char>),
}

impl View for CallTarget {
    type V = CallTargetV;

    open spec fn view(&self) -> CallTargetV {
        match *self {
            CallTarget::Internal(s) => CallTargetV::Internal(s@),
            CallTarget::External { object, method } => CallTargetV::External(object@, method@),
        }
    }
}

impl Clone for CallTarget {
    fn clone(&self) -> (r: Self)
        ensures
            r@ == self@,
    {
        match self {
            CallTarget::Internal(s) => CallTarget::Internal(s.clone()),
            CallTarget::External { object, method } => CallTarget::External { object: object.clone(), method: method.clone() },
        }
    }
}

/// An instruction in SSA form.
#[derive(Debug)]
#[allow(inconsistent_fields)]
pub enum SsaInstruction {
    Copy { dest: Register, source: Operand, source_ref: SourceRef },
    /// `dest` takes `sources[i].1` when control comes from block `sources[i].0`.
    Phi { dest: Register, sources: Vec<(usize, Register)> },
    BinaryOp { dest: Register, op: BinaryOperator, left: Operand, right: Operand, source_ref: SourceRef },
    UnaryOp { dest: Register, op: UnaryOperator, operand: Operand, source_ref: SourceRef },
    StorageLoad { dest: Register, var: SymbolId, source_ref: SourceRef },
    StorageStore { var: SymbolId, value: Operand, source_ref: SourceRef },
    Call { dest: Option<Register>, target: CallTarget, args: Vec<Operand>, source_ref: SourceRef },
    Assert { condition: Operand, source_ref: SourceRef },
    /// The storage variable's invariant is checked again from here on.
    Fold { var: SymbolId, source_ref: SourceRef },
    /// The storage variable's invariant is assumed and may be broken from here on.
    Unfold { var: SymbolId, source_ref: SourceRef },
}

pub enum InstrV {
    Copy(RegisterV, OperandV, SourceRef),
    Phi(RegisterV, Seq<(usize, RegisterV)>),
    BinaryOp(RegisterV, BinaryOperator, OperandV, OperandV, SourceRef),
    UnaryOp(RegisterV, UnaryOperator, OperandV, SourceRef),
    StorageLoad(RegisterV, SymbolIdV, SourceRef),
    StorageStore(SymbolIdV, OperandV, SourceRef),
    Call(Option<RegisterV>, CallTargetV, Seq<OperandV>, SourceRef),
    Assert(OperandV, SourceRef),
    Fold(SymbolIdV, SourceRef),
    Unfold(SymbolIdV, SourceRef),
}

pub open spec fn opt_reg_view(r: Option<Register>) -> Option<RegisterV> {
    match r {
        Some(x) => Some(x@),
        None => None,
    }
}

impl View for SsaInstruction {
    type V = InstrV;

    open spec fn view(&self) -> InstrV {
        match *self {
            SsaInstruction::Copy { dest, source, source_ref } => InstrV::Copy(dest@, source@, source_ref),
            SsaInstruction::Phi { dest, sources } => InstrV::Phi(dest@, sources@.map_values(|p: (usize, Register)| (p.0, p.1@))),
            SsaInstruction::BinaryOp { dest, op, left, right, source_ref } => InstrV::BinaryOp(dest@, op, left@, right@, source_ref),
            SsaInstruction::UnaryOp { dest, op, operand, source_ref } => InstrV::UnaryOp(dest@, op, operand@, source_ref),
            SsaInstruction::StorageLoad { dest, var, source_ref } => InstrV::StorageLoad(dest@, var@, source_ref),
            SsaInstruction::StorageStore { var, value, source_ref } => InstrV::StorageStore(var@, value@, source_ref),
            SsaInstruction::Call { dest, target, args, source_ref } => InstrV::Call(
                opt_reg_view(dest),
                target@,
                args@.map_values(|o: Operand| o@),
                source_ref,
            ),
            SsaInstruction::Assert { condition, source_ref } => InstrV::Assert(condition@, source_ref),
            SsaInstruction::Fold { var, source_ref } => InstrV::Fold(var@, source_ref),
            SsaInstruction::Unfold { var, source_ref } => InstrV::Unfold(var@, source_ref),
        }
    }
}

impl InstrV {
    /// The register the instruction defines, if any.
    pub open spec fn dest(self) -> Option<RegisterV> {
        match self {
            InstrV::Copy(d, _, _) => Some(d),
            InstrV::Phi(d, _) => Some(d),
            InstrV::BinaryOp(d, _, _, _, _) => Some(d),
            InstrV::UnaryOp(d, _, _, _) => Some(d),
            InstrV::StorageLoad(d, _, _) => Some(d),
            InstrV::Call(d, _, _, _) => d,
            _ => None,
        }
    }
}

fn clone_phi_sources(v: &Vec<(usize, Register)>) -> (r: Vec<(usize, Register)>)
    ensures
        r@.map_values(|p: (usize, Register)| (p.0, p.1@)) == v@.map_values(|p: (usize, Register)| (p.0, p.1@)),
{
    let mut out: Vec<(usize, Register)> = Vec::new();
    let mut i: usize = 0;
    while i < v.len()
        invariant
            i <= v.len(),
            out.len() == i,
            forall|j: int| 0 <= j < i ==> (#[trigger] out@[j]).0 == v@[j].0 && out@[j].1@ == v@[j].1@,
        decreases v.len() - i,
    {
        let e = &v[i];
        out.push((e.0, e.1.clone()));
        i = i + 1;
    }
    assert(out@.map_values(|p: (usize, Register)| (p.0, p.1@)) =~= v@.map_values(|p: (usize, Register)| (p.0, p.1@)));
    out
}

impl Clone for SsaInstruction {
    fn clone(&self) -> (r: Self)
        ensures
            r@ == self@,
    {
        match self {
            SsaInstruction::Copy { dest, source, source_ref } => SsaInstruction::Copy {
                dest: dest.clone(),
                source: source.clone(),
                source_ref: *source_ref,
            },
            SsaInstruction::Phi { dest, sources } => SsaInstruction::Phi { dest: dest.clone(), sources: clone_phi_sources(sources) },
            SsaInstruction::BinaryOp { dest, op, left, right, source_ref } => SsaInstruction::BinaryOp {
                dest: dest.clone(),
                op: *op,
                left: left.clone(),
                right: right.clone(),
                source_ref: *source_ref,
            },
            SsaInstruction::UnaryOp { dest, op, operand, source_ref } => SsaInstruction::UnaryOp {
                dest: dest.clone(),
                op: *op,
                operand: operand.clone(),
                source_ref: *source_ref,
            },
            SsaInstruction::StorageLoad { dest, var, source_ref } => SsaInstruction::StorageLoad {
                dest: dest.clone(),
                var: var.clone(),
                source_ref: *source_ref,
            },
            SsaInstruction::StorageStore { var, value, source_ref } => SsaInstruction::StorageStore {
                var: var.clone(),
                value: value.clone(),
                source_ref: *source_ref,
            },
            SsaInstruction::Call { dest, target, args, source_ref } => {
                let d = match dest {
                    Some(x) => Some(x.clone()),
                    None => None,
                };
                SsaInstruction::Call { dest: d, target: target.clone(), args: clone_operands(args), source_ref: *source_ref }
            },
            SsaInstruction::Assert { condition, source_ref } => SsaInstruction::Assert {
                condition: condition.clone(),
                source_ref: *source_ref,
            },
            SsaInstruction::Fold { var, source_ref } => SsaInstruction::Fold { var: var.clone(), source_ref: *source_ref },
            SsaInstruction::Unfold { var, source_ref } => SsaInstruction::Unfold { var: var.clone(), source_ref: *source_ref },
        }
    }
}

impl SsaInstruction {
    /// The register the instruction defines, if any.
    pub fn dest_register(&self) -> (r: Option<&Register>)
        ensures
            opt_reg_view(match r { Some(x) => Some(*x), None => None }) == self@.dest(),
    {
        match self {
            SsaInstruction::Copy { dest, .. } => Some(dest),
            SsaInstruction::Phi { dest, .. } => Some(dest),
            SsaInstruction::BinaryOp { dest, .. } => Some(dest),
            SsaInstruction::UnaryOp { dest, .. } => Some(dest),
            SsaInstruction::StorageLoad { dest, .. } => Some(dest),
            SsaInstruction::Call { dest, .. } => match dest {
                Some(d) => Some(d),
                None => None,
            },
            _ => None,
        }
    }
}

// ---------------------------------------------------------------------------
// Control flow
// ---------------------------------------------------------------------------

/// What a branch carries besides its targets: for a loop head, the loop's
/// invariants and variants; for an `if`, both lists are empty.
#[derive(Debug)]
pub struct BranchMeta {
    pub loop_invariants: Vec<Predicate>,
    pub loop_variants: Vec<RefinementExpr>,
    pub source_ref: SourceRef,
}

#[derive(Debug)]
pub enum Terminator {
    Branch { condition: Operand, then_block: usize, else_block: usize, meta: BranchMeta },
    Jump { target: usize },
    Return { value: Option<Operand> },
    Unreachable,
}

/// A basic block: its instructions, how it ends, and its neighbours.
#[derive(Debug)]
pub struct BasicBlock {
    pub instructions: Vec<SsaInstruction>,
    pub terminator: Terminator,
    pub predecessors: Vec<usize>,
    pub successors: Vec<usize>,
}

/// The control-flow graph of one function in SSA form. Block `i` is
/// `blocks[i]`.
#[derive(Debug)]
pub struct SsaCfg {
    pub function_id: SymbolId,
    pub name: String,
    pub parameters: Vec<SymbolId>,
    pub blocks: Vec<BasicBlock>,
    pub entry: usize,
    pub requires: Vec<Predicate>,
    pub ensures: Vec<Predicate>,
    /// The base type of each temporary.
    pub local_temps: Vec<(SymbolId, BaseType)>,
}

impl SsaCfg {
    /// Every block named by an edge, a branch, a jump or the entry exists.
    pub open spec fn well_formed(&self) -> bool {
        &&& self.entry < self.blocks.len()
        &&& forall|b: int| 0 <= b < self.blocks.len() ==> #[trigger] self.blocks@[b].edges_within(self.blocks.len() as nat)
    }

    /// The base type recorded for a temporary.
    pub fn temp_base_type(&self, symbol: &SymbolId) -> (r: Option<&BaseType>)
        ensures
            match r {
                Some(b) => exists|i: int| 0 <= i < self.local_temps.len() && (#[trigger] self.local_temps@[i]).0@ == symbol@ && self.local_temps@[i].1 == *b,
                None => forall|i: int| 0 <= i < self.local_temps.len() ==> (#[trigger] self.local_temps@[i]).0@ != symbol@,
            },
    {
        let mut i: usize = 0;
        while i < self.local_temps.len()
            invariant
                i <= self.local_temps.len(),
                forall|j: int| 0 <= j < i ==> (#[trigger] self.local_temps@[j]).0@ != symbol@,
            decreases self.local_temps.len() - i,
        {
            if symbol_eq(&self.local_temps[i].0, symbol) {
                return Some(&self.local_temps[i].1);
            }
            i = i + 1;
        }
        None
    }
}

impl BasicBlock {
    pub open spec fn edges_within(&self, n: nat) -> bool {
        &&& forall|i: int| 0 <= i < self.predecessors.len() ==> #[trigger] self.predecessors@[i] < n
        &&& forall|i: int| 0 <= i < self.successors.len() ==> #[trigger] self.successors@[i] < n
        &&& match self.terminator {
            Terminator::Branch { then_block, else_block, .. } => then_block < n && else_block < n,
            Terminator::Jump { target } => target < n,
            _ => true,
        }
    }
}

/// A state variable or constant of a contract: its symbol and the node that
/// declared it.
#[derive(Debug)]
pub struct StorageDecl {
    pub symbol: SymbolId,
    pub id: crate::ast::node_id::NodeId,
}

/// A contract in SSA form.
#[derive(Debug)]
pub struct SsaContract {
    pub name: String,
    pub variables: Vec<StorageDecl>,
    pub constants: Vec<StorageDecl>,
    pub functions: Vec<SsaCfg>,
}

} // verus!
