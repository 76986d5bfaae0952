use vstd::prelude::*;

use crate::ast::meta::SourceRef;
use crate::ast::node_id::NodeId;
use crate::ast::predicate::{Predicate, PredV, pred_eq, pred_text};
use crate::names::join_comma;
use vstd::string::StringExecFns;

verus! {

/// A refined type `{binder: base | constraint}`.
#[derive(Debug, Eq, Hash)]
pub struct Type {
    pub base: BaseType,
    pub binder: String,
    pub constraint: Predicate,
    /// Whether the type was written in the source (as opposed to inferred).
    pub explicit_annotation: bool,
    pub source_ref: SourceRef,
}

#[derive(Debug, PartialEq, Eq, Hash)]
pub enum BaseType {
    Int,
    Address,
    Bool,
    String,
    Tuple { elems: Vec<Type> },
    Function { name: String, parameters: Vec<Type>, return_type: Box<Type> },
    Contract(String),
}

pub struct TypeV {
    pub base: BaseTypeV,
    pub binder: Seq<char>,
    pub constraint: PredV,
    pub explicit_annotation: bool,
    pub source_ref: SourceRef,
}

pub enum BaseTypeV {
    Int,
    Address,
    Bool,
    String,
    Tuple(Seq<TypeV>),
    Function(Seq<char>, Seq<TypeV>, Box<TypeV>),
    Contract(Seq<char>),
}

pub open spec fn filler_type() -> TypeV {
    TypeV {
        base: BaseTypeV::Int,
        binder: Seq::empty(),
        constraint: PredV::True(NodeId(0), SourceRef { start: 0, end: 0 }),
        explicit_annotation: false,
        source_ref: SourceRef { start: 0, end: 0 },
    }
}

pub open spec fn type_view(t: Type) -> TypeV
    decreases t,
{
    TypeV {
        base: base_view(t.base),
        binder: t.binder@,
        constraint: t.constraint@,
        explicit_annotation: t.explicit_annotation,
        source_ref: t.source_ref,
    }
}

pub open spec fn base_view(b: BaseType) -> BaseTypeV
    decreases b,
{
    match b {
        BaseType::Int => BaseTypeV::Int,
        BaseType::Address => BaseTypeV::Address,
        BaseType::Bool => BaseTypeV::Bool,
        BaseType::String => BaseTypeV::String,
        BaseType::Tuple { elems } => BaseTypeV::Tuple(
            Seq::new(elems.len() as nat, |i: int| if 0 <= i < elems.len() { type_view(elems@[i]) } else { filler_type() }),
        ),
        BaseType::Function { name, parameters, return_type } => BaseTypeV::Function(
            name@,
            Seq::new(parameters.len() as nat, |i: int| if 0 <= i < parameters.len() { type_view(parameters@[i]) } else { filler_type() }),
            Box::new(type_view(*return_type)),
        ),
        BaseType::Contract(n) => BaseTypeV::Contract(n@),
    }
}

impl View for Type {
    type V = TypeV;

    open spec fn view(&self) -> TypeV {
        type_view(*self)
    }
}

impl View for BaseType {
    type V = BaseTypeV;

    open spec fn view(&self) -> BaseTypeV {
        base_view(*self)
    }
}

/// A type is the same as another when base and refinement agree; binder,
/// origin and position do not take part.
impl PartialEq for Type {
    fn eq(&self, other: &Self) -> (r: bool) {
        type_eq(self, other)
    }
}

impl vstd::std_specs::cmp::PartialEqSpecImpl for Type {
    open spec fn obeys_eq_spec() -> bool {
        true
    }

    open spec fn eq_spec(&self, other: &Type) -> bool {
        self@.base == other@.base && self@.constraint == other@.constraint
    }
}

pub fn type_eq(a: &Type, b: &Type) -> (r: bool)
    ensures
        r == (a@.base == b@.base && a@.constraint == b@.constraint),
{
    base_type_eq(&a.base, &b.base) && pred_eq(&a.constraint, &b.constraint)
}

/// Full structural equality of two types (all fields).
#[verifier::loop_isolation(false)]
pub fn type_identical(a: &Type, b: &Type) -> (r: bool)
    ensures
        r == (a@ == b@),
    decreases *a,
{
    base_type_eq(&a.base, &b.base) && pred_eq(&a.constraint, &b.constraint) && a.binder == b.binder
        && a.explicit_annotation == b.explicit_annotation && a.source_ref.start == b.source_ref.start
        && a.source_ref.end == b.source_ref.end
}

fn types_identical(a: &Vec<Type>, b: &Vec<Type>) -> (r: bool)
    ensures
        r == (a.len() == b.len() && forall|j: int| 0 <= j < a.len() ==> (#[trigger] a@[j])@ == b@[j]@),
    decreases a,
{
    if a.len() != b.len() {
        return false;
    }
    let mut i: usize = 0;
    while i < a.len()
        invariant
            i <= a.len(),
            a.len() == b.len(),
            forall|j: int| 0 <= j < i ==> (#[trigger] a@[j])@ == b@[j]@,
        decreases a.len() - i,
    {
        proof {
            broadcast use vstd::std_specs::vec::group_vec_axioms;
            assert(decreases_to!(*a => a[i as int]));
        }
        if !type_identical(&a[i], &b[i]) {
            return false;
        }
        i = i + 1;
    }
    true
}

/// Structural equality of base types.
pub fn base_type_eq(a: &BaseType, b: &BaseType) -> (r: bool)
    ensures
        r == (a@ == b@),
    decreases *a,
{
    match (a, b) {
        (BaseType::Int, BaseType::Int) => true,
        (BaseType::Address, BaseType::Address) => true,
        (BaseType::Bool, BaseType::Bool) => true,
        (BaseType::String, BaseType::String) => true,
        (BaseType::Contract(x), BaseType::Contract(y)) => *x == *y,
        (BaseType::Tuple { elems: e1 }, BaseType::Tuple { elems: e2 }) => {
            let r = types_identical(e1, e2);
            proof {
                if r {
                    assert(a@->Tuple_0 =~= b@->Tuple_0);
                } else if e1.len() == e2.len() {
                    let j = choose|j: int| 0 <= j < e1.len() && !((#[trigger] e1@[j])@ == e2@[j]@);
                    assert(a@->Tuple_0[j] != b@->Tuple_0[j]);
                } else {
                    assert(a@->Tuple_0.len() != b@->Tuple_0.len());
                }
            }
            r
        },
        (BaseType::Function { name: n1, parameters: p1, return_type: r1 }, BaseType::Function { name: n2, parameters: p2, return_type: r2 }) => {
            if !(*n1 == *n2) {
                return false;
            }
            let ps = types_identical(p1, p2);
            proof {
                if ps {
                    assert(a@->Function_1 =~= b@->Function_1);
                } else if p1.len() == p2.len() {
                    let j = choose|j: int| 0 <= j < p1.len() && !((#[trigger] p1@[j])@ == p2@[j]@);
                    assert(a@->Function_1[j] != b@->Function_1[j]);
                } else {
                    assert(a@->Function_1.len() != b@->Function_1.len());
                }
            }
            ps && type_identical(r1, r2)
        },
        _ => false,
    }
}

impl Clone for BaseType {
    fn clone(&self) -> (r: Self)
        ensures
            r@ == self@,
        decreases *self,
    {
        match self {
            BaseType::Int => BaseType::Int,
            BaseType::Address => BaseType::Address,
            BaseType::Bool => BaseType::Bool,
            BaseType::String => BaseType::String,
            BaseType::Contract(n) => BaseType::Contract(n.clone()),
            BaseType::Tuple { elems } => {
                let out = clone_types(elems);
                let r = BaseType::Tuple { elems: out };
                proof {
                    assert(r@->Tuple_0 =~= self@->Tuple_0);
                }
                r
            },
            BaseType::Function { name, parameters, return_type } => {
                let out = clone_types(parameters);
                let r = BaseType::Function { name: name.clone(), parameters: out, return_type: Box::new((**return_type).clone()) };
                proof {
                    assert(r@->Function_1 =~= self@->Function_1);
                }
                r
            },
        }
    }
}

/// An element-by-element copy of a list of types.
pub fn clone_types(v: &Vec<Type>) -> (r: Vec<Type>)
    ensures
        r.len() == v.len(),
        forall|j: int| 0 <= j < v.len() ==> (#[trigger] r@[j])@ == v@[j]@,
    decreases v,
{
    let mut out: Vec<Type> = Vec::new();
    let mut i: usize = 0;
    while i < v.len()
        invariant
            i <= v.len(),
            out.len() == i,
            forall|j: int| 0 <= j < i ==> (#[trigger] out@[j])@ == v@[j]@,
        decreases v.len() - i,
    {
        proof {
            broadcast use vstd::std_specs::vec::group_vec_axioms;
            assert(decreases_to!(*v => v[i as int]));
        }
        out.push(v[i].clone());
        i = i + 1;
    }
    out
}

impl Clone for Type {
    fn clone(&self) -> (r: Self)
        ensures
            r@ == self@,
        decreases *self,
    {
        Type {
            base: self.base.clone(),
            binder: self.binder.clone(),
            constraint: self.constraint.clone(),
            explicit_annotation: self.explicit_annotation,
            source_ref: self.source_ref,
        }
    }
}

impl Type {
    /// A written type with no refinement (`true`).
    pub fn new(base: BaseType, binder: String) -> (r: Type)
        ensures
            r@.base == base@,
            r@.binder == binder@,
            r@.constraint == (PredV::True(NodeId(0), SourceRef { start: 0, end: 0 })),
            r@.explicit_annotation,
            r@.source_ref == (SourceRef { start: 0, end: 0 }),
    {
        Type {
            base,
            binder,
            constraint: Predicate::True(NodeId::new(0), SourceRef::unknown()),
            explicit_annotation: true,
            source_ref: SourceRef::unknown(),
        }
    }

    pub fn with_binder(&mut self, binder: String)
        ensures
            final(self)@ == (TypeV { binder: binder@, ..old(self)@ }),
    {
        self.binder = binder;
    }

    /// The unit type `()`, unrefined.
    pub fn empty_tuple(binder: String) -> (r: Type)
        ensures
            r@.base == BaseTypeV::Tuple(Seq::empty()),
            r@.binder == binder@,
            r@.constraint == (PredV::True(NodeId(0), SourceRef { start: 0, end: 0 })),
            r@.explicit_annotation,
            r@.source_ref == (SourceRef { start: 0, end: 0 }),
    {
        let r = Type {
            base: BaseType::Tuple { elems: Vec::new() },
            binder: binder.clone(),
            constraint: Predicate::True(NodeId::new(0), SourceRef::unknown()),
            explicit_annotation: true,
            source_ref: SourceRef::unknown(),
        };
        proof {
            assert(r@.base->Tuple_0 =~= Seq::<TypeV>::empty());
        }
        r
    }

    /// Whether the refinement is the literal `true`.
    pub fn is_true_literal(&self) -> (r: bool)
        ensures
            r == (self@.constraint is True),
    {
        match &self.constraint {
            Predicate::True(_, _) => true,
            _ => false,
        }
    }

    /// Whether the type was written in the source.
    pub fn is_explicit_annotation(&self) -> (r: bool)
        ensures
            r == self@.explicit_annotation,
    {
        self.explicit_annotation
    }
}

// ---------------------------------------------------------------------------
// Text
// ---------------------------------------------------------------------------

/// How each type of a list is written.
pub open spec fn type_texts(ts: Seq<TypeV>) -> Seq<Seq<char>>
    decreases ts,
{
    Seq::new(ts.len(), |i: int| if 0 <= i < ts.len() { type_text(ts[i]) } else { Seq::empty() })
}

/// How a base type is written; a contract type by its name.
pub open spec fn base_text(b: BaseTypeV) -> Seq<char>
    decreases b,
{
    match b {
        BaseTypeV::Int => seq!['i', 'n', 't'],
        BaseTypeV::Address => seq!['a', 'd', 'd', 'r', 'e', 's', 's'],
        BaseTypeV::Bool => seq!['b', 'o', 'o', 'l'],
        BaseTypeV::String => seq!['s', 't', 'r', 'i', 'n', 'g'],
        BaseTypeV::Tuple(elems) => seq!['('] + join_comma(type_texts(elems)) + seq![')'],
        BaseTypeV::Function(name, params, ret) => name + seq!['('] + join_comma(type_texts(params)) + seq![' ', '-', '>', ' ']
            + type_text(*ret) + seq![')'],
        BaseTypeV::Contract(n) => n,
    }
}

/// How a type is written: the base alone when unrefined, else
/// `{binder: base | refinement}`.
pub open spec fn type_text(t: TypeV) -> Seq<char>
    decreases t,
{
    if t.constraint is True {
        base_text(t.base)
    } else {
        seq!['{'] + t.binder + seq![':', ' '] + base_text(t.base) + seq![' ', '|', ' '] + pred_text(t.constraint) + seq!['}']
    }
}

#[verifier::loop_isolation(false)]
fn types_text(ts: &Vec<Type>) -> (r: String)
    ensures
        r@ == join_comma(type_texts(Seq::new(ts.len() as nat, |i: int| if 0 <= i < ts.len() { type_view(ts@[i]) } else { filler_type() }))),
    decreases ts, 1nat,
{
    proof {
        reveal_strlit(", ");
        assert(", "@ =~= seq![',', ' ']);
    }
    let ghost texts = type_texts(Seq::new(ts.len() as nat, |i: int| if 0 <= i < ts.len() { type_view(ts@[i]) } else { filler_type() }));
    let mut out = String::new();
    let mut i: usize = 0;
    proof {
        assert(texts.subrange(0, 0) =~= Seq::<Seq<char>>::empty());
    }
    while i < ts.len()
        invariant
            i <= ts.len(),
            out@ == join_comma(texts.subrange(0, i as int)),
        decreases ts.len() - i,
    {
        proof {
            broadcast use vstd::std_specs::vec::group_vec_axioms;
            assert(decreases_to!(*ts => ts[i as int]));
        }
        let t = ts[i].to_string();
        proof {
            assert(texts[i as int] == t@);
        }
        if i > 0 {
            out.append(", ");
        }
        out.append(t.as_str());
        proof {
            let sub = texts.subrange(0, i + 1);
            assert(sub.drop_last() =~= texts.subrange(0, i as int));
            if i == 0 {
                assert(out@ =~= sub[0]);
            }
        }
        i = i + 1;
    }
    proof {
        assert(texts.subrange(0, ts.len() as int) =~= texts);
    }
    out
}

impl BaseType {
    /// How the base type is written.
    pub fn to_string(&self) -> (r: String)
        ensures
            r@ == base_text(self@),
        decreases *self, 0nat,
    {
        proof {
            reveal_strlit("int");
            reveal_strlit("address");
            reveal_strlit("bool");
            reveal_strlit("string");
            reveal_strlit("(");
            reveal_strlit(")");
            reveal_strlit(" -> ");
            assert("int"@ =~= base_text(BaseTypeV::Int));
            assert("address"@ =~= base_text(BaseTypeV::Address));
            assert("bool"@ =~= base_text(BaseTypeV::Bool));
            assert("string"@ =~= base_text(BaseTypeV::String));
            assert("("@ =~= seq!['(']);
            assert(")"@ =~= seq![')']);
            assert(" -> "@ =~= seq![' ', '-', '>', ' ']);
        }
        match self {
            BaseType::Int => String::from_str("int"),
            BaseType::Address => String::from_str("address"),
            BaseType::Bool => String::from_str("bool"),
            BaseType::String => String::from_str("string"),
            BaseType::Tuple { elems } => {
                let inner = types_text(elems);
                proof {
                    assert(self@->Tuple_0 =~= Seq::new(elems.len() as nat, |i: int| if 0 <= i < elems.len() { type_view(elems@[i]) } else { filler_type() }));
                }
                String::from_str("(").concat(inner.as_str()).concat(")")
            },
            BaseType::Function { name, parameters, return_type } => {
                let inner = types_text(parameters);
                let ret = return_type.to_string();
                proof {
                    assert(self@->Function_1 =~= Seq::new(parameters.len() as nat, |i: int| if 0 <= i < parameters.len() { type_view(parameters@[i]) } else { filler_type() }));
                }
                name.clone().concat("(").concat(inner.as_str()).concat(" -> ").concat(ret.as_str()).concat(")")
            },
            BaseType::Contract(n) => n.clone(),
        }
    }
}

impl Type {
    /// How the type is written.
    pub fn to_string(&self) -> (r: String)
        ensures
            r@ == type_text(self@),
        decreases *self, 0nat,
    {
        proof {
            reveal_strlit("{");
            reveal_strlit(": ");
            reveal_strlit(" | ");
            reveal_strlit("}");
            assert("{"@ =~= seq!['{']);
            assert(": "@ =~= seq![':', ' ']);
            assert(" | "@ =~= seq![' ', '|', ' ']);
            assert("}"@ =~= seq!['}']);
        }
        let b = self.base.to_string();
        match &self.constraint {
            Predicate::True(_, _) => b,
            _ => {
                let c = self.constraint.to_string();
                String::from_str("{").concat(self.binder.as_str()).concat(": ").concat(b.as_str()).concat(" | ").concat(c.as_str()).concat("}")
            },
        }
    }
}

} // verus!
