use vstd::prelude::*;

use crate::ast::contract::{param_text, params_string, Param};
use crate::ast::meta::SourceRef;
use crate::ast::node_id::NodeId;
use crate::ast::predicate::{pred_text, Predicate};
use crate::ast::statement::{block_text, Block};
use crate::ast::types::{type_text, Type};
use crate::names::{join_comma, join_strings, texts_view};
use vstd::string::StringExecFns;

verus! {

/// Who may call a function.
#[derive(Debug, Clone, Copy, PartialEq, Eq, Structural)]
pub enum Visibility {
    Internal,
    External,
    Entrypoint,
}

/// A modifier written on a function.
#[derive(Debug, Clone, Copy, PartialEq, Eq, Hash, Structural)]
pub enum Modifier {
    Payable,
    Guarded,
    Reentrant,
    Checked,
}

/// A function, external function or entrypoint of a contract.
#[derive(Debug)]
pub struct Function {
    pub visibility: Visibility,
    pub payable: bool,
    pub modifiers: Vec<Modifier>,
    pub name: String,
    pub params: Vec<Param>,
    pub return_type: Option<Type>,
    pub requires: Vec<Predicate>,
    pub ensures: Vec<Predicate>,
    pub body: Block,
    pub id: NodeId,
    pub source_ref: SourceRef,
}

impl Function {
    pub fn id(&self) -> (r: NodeId)
        ensures
            r == self.id,
    {
        self.id
    }
}

pub open spec fn visibility_text(v: Visibility) -> Seq<char> {
    match v {
        Visibility::Internal => seq!['i', 'n', 't', 'e', 'r', 'n', 'a', 'l', ' ', 'f', 'u', 'n', 'c', 't', 'i', 'o', 'n'],
        Visibility::External => seq!['e', 'x', 't', 'e', 'r', 'n', 'a', 'l', ' ', 'f', 'u', 'n', 'c', 't', 'i', 'o', 'n'],
        Visibility::Entrypoint => seq!['e', 'n', 't', 'r', 'y', 'p', 'o', 'i', 'n', 't'],
    }
}

/// How a modifier is written after the parameters (`checked` is not written).
pub open spec fn modifier_text(m: Modifier) -> Seq<char> {
    match m {
        Modifier::Payable => seq![' ', 'p', 'a', 'y', 'a', 'b', 'l', 'e'],
        Modifier::Guarded => seq![' ', 'g', 'u', 'a', 'r', 'd', 'e', 'd'],
        Modifier::Reentrant => seq![' ', 'r', 'e', 'e', 'n', 't', 'r', 'a', 'n', 't'],
        Modifier::Checked => Seq::empty(),
    }
}

pub open spec fn modifiers_text(ms: Seq<Modifier>) -> Seq<char>
    decreases ms.len(),
{
    if ms.len() == 0 {
        Seq::empty()
    } else {
        modifiers_text(ms.drop_last()) + modifier_text(ms.last())
    }
}

/// ` keyword {p1, p2}` for a non-empty clause list, nothing for an empty one.
pub open spec fn clause_text(keyword: Seq<char>, preds: Seq<Predicate>) -> Seq<char> {
    if preds.len() == 0 {
        Seq::empty()
    } else {
        seq![' '] + keyword + seq![' ', '{'] + join_comma(Seq::new(preds.len(), |i: int| pred_text(preds[i]@))) + seq!['}']
    }
}

/// How a function is written.
pub open spec fn function_text(f: Function) -> Seq<char> {
    visibility_text(f.visibility) + seq![' '] + f.name@ + seq!['('] + join_comma(Seq::new(f.params@.len(), |i: int| param_text(f.params@[i])))
        + seq![')'] + modifiers_text(f.modifiers@) + match f.return_type {
        Some(t) => seq![' ', '-', '>', ' '] + type_text(t@),
        None => Seq::empty(),
    } + clause_text(seq!['r', 'e', 'q', 'u', 'i', 'r', 'e', 's'], f.requires@) + clause_text(
        seq!['e', 'n', 's', 'u', 'r', 'e', 's'],
        f.ensures@,
    ) + seq![' ', '{', '\n'] + block_text(f.body.statements@) + seq!['\n', '}']
}

fn clause_string(keyword: &str, preds: &Vec<Predicate>) -> (r: String)
    ensures
        r@ == clause_text(keyword@, preds@),
{
    proof {
        reveal_strlit(" ");
        reveal_strlit(" {");
        reveal_strlit("}");
        assert(" "@ =~= seq![' ']);
        assert(" {"@ =~= seq![' ', '{']);
        assert("}"@ =~= seq!['}']);
    }
    if preds.len() == 0 {
        return String::new();
    }
    let mut parts: Vec<String> = Vec::new();
    let mut i: usize = 0;
    while i < preds.len()
        invariant
            i <= preds.len(),
            parts.len() == i,
            forall|j: int| 0 <= j < i ==> (#[trigger] parts@[j])@ == pred_text(preds@[j]@),
        decreases preds.len() - i,
    {
        parts.push(preds[i].to_string());
        i = i + 1;
    }
    proof {
        assert(texts_view(parts@) =~= Seq::new(preds@.len(), |i: int| pred_text(preds@[i]@)));
    }
    let out = String::from_str(" ").concat(keyword).concat(" {").concat(join_strings(&parts).as_str()).concat("}");
    assert(out@ =~= clause_text(keyword@, preds@));
    out
}

impl Function {
    /// How the function is written.
    pub fn to_string(&self) -> (r: String)
        ensures
            r@ == function_text(*self),
    {
        proof {
            reveal_strlit("internal function");
            reveal_strlit("external function");
            reveal_strlit("entrypoint");
            reveal_strlit(" ");
            reveal_strlit("(");
            reveal_strlit(")");
            reveal_strlit(" payable");
            reveal_strlit(" guarded");
            reveal_strlit(" reentrant");
            reveal_strlit(" -> ");
            reveal_strlit("requires");
            reveal_strlit("ensures");
            reveal_strlit(" {\n");
            reveal_strlit("\n}");
            assert(" "@ =~= seq![' ']);
            assert("("@ =~= seq!['(']);
            assert(")"@ =~= seq![')']);
            assert(" -> "@ =~= seq![' ', '-', '>', ' ']);
            assert("requires"@ =~= seq!['r', 'e', 'q', 'u', 'i', 'r', 'e', 's']);
            assert("ensures"@ =~= seq!['e', 'n', 's', 'u', 'r', 'e', 's']);
            assert(" {\n"@ =~= seq![' ', '{', '\n']);
            assert("\n}"@ =~= seq!['\n', '}']);
        }
        let mut out = match self.visibility {
            Visibility::Internal => String::from_str("internal function"),
            Visibility::External => String::from_str("external function"),
            Visibility::Entrypoint => String::from_str("entrypoint"),
        };
        assert(out@ =~= visibility_text(self.visibility));
        out = out.concat(" ").concat(self.name.as_str()).concat("(").concat(params_string(&self.params).as_str()).concat(")");
        let ghost head = out@;
        let mut i: usize = 0;
        proof {
            assert(self.modifiers@.take(0) =~= Seq::<Modifier>::empty());
        }
        while i < self.modifiers.len()
            invariant
                i <= self.modifiers.len(),
                out@ == head + modifiers_text(self.modifiers@.take(i as int)),
            decreases self.modifiers.len() - i,
        {
            proof {
                assert(self.modifiers@.take(i + 1).drop_last() =~= self.modifiers@.take(i as int));
                reveal_strlit(" payable");
                reveal_strlit(" guarded");
                reveal_strlit(" reentrant");
            }
            let m = match self.modifiers[i] {
                Modifier::Payable => String::from_str(" payable"),
                Modifier::Guarded => String::from_str(" guarded"),
                Modifier::Reentrant => String::from_str(" reentrant"),
                Modifier::Checked => String::new(),
            };
            assert(m@ =~= modifier_text(self.modifiers@[i as int]));
            out = out.concat(m.as_str());
            i = i + 1;
        }
        proof {
            assert(self.modifiers@.take(self.modifiers.len() as int) =~= self.modifiers@);
        }
        match &self.return_type {
            Some(t) => {
                out = out.concat(" -> ").concat(t.to_string().as_str());
            },
            None => {},
        }
        out = out.concat(clause_string("requires", &self.requires).as_str());
        out = out.concat(clause_string("ensures", &self.ensures).as_str());
        out = out.concat(" {\n").concat(self.body.to_string().as_str()).concat("\n}");
        assert(out@ =~= function_text(*self));
        out
    }
}

} // verus!
