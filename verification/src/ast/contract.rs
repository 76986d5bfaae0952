use vstd::prelude::*;

use indexmap::IndexMap;

use crate::ast::meta::SourceRef;
use crate::ast::node_id::NodeId;
use crate::ast::function::{function_text, Function};
use crate::ast::expression::expression_text;
use crate::ast::statement::{block_text, storage_text, Block, StateConst, StateVar};
use crate::names::{join_comma, join_strings, texts_view};
use vstd::string::StringExecFns;
use crate::ast::types::{type_text, Type, TypeV};

verus! {

#[verifier::external_type_specification]
#[verifier::external_body]
#[verifier::reject_recursive_types(K)]
#[verifier::reject_recursive_types(V)]
#[verifier::reject_recursive_types(S)]
pub struct ExIndexMap<K, V, S>(IndexMap<K, V, S>);

/// The files of a program, keyed by contract name, in the order they were
/// added.
pub struct Program {
    pub files: IndexMap<String, File>,
}

/// The entries of a program's file map, in insertion order: each contract's
/// name with its file.
pub uninterp spec fn file_entries(m: IndexMap<String, File>) -> Seq<(Seq<char>, File)>;

/// `IndexMap::len`: the number of entries.
#[verifier::external_body]
pub(crate) fn file_count(m: &IndexMap<String, File>) -> (r: usize)
    ensures
        r == file_entries(*m).len(),
{
    m.len()
}

/// `IndexMap::get_index`: the entry at a position in insertion order, if the
/// position is below the number of entries.
#[verifier::external_body]
pub(crate) fn file_at(m: &IndexMap<String, File>, i: usize) -> (r: Option<(&String, &File)>)
    ensures
        i < file_entries(*m).len() ==> r is Some && (r->0).0@ == file_entries(*m)[i as int].0 && *(r->0).1
            == file_entries(*m)[i as int].1,
        i >= file_entries(*m).len() ==> r is None,
{
    m.get_index(i)
}

/// `import Name from path [as Alias];`
#[derive(Debug)]
pub struct Import {
    /// The name of the imported contract.
    pub contract_name: String,
    /// The path as written: relative, or a bare module name.
    pub file_path: String,
    pub alias: Option<String>,
    pub id: NodeId,
    pub source_ref: SourceRef,
}

/// An interface: the signatures a contract of that kind offers.
#[derive(Debug)]
pub struct InterfaceDecl {
    pub name: String,
    pub functions: Vec<InterfaceFunctionSig>,
    pub id: NodeId,
    pub source_ref: SourceRef,
}

/// One function signature of an interface.
#[derive(Debug)]
pub struct InterfaceFunctionSig {
    pub name: String,
    pub params: Vec<Param>,
    pub return_type: Option<Type>,
    pub id: NodeId,
    pub source_ref: SourceRef,
}

/// A parameter of a function, constructor or interface function.
#[derive(Debug)]
pub struct Param {
    pub name: String,
    pub ty: Type,
    pub id: NodeId,
    pub source_ref: SourceRef,
}

pub struct ParamV {
    pub name: Seq<char>,
    pub ty: TypeV,
    pub id: NodeId,
    pub source_ref: SourceRef,
}

impl View for Param {
    type V = ParamV;

    open spec fn view(&self) -> ParamV {
        ParamV { name: self.name@, ty: self.ty@, id: self.id, source_ref: self.source_ref }
    }
}

impl Clone for Param {
    fn clone(&self) -> (r: Self)
        ensures
            r@ == self@,
    {
        Param { name: self.name.clone(), ty: self.ty.clone(), id: self.id, source_ref: self.source_ref }
    }
}

/// An element-by-element copy of a parameter list.
pub fn clone_params(v: &Vec<Param>) -> (r: Vec<Param>)
    ensures
        r@.map_values(|p: Param| p@) == v@.map_values(|p: Param| p@),
{
    let mut out: Vec<Param> = Vec::new();
    let mut i: usize = 0;
    while i < v.len()
        invariant
            i <= v.len(),
            out.len() == i,
            forall|j: int| 0 <= j < i ==> (#[trigger] out@[j])@ == v@[j]@,
        decreases v.len() - i,
    {
        out.push(v[i].clone());
        i = i + 1;
    }
    assert(out@.map_values(|p: Param| p@) =~= v@.map_values(|p: Param| p@));
    out
}

impl Param {
    pub fn id(&self) -> (r: NodeId)
        ensures
            r == self.id,
    {
        self.id
    }
}

/// One source file: its imports, interfaces and contract.
#[derive(Debug)]
pub struct File {
    pub imports: Vec<Import>,
    pub interfaces: Vec<InterfaceDecl>,
    pub contract: Contract,
}

/// A contract: its storage, constructor and functions.
#[derive(Debug)]
pub struct Contract {
    pub name: String,
    pub id: NodeId,
    pub variables: Vec<StateVar>,
    pub constants: Vec<StateConst>,
    pub constructor: Option<Constructor>,
    pub functions: Vec<Function>,
    pub source_ref: SourceRef,
}

/// `constructor(params) { body }`
#[derive(Debug)]
pub struct Constructor {
    pub params: Vec<Param>,
    pub body: Block,
    pub id: NodeId,
    pub source_ref: SourceRef,
}

impl Constructor {
    pub fn id(&self) -> (r: NodeId)
        ensures
            r == self.id,
    {
        self.id
    }
}

/// `name: T`
pub open spec fn param_text(p: Param) -> Seq<char> {
    p.name@ + seq![':', ' '] + type_text(p.ty@)
}

impl Param {
    pub fn to_string(&self) -> (r: String)
        ensures
            r@ == param_text(*self),
    {
        proof {
            reveal_strlit(": ");
            assert(": "@ =~= seq![':', ' ']);
        }
        self.name.clone().concat(": ").concat(self.ty.to_string().as_str())
    }
}

/// The parameters written one after the other, separated by `, `.
pub fn params_string(params: &Vec<Param>) -> (r: String)
    ensures
        r@ == join_comma(Seq::new(params@.len(), |i: int| param_text(params@[i]))),
{
    let mut parts: Vec<String> = Vec::new();
    let mut i: usize = 0;
    while i < params.len()
        invariant
            i <= params.len(),
            parts.len() == i,
            forall|j: int| 0 <= j < i ==> (#[trigger] parts@[j])@ == param_text(params@[j]),
        decreases params.len() - i,
    {
        parts.push(params[i].to_string());
        i = i + 1;
    }
    proof {
        assert(texts_view(parts@) =~= Seq::new(params@.len(), |i: int| param_text(params@[i])));
    }
    join_strings(&parts)
}

/// `import C from path [as A];`
pub open spec fn import_text(i: Import) -> Seq<char> {
    seq!['i', 'm', 'p', 'o', 'r', 't', ' '] + i.contract_name@ + seq![' ', 'f', 'r', 'o', 'm', ' '] + i.file_path@ + match i.alias {
        Some(a) => seq![' ', 'a', 's', ' '] + a@,
        None => Seq::empty(),
    } + seq![';']
}

impl Import {
    pub fn to_string(&self) -> (r: String)
        ensures
            r@ == import_text(*self),
    {
        proof {
            reveal_strlit("import ");
            reveal_strlit(" from ");
            reveal_strlit(" as ");
            reveal_strlit(";");
            assert("import "@ =~= seq!['i', 'm', 'p', 'o', 'r', 't', ' ']);
            assert(" from "@ =~= seq![' ', 'f', 'r', 'o', 'm', ' ']);
            assert(" as "@ =~= seq![' ', 'a', 's', ' ']);
            assert(";"@ =~= seq![';']);
        }
        let mut out = String::from_str("import ").concat(self.contract_name.as_str()).concat(" from ").concat(self.file_path.as_str());
        match &self.alias {
            Some(a) => {
                out = out.concat(" as ").concat(a.as_str());
            },
            None => {},
        }
        let out = out.concat(";");
        assert(out@ =~= import_text(*self));
        out
    }
}

/// `constructor(params) {` and the body's lines, then `    }`.
pub open spec fn constructor_text(c: Constructor) -> Seq<char> {
    seq!['c', 'o', 'n', 's', 't', 'r', 'u', 'c', 't', 'o', 'r', '('] + join_comma(Seq::new(c.params@.len(), |i: int| param_text(c.params@[i])))
        + seq![')', ' ', '{', '\n'] + block_text(c.body.statements@) + seq![' ', ' ', ' ', ' ', '}']
}

impl Constructor {
    pub fn to_string(&self) -> (r: String)
        ensures
            r@ == constructor_text(*self),
    {
        proof {
            reveal_strlit("constructor(");
            reveal_strlit(") {\n");
            reveal_strlit("    }");
            assert("constructor("@ =~= seq!['c', 'o', 'n', 's', 't', 'r', 'u', 'c', 't', 'o', 'r', '(']);
            assert(") {\n"@ =~= seq![')', ' ', '{', '\n']);
            assert("    }"@ =~= seq![' ', ' ', ' ', ' ', '}']);
        }
        let out = String::from_str("constructor(").concat(params_string(&self.params).as_str()).concat(") {\n").concat(
            self.body.to_string().as_str(),
        ).concat("    }");
        assert(out@ =~= constructor_text(*self));
        out
    }
}

/// Each text on a line of its own, indented, each after an empty line when
/// `spaced`.
pub open spec fn member_lines(texts: Seq<Seq<char>>, spaced: bool) -> Seq<char>
    decreases texts.len(),
{
    if texts.len() == 0 {
        Seq::empty()
    } else {
        member_lines(texts.drop_last(), spaced) + (if spaced { seq!['\n'] } else { Seq::empty() }) + seq![' ', ' ', ' ', ' ']
            + texts.last() + seq!['\n']
    }
}

/// How a contract is written.
pub open spec fn contract_text(c: Contract) -> Seq<char> {
    seq!['c', 'o', 'n', 't', 'r', 'a', 'c', 't', ' '] + c.name@ + seq![' ', '{', '\n'] + member_lines(
        Seq::new(c.variables@.len(), |i: int| storage_text(true, c.variables@[i].name@, c.variables@[i].ty@, expression_text(c.variables@[i].expr@))),
        false,
    ) + member_lines(
        Seq::new(c.constants@.len(), |i: int| storage_text(false, c.constants@[i].name@, c.constants@[i].ty@, expression_text(c.constants@[i].expr@))),
        false,
    ) + match c.constructor {
        Some(k) => member_lines(seq![constructor_text(k)], true),
        None => Seq::empty(),
    } + member_lines(Seq::new(c.functions@.len(), |i: int| function_text(c.functions@[i])), true) + seq!['}', '\n']
}

fn member_lines_string(texts: &Vec<String>, spaced: bool) -> (r: String)
    ensures
        r@ == member_lines(texts_view(texts@), spaced),
{
    proof {
        reveal_strlit("\n");
        reveal_strlit("    ");
        assert("\n"@ =~= seq!['\n']);
        assert("    "@ =~= seq![' ', ' ', ' ', ' ']);
        assert(texts_view(texts@).take(0) =~= Seq::<Seq<char>>::empty());
    }
    let mut out = String::new();
    let mut i: usize = 0;
    while i < texts.len()
        invariant
            i <= texts.len(),
            "\n"@ == seq!['\n'],
            "    "@ == seq![' ', ' ', ' ', ' '],
            out@ == member_lines(texts_view(texts@).take(i as int), spaced),
        decreases texts.len() - i,
    {
        proof {
            assert(texts_view(texts@).take(i + 1).drop_last() =~= texts_view(texts@).take(i as int));
        }
        if spaced {
            out.append("\n");
        }
        out.append("    ");
        out.append(texts[i].as_str());
        out.append("\n");
        i = i + 1;
    }
    proof {
        assert(texts_view(texts@).take(texts.len() as int) =~= texts_view(texts@));
    }
    out
}

impl Contract {
    pub fn to_string(&self) -> (r: String)
        ensures
            r@ == contract_text(*self),
    {
        proof {
            reveal_strlit("contract ");
            reveal_strlit(" {\n");
            reveal_strlit("}\n");
            assert("contract "@ =~= seq!['c', 'o', 'n', 't', 'r', 'a', 'c', 't', ' ']);
            assert(" {\n"@ =~= seq![' ', '{', '\n']);
            assert("}\n"@ =~= seq!['}', '\n']);
        }
        let mut vars: Vec<String> = Vec::new();
        let mut i: usize = 0;
        while i < self.variables.len()
            invariant
                i <= self.variables.len(),
                vars.len() == i,
                forall|j: int| 0 <= j < i ==> (#[trigger] vars@[j])@ == storage_text(
                    true,
                    self.variables@[j].name@,
                    self.variables@[j].ty@,
                    expression_text(self.variables@[j].expr@),
                ),
            decreases self.variables.len() - i,
        {
            vars.push(self.variables[i].to_string());
            i = i + 1;
        }
        let mut consts: Vec<String> = Vec::new();
        let mut i: usize = 0;
        while i < self.constants.len()
            invariant
                i <= self.constants.len(),
                consts.len() == i,
                forall|j: int| 0 <= j < i ==> (#[trigger] consts@[j])@ == storage_text(
                    false,
                    self.constants@[j].name@,
                    self.constants@[j].ty@,
                    expression_text(self.constants@[j].expr@),
                ),
            decreases self.constants.len() - i,
        {
            consts.push(self.constants[i].to_string());
            i = i + 1;
        }
        let mut funcs: Vec<String> = Vec::new();
        let mut i: usize = 0;
        while i < self.functions.len()
            invariant
                i <= self.functions.len(),
                funcs.len() == i,
                forall|j: int| 0 <= j < i ==> (#[trigger] funcs@[j])@ == function_text(self.functions@[j]),
            decreases self.functions.len() - i,
        {
            funcs.push(self.functions[i].to_string());
            i = i + 1;
        }
        let mut ctor: Vec<String> = Vec::new();
        match &self.constructor {
            Some(k) => ctor.push(k.to_string()),
            None => {},
        }
        proof {
            assert(texts_view(vars@) =~= Seq::new(self.variables@.len(), |i: int| storage_text(true, self.variables@[i].name@, self.variables@[i].ty@, expression_text(self.variables@[i].expr@))));
            assert(texts_view(consts@) =~= Seq::new(self.constants@.len(), |i: int| storage_text(false, self.constants@[i].name@, self.constants@[i].ty@, expression_text(self.constants@[i].expr@))));
            assert(texts_view(funcs@) =~= Seq::new(self.functions@.len(), |i: int| function_text(self.functions@[i])));
            if self.constructor is Some {
                assert(texts_view(ctor@) =~= seq![constructor_text(self.constructor->0)]);
            } else {
                assert(texts_view(ctor@) =~= Seq::<Seq<char>>::empty());
            }
        }
        let out = String::from_str("contract ").concat(self.name.as_str()).concat(" {\n").concat(member_lines_string(&vars, false).as_str()).concat(
            member_lines_string(&consts, false).as_str(),
        ).concat(member_lines_string(&ctor, true).as_str()).concat(member_lines_string(&funcs, true).as_str()).concat("}\n");
        assert(out@ =~= contract_text(*self));
        out
    }
}

/// How a file is written: its imports, each on a line, an empty line after
/// them if there are any, then its contract and a newline.
pub open spec fn file_text(f: File) -> Seq<char> {
    imports_text(f.imports@) + (if f.imports@.len() > 0 { seq!['\n'] } else { Seq::empty() }) + contract_text(f.contract) + seq!['\n']
}

pub open spec fn imports_text(imports: Seq<Import>) -> Seq<char>
    decreases imports.len(),
{
    if imports.len() == 0 {
        Seq::empty()
    } else {
        imports_text(imports.drop_last()) + import_text(imports.last()) + seq!['\n']
    }
}

impl File {
    pub fn to_string(&self) -> (r: String)
        ensures
            r@ == file_text(*self),
    {
        proof {
            reveal_strlit("\n");
            assert("\n"@ =~= seq!['\n']);
            assert(self.imports@.take(0) =~= Seq::<Import>::empty());
        }
        let mut out = String::new();
        let mut i: usize = 0;
        while i < self.imports.len()
            invariant
                i <= self.imports.len(),
                "\n"@ == seq!['\n'],
                out@ == imports_text(self.imports@.take(i as int)),
            decreases self.imports.len() - i,
        {
            proof {
                assert(self.imports@.take(i + 1).drop_last() =~= self.imports@.take(i as int));
            }
            out.append(self.imports[i].to_string().as_str());
            out.append("\n");
            i = i + 1;
        }
        proof {
            assert(self.imports@.take(self.imports.len() as int) =~= self.imports@);
        }
        if self.imports.len() > 0 {
            out.append("\n");
        }
        out.append(self.contract.to_string().as_str());
        out.append("\n");
        assert(out@ =~= file_text(*self));
        out
    }
}

} // verus!
