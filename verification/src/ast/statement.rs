use vstd::prelude::*;

use crate::ast::expression::{expression_text, Expression};
use crate::ast::meta::SourceRef;
use crate::ast::node_id::NodeId;
use crate::ast::predicate::{Predicate, RefinementExpr};
use crate::ast::types::{type_text, Type, TypeV};
use vstd::string::StringExecFns;

verus! {

/// A statement of a function, constructor or nested block.
#[derive(Debug)]
pub enum Statement {
    Expression(Expression, NodeId, SourceRef),
    If {
        condition: Expression,
        then_block: Block,
        else_block: Option<Block>,
        id: NodeId,
        source_ref: SourceRef,
    },
    While {
        condition: Expression,
        invariants: Vec<Predicate>,
        variants: Vec<RefinementExpr>,
        body: Block,
        id: NodeId,
        source_ref: SourceRef,
    },
    Return(Option<Expression>, NodeId, SourceRef),
    Assignment { target: String, expr: Expression, id: NodeId, source_ref: SourceRef },
    VarDeclaration { name: String, ty: Option<Type>, expr: Expression, id: NodeId, source_ref: SourceRef },
    ConstDeclaration { name: String, ty: Option<Type>, expr: Expression, id: NodeId, source_ref: SourceRef },
}

pub open spec fn statement_id(s: Statement) -> NodeId {
    match s {
        Statement::Expression(_, id, _) => id,
        Statement::If { id, .. } => id,
        Statement::While { id, .. } => id,
        Statement::Return(_, id, _) => id,
        Statement::Assignment { id, .. } => id,
        Statement::VarDeclaration { id, .. } => id,
        Statement::ConstDeclaration { id, .. } => id,
    }
}

impl Statement {
    pub fn id(&self) -> (r: NodeId)
        ensures
            r == statement_id(*self),
    {
        match self {
            Statement::Expression(_, id, _) => *id,
            Statement::If { id, .. } => *id,
            Statement::While { id, .. } => *id,
            Statement::Return(_, id, _) => *id,
            Statement::Assignment { id, .. } => *id,
            Statement::VarDeclaration { id, .. } => *id,
            Statement::ConstDeclaration { id, .. } => *id,
        }
    }
}

/// `state var name: ty = expr;`
#[derive(Debug)]
pub struct StateVar {
    pub name: String,
    pub ty: Type,
    pub expr: Expression,
    pub id: NodeId,
    pub source_ref: SourceRef,
}

impl StateVar {
    pub fn id(&self) -> (r: NodeId)
        ensures
            r == self.id,
    {
        self.id
    }
}

/// `state const name: ty = expr;`
#[derive(Debug)]
pub struct StateConst {
    pub name: String,
    pub ty: Type,
    pub expr: Expression,
    pub id: NodeId,
    pub source_ref: SourceRef,
}

impl StateConst {
    pub fn id(&self) -> (r: NodeId)
        ensures
            r == self.id,
    {
        self.id
    }
}

/// A sequence of statements.
#[derive(Debug)]
pub struct Block {
    pub statements: Vec<Statement>,
}

impl Block {
    pub fn from_statements(statements: Vec<Statement>) -> (r: Block)
        ensures
            r.statements == statements,
    {
        Block { statements }
    }
}

// ---------------------------------------------------------------------------
// Text
// ---------------------------------------------------------------------------

/// The statements of a nested block, each on a line of its own, indented,
/// with `;` after it.
pub open spec fn body_lines(stmts: Seq<Statement>) -> Seq<char>
    decreases stmts, 1nat,
{
    if stmts.len() == 0 {
        Seq::empty()
    } else {
        body_lines(stmts.drop_last()) + seq![' ', ' ', ' ', ' '] + statement_text(stmts.last()) + seq![';', '\n']
    }
}

/// `: T` for a written type, nothing for none.
pub open spec fn annotation_text(ty: Option<Type>) -> Seq<char> {
    match ty {
        Some(t) => seq![':', ' '] + type_text(t@),
        None => Seq::empty(),
    }
}

/// How a statement is written.
pub open spec fn statement_text(s: Statement) -> Seq<char>
    decreases s, 0nat,
{
    match s {
        Statement::Expression(e, _, _) => expression_text(e@),
        Statement::If { condition, then_block, else_block, .. } => {
            seq!['i', 'f', ' ', '('] + expression_text(condition@) + seq![')', ' ', '{', '\n'] + body_lines(then_block.statements@)
                + seq!['}'] + match else_block {
                Some(b) => seq![' ', 'e', 'l', 's', 'e', ' ', '{', '\n'] + body_lines(b.statements@) + seq!['}'],
                None => Seq::empty(),
            }
        },
        Statement::While { condition, body, .. } => seq!['w', 'h', 'i', 'l', 'e', ' ', '('] + expression_text(condition@) + seq![
            ')',
            ' ',
            '{',
            '\n',
        ] + body_lines(body.statements@) + seq!['}'],
        Statement::Return(Some(e), _, _) => seq!['r', 'e', 't', 'u', 'r', 'n', ' '] + expression_text(e@),
        Statement::Return(None, _, _) => seq!['r', 'e', 't', 'u', 'r', 'n'],
        Statement::Assignment { target, expr, .. } => target@ + seq![' ', '=', ' '] + expression_text(expr@),
        Statement::VarDeclaration { name, ty, expr, .. } => seq!['v', 'a', 'r', ' '] + name@ + annotation_text(ty) + seq![' ', '=', ' ']
            + expression_text(expr@),
        Statement::ConstDeclaration { name, ty, expr, .. } => seq!['c', 'o', 'n', 's', 't', ' '] + name@ + annotation_text(ty)
            + seq![' ', '=', ' '] + expression_text(expr@),
    }
}

/// How a block is written: each statement on a line of its own, indented,
/// with `;` after it unless it is an `if` or a `while`.
pub open spec fn block_text(stmts: Seq<Statement>) -> Seq<char>
    decreases stmts.len(),
{
    if stmts.len() == 0 {
        Seq::empty()
    } else {
        block_text(stmts.drop_last()) + seq![' ', ' ', ' ', ' '] + statement_text(stmts.last()) + if stmts.last() is If
            || stmts.last() is While {
            seq!['\n']
        } else {
            seq![';', '\n']
        }
    }
}

fn annotation_string(ty: &Option<Type>) -> (r: String)
    ensures
        r@ == annotation_text(*ty),
{
    proof {
        reveal_strlit(": ");
        assert(": "@ =~= seq![':', ' ']);
    }
    match ty {
        Some(t) => String::from_str(": ").concat(t.to_string().as_str()),
        None => String::new(),
    }
}

/// The lines of a nested block.
#[verifier::loop_isolation(false)]
fn body_lines_string(stmts: &Vec<Statement>) -> (r: String)
    ensures
        r@ == body_lines(stmts@),
    decreases stmts, 1nat,
{
    proof {
        reveal_strlit("    ");
        reveal_strlit(";\n");
        assert("    "@ =~= seq![' ', ' ', ' ', ' ']);
        assert(";\n"@ =~= seq![';', '\n']);
        assert(stmts@.take(0) =~= Seq::<Statement>::empty());
    }
    let mut out = String::new();
    let mut i: usize = 0;
    while i < stmts.len()
        invariant
            i <= stmts.len(),
            out@ == body_lines(stmts@.take(i as int)),
        decreases stmts.len() - i,
    {
        proof {
            broadcast use vstd::std_specs::vec::group_vec_axioms;
            assert(decreases_to!(*stmts => stmts[i as int]));
            assert(stmts@.take(i + 1).drop_last() =~= stmts@.take(i as int));
        }
        let line = stmts[i].to_string();
        out.append("    ");
        out.append(line.as_str());
        out.append(";\n");
        i = i + 1;
    }
    proof {
        assert(stmts@.take(stmts.len() as int) =~= stmts@);
    }
    out
}

impl Statement {
    /// How the statement is written.
    #[verifier::loop_isolation(false)]
    pub fn to_string(&self) -> (r: String)
        ensures
            r@ == statement_text(*self),
        decreases *self, 0nat,
    {
        proof {
            reveal_strlit("if (");
            reveal_strlit(") {\n");
            reveal_strlit("}");
            reveal_strlit(" else {\n");
            reveal_strlit("while (");
            reveal_strlit("return ");
            reveal_strlit("return");
            reveal_strlit(" = ");
            reveal_strlit("var ");
            reveal_strlit("const ");
            assert("if ("@ =~= seq!['i', 'f', ' ', '(']);
            assert(") {\n"@ =~= seq![')', ' ', '{', '\n']);
            assert("}"@ =~= seq!['}']);
            assert(" else {\n"@ =~= seq![' ', 'e', 'l', 's', 'e', ' ', '{', '\n']);
            assert("while ("@ =~= seq!['w', 'h', 'i', 'l', 'e', ' ', '(']);
            assert("return "@ =~= seq!['r', 'e', 't', 'u', 'r', 'n', ' ']);
            assert("return"@ =~= seq!['r', 'e', 't', 'u', 'r', 'n']);
            assert(" = "@ =~= seq![' ', '=', ' ']);
            assert("var "@ =~= seq!['v', 'a', 'r', ' ']);
            assert("const "@ =~= seq!['c', 'o', 'n', 's', 't', ' ']);
        }
        match self {
            Statement::Expression(e, _, _) => e.to_string(),
            Statement::If { condition, then_block, else_block, .. } => {
                let c = condition.to_string();
                let t = body_lines_string(&then_block.statements);
                let mut out = String::from_str("if (").concat(c.as_str()).concat(") {\n").concat(t.as_str()).concat("}");
                match else_block {
                    Some(b) => {
                        let e = body_lines_string(&b.statements);
                        out = out.concat(" else {\n").concat(e.as_str()).concat("}");
                    },
                    None => {},
                }
                assert(out@ =~= statement_text(*self));
                out
            },
            Statement::While { condition, body, .. } => {
                let c = condition.to_string();
                let b = body_lines_string(&body.statements);
                let out = String::from_str("while (").concat(c.as_str()).concat(") {\n").concat(b.as_str()).concat("}");
                assert(out@ =~= statement_text(*self));
                out
            },
            Statement::Return(Some(e), _, _) => String::from_str("return ").concat(e.to_string().as_str()),
            Statement::Return(None, _, _) => String::from_str("return"),
            Statement::Assignment { target, expr, .. } => target.clone().concat(" = ").concat(expr.to_string().as_str()),
            Statement::VarDeclaration { name, ty, expr, .. } => {
                let out = String::from_str("var ").concat(name.as_str()).concat(annotation_string(ty).as_str()).concat(" = ").concat(
                    expr.to_string().as_str(),
                );
                assert(out@ =~= statement_text(*self));
                out
            },
            Statement::ConstDeclaration { name, ty, expr, .. } => {
                let out = String::from_str("const ").concat(name.as_str()).concat(annotation_string(ty).as_str()).concat(" = ").concat(
                    expr.to_string().as_str(),
                );
                assert(out@ =~= statement_text(*self));
                out
            },
        }
    }
}

impl Block {
    /// How the block is written.
    pub fn to_string(&self) -> (r: String)
        ensures
            r@ == block_text(self.statements@),
    {
        proof {
            reveal_strlit("    ");
            reveal_strlit(";\n");
            reveal_strlit("\n");
            assert("    "@ =~= seq![' ', ' ', ' ', ' ']);
            assert(";\n"@ =~= seq![';', '\n']);
            assert("\n"@ =~= seq!['\n']);
            assert(self.statements@.take(0) =~= Seq::<Statement>::empty());
        }
        let mut out = String::new();
        let mut i: usize = 0;
        while i < self.statements.len()
            invariant
                i <= self.statements.len(),
                "    "@ == seq![' ', ' ', ' ', ' '],
                ";\n"@ == seq![';', '\n'],
                "\n"@ == seq!['\n'],
                out@ == block_text(self.statements@.take(i as int)),
            decreases self.statements.len() - i,
        {
            proof {
                assert(self.statements@.take(i + 1).drop_last() =~= self.statements@.take(i as int));
            }
            let stmt = &self.statements[i];
            out.append("    ");
            out.append(stmt.to_string().as_str());
            match stmt {
                Statement::If { .. } | Statement::While { .. } => out.append("\n"),
                _ => out.append(";\n"),
            }
            i = i + 1;
        }
        proof {
            assert(self.statements@.take(self.statements.len() as int) =~= self.statements@);
        }
        out
    }
}

/// `state var name: T = expr;` (or `state const`).
pub open spec fn storage_text(is_var: bool, name: Seq<char>, ty: TypeV, expr: Seq<char>) -> Seq<char> {
    (if is_var { seq!['s', 't', 'a', 't', 'e', ' ', 'v', 'a', 'r', ' '] } else { seq!['s', 't', 'a', 't', 'e', ' ', 'c', 'o', 'n', 's', 't', ' '] })
        + name + seq![':', ' '] + type_text(ty) + seq![' ', '=', ' '] + expr + seq![';']
}

fn storage_string(is_var: bool, name: &String, ty: &Type, expr: &Expression) -> (r: String)
    ensures
        r@ == storage_text(is_var, name@, ty@, expression_text(expr@)),
{
    proof {
        reveal_strlit("state var ");
        reveal_strlit("state const ");
        reveal_strlit(": ");
        reveal_strlit(" = ");
        reveal_strlit(";");
        assert("state var "@ =~= seq!['s', 't', 'a', 't', 'e', ' ', 'v', 'a', 'r', ' ']);
        assert("state const "@ =~= seq!['s', 't', 'a', 't', 'e', ' ', 'c', 'o', 'n', 's', 't', ' ']);
        assert(": "@ =~= seq![':', ' ']);
        assert(" = "@ =~= seq![' ', '=', ' ']);
        assert(";"@ =~= seq![';']);
    }
    let head = if is_var { String::from_str("state var ") } else { String::from_str("state const ") };
    let out = head.concat(name.as_str()).concat(": ").concat(ty.to_string().as_str()).concat(" = ").concat(expr.to_string().as_str()).concat(";");
    assert(out@ =~= storage_text(is_var, name@, ty@, expression_text(expr@)));
    out
}

impl StateVar {
    /// `state var name: T = expr;`
    pub fn to_string(&self) -> (r: String)
        ensures
            r@ == storage_text(true, self.name@, self.ty@, expression_text(self.expr@)),
    {
        storage_string(true, &self.name, &self.ty, &self.expr)
    }
}

impl StateConst {
    /// `state const name: T = expr;`
    pub fn to_string(&self) -> (r: String)
        ensures
            r@ == storage_text(false, self.name@, self.ty@, expression_text(self.expr@)),
    {
        storage_string(false, &self.name, &self.ty, &self.expr)
    }
}

} // verus!
