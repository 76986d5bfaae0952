use vstd::prelude::*;
use vstd::string::StringExecFns;

use z3::ast::{Ast, Bool, Int};
use z3::{Config, Context, Params, SatResult, Solver};

use crate::ast::predicate::{ArithOp, ExprV, PredV, Predicate, RefinementExpr, RelOp, pred_eq, pred_holds, rel_holds};
use crate::names::{decimal, usize_to_string};
use crate::refinements::constraints::{clone_preds, preds_view};

verus! {

// ---------------------------------------------------------------------------
// The solver's types
// ---------------------------------------------------------------------------

#[verifier::external_type_specification]
#[verifier::external_body]
pub struct ExZ3Config(Config);

#[verifier::external_type_specification]
#[verifier::external_body]
pub struct ExZ3Context(Context);

#[verifier::external_type_specification]
#[verifier::external_body]
pub struct ExZ3Solver<'ctx>(Solver<'ctx>);

#[verifier::external_type_specification]
#[verifier::external_body]
pub struct ExZ3Params<'ctx>(Params<'ctx>);

#[verifier::external_type_specification]
#[verifier::external_body]
pub struct ExZ3Bool<'ctx>(Bool<'ctx>);

#[verifier::external_type_specification]
#[verifier::external_body]
pub struct ExZ3Int<'ctx>(Int<'ctx>);

// ---------------------------------------------------------------------------
// Results and errors
// ---------------------------------------------------------------------------

/// The answer to a query.
#[derive(Debug, Clone, Copy, PartialEq, Eq, Structural)]
pub enum SmtResult {
    Valid,
    Satisfiable,
    Unsatisfiable,
    Timeout,
    Unknown,
}

/// Why a query could not be put to the solver.
#[derive(Debug)]
pub enum SmtError {
    SolverFailed(String),
    Timeout,
    InvalidFormula(String),
    TypeError(String),
}

impl SmtError {
    /// The message of the error.
    pub fn to_string(&self) -> (r: String)
        ensures
            match self {
                SmtError::SolverFailed(m) => r@ == "SMT solver failed: "@ + m@,
                SmtError::Timeout => r@ == "SMT solver timeout"@,
                SmtError::InvalidFormula(m) => r@ == "Invalid SMT formula: "@ + m@,
                SmtError::TypeError(m) => r@ == "Type error in SMT conversion: "@ + m@,
            },
    {
        match self {
            SmtError::SolverFailed(m) => String::from_str("SMT solver failed: ").concat(m.as_str()),
            SmtError::Timeout => String::from_str("SMT solver timeout"),
            SmtError::InvalidFormula(m) => String::from_str("Invalid SMT formula: ").concat(m.as_str()),
            SmtError::TypeError(m) => String::from_str("Type error in SMT conversion: ").concat(m.as_str()),
        }
    }
}

// ---------------------------------------------------------------------------
// Solver terms
// ---------------------------------------------------------------------------

/// An integer term of the solver's logic.
#[derive(Debug)]
pub enum IntTerm {
    Const(String),
    Lit(i64),
    Add(Box<IntTerm>, Box<IntTerm>),
    Sub(Box<IntTerm>, Box<IntTerm>),
    Mul(Box<IntTerm>, Box<IntTerm>),
    Div(Box<IntTerm>, Box<IntTerm>),
    Rem(Box<IntTerm>, Box<IntTerm>),
    Neg(Box<IntTerm>),
}

/// A formula of the solver's logic; integer and boolean constants of the
/// same name are different constants.
#[derive(Debug)]
pub enum BoolTerm {
    Const(String),
    Lit(bool),
    And(Box<BoolTerm>, Box<BoolTerm>),
    Or(Box<BoolTerm>, Box<BoolTerm>),
    Not(Box<BoolTerm>),
    Implies(Box<BoolTerm>, Box<BoolTerm>),
    Eq(IntTerm, IntTerm),
    Lt(IntTerm, IntTerm),
    Le(IntTerm, IntTerm),
    Gt(IntTerm, IntTerm),
    Ge(IntTerm, IntTerm),
}

pub enum IntTermV {
    Const(Seq<char>),
    Lit(int),
    Add(Box<IntTermV>, Box<IntTermV>),
    Sub(Box<IntTermV>, Box<IntTermV>),
    Mul(Box<IntTermV>, Box<IntTermV>),
    Div(Box<IntTermV>, Box<IntTermV>),
    Rem(Box<IntTermV>, Box<IntTermV>),
    Neg(Box<IntTermV>),
}

pub enum BoolTermV {
    Const(Seq<char>),
    Lit(bool),
    And(Box<BoolTermV>, Box<BoolTermV>),
    Or(Box<BoolTermV>, Box<BoolTermV>),
    Not(Box<BoolTermV>),
    Implies(Box<BoolTermV>, Box<BoolTermV>),
    Eq(IntTermV, IntTermV),
    Lt(IntTermV, IntTermV),
    Le(IntTermV, IntTermV),
    Gt(IntTermV, IntTermV),
    Ge(IntTermV, IntTermV),
}

pub open spec fn int_term_view(t: IntTerm) -> IntTermV
    decreases t,
{
    match t {
        IntTerm::Const(n) => IntTermV::Const(n@),
        IntTerm::Lit(v) => IntTermV::Lit(v as int),
        IntTerm::Add(a, b) => IntTermV::Add(Box::new(int_term_view(*a)), Box::new(int_term_view(*b))),
        IntTerm::Sub(a, b) => IntTermV::Sub(Box::new(int_term_view(*a)), Box::new(int_term_view(*b))),
        IntTerm::Mul(a, b) => IntTermV::Mul(Box::new(int_term_view(*a)), Box::new(int_term_view(*b))),
        IntTerm::Div(a, b) => IntTermV::Div(Box::new(int_term_view(*a)), Box::new(int_term_view(*b))),
        IntTerm::Rem(a, b) => IntTermV::Rem(Box::new(int_term_view(*a)), Box::new(int_term_view(*b))),
        IntTerm::Neg(a) => IntTermV::Neg(Box::new(int_term_view(*a))),
    }
}

pub open spec fn bool_term_view(t: BoolTerm) -> BoolTermV
    decreases t,
{
    match t {
        BoolTerm::Const(n) => BoolTermV::Const(n@),
        BoolTerm::Lit(b) => BoolTermV::Lit(b),
        BoolTerm::And(a, b) => BoolTermV::And(Box::new(bool_term_view(*a)), Box::new(bool_term_view(*b))),
        BoolTerm::Or(a, b) => BoolTermV::Or(Box::new(bool_term_view(*a)), Box::new(bool_term_view(*b))),
        BoolTerm::Not(a) => BoolTermV::Not(Box::new(bool_term_view(*a))),
        BoolTerm::Implies(a, b) => BoolTermV::Implies(Box::new(bool_term_view(*a)), Box::new(bool_term_view(*b))),
        BoolTerm::Eq(a, b) => BoolTermV::Eq(int_term_view(a), int_term_view(b)),
        BoolTerm::Lt(a, b) => BoolTermV::Lt(int_term_view(a), int_term_view(b)),
        BoolTerm::Le(a, b) => BoolTermV::Le(int_term_view(a), int_term_view(b)),
        BoolTerm::Gt(a, b) => BoolTermV::Gt(int_term_view(a), int_term_view(b)),
        BoolTerm::Ge(a, b) => BoolTermV::Ge(int_term_view(a), int_term_view(b)),
    }
}

impl View for IntTerm {
    type V = IntTermV;

    open spec fn view(&self) -> IntTermV {
        int_term_view(*self)
    }
}

impl View for BoolTerm {
    type V = BoolTermV;

    open spec fn view(&self) -> BoolTermV {
        bool_term_view(*self)
    }
}

// ---------------------------------------------------------------------------
// Address literals as integers
// ---------------------------------------------------------------------------

/// The number of bytes of a character in UTF-8.
pub open spec fn utf8_len(c: char) -> nat {
    if (c as u32) < 0x80 {
        1
    } else if (c as u32) < 0x800 {
        2
    } else if (c as u32) < 0x10000 {
        3
    } else {
        4
    }
}

/// Whether the text can be cut after its second byte: its first two bytes
/// exist and end a character.
pub open spec fn cuttable_after_two_bytes(a: Seq<char>) -> bool {
    ||| (a.len() >= 1 && utf8_len(a[0]) == 2)
    ||| (a.len() >= 2 && utf8_len(a[0]) == 1 && utf8_len(a[1]) == 1)
}

/// The text after its first two bytes.
pub open spec fn after_two_bytes(a: Seq<char>) -> Seq<char> {
    if utf8_len(a[0]) == 2 {
        a.drop_first()
    } else {
        a.subrange(2, a.len() as int)
    }
}

pub open spec fn hex_digit_value(c: char) -> Option<int> {
    if '0' <= c && c <= '9' {
        Some(c as int - '0' as int)
    } else if 'a' <= c && c <= 'f' {
        Some(c as int - 'a' as int + 10)
    } else if 'A' <= c && c <= 'F' {
        Some(c as int - 'A' as int + 10)
    } else {
        None
    }
}

/// The value of a string of hexadecimal digits (0 for the empty string);
/// `None` if a character is not a digit.
pub open spec fn hex_value(s: Seq<char>) -> Option<int>
    decreases s.len(),
{
    if s.len() == 0 {
        Some(0)
    } else {
        match (hex_value(s.drop_last()), hex_digit_value(s.last())) {
            (Some(v), Some(d)) => Some(16 * v + d),
            _ => None,
        }
    }
}

/// Base-16 parsing into an `i64`, as `i64::from_str_radix(s, 16)` does: an
/// optional sign, then at least one digit, and a value that fits.
pub open spec fn parse_hex_i64(s: Seq<char>) -> Option<int> {
    let neg = s.len() > 0 && s[0] == '-';
    let digits = if s.len() > 0 && (s[0] == '-' || s[0] == '+') { s.drop_first() } else { s };
    if digits.len() == 0 {
        None
    } else {
        match hex_value(digits) {
            Some(v) => if neg {
                if -v >= i64::MIN { Some(-v) } else { None }
            } else {
                if v <= i64::MAX { Some(v) } else { None }
            },
            None => None,
        }
    }
}

/// The integer an address literal stands for: its text after the `0x`
/// prefix read in base 16, or 0 when that is not an `i64`.
pub open spec fn address_value(a: Seq<char>) -> int {
    match parse_hex_i64(after_two_bytes(a)) {
        Some(v) => v,
        None => 0,
    }
}

fn char_utf8_len(c: char) -> (r: usize)
    ensures
        r == utf8_len(c),
{
    let u = c as u32;
    if u < 0x80 {
        1
    } else if u < 0x800 {
        2
    } else if u < 0x10000 {
        3
    } else {
        4
    }
}

fn hex_digit(c: char) -> (r: Option<u64>)
    ensures
        match r {
            Some(d) => hex_digit_value(c) == Some(d as int) && d < 16,
            None => hex_digit_value(c) is None,
        },
{
    if '0' <= c && c <= '9' {
        Some((c as u32 - '0' as u32) as u64)
    } else if 'a' <= c && c <= 'f' {
        Some((c as u32 - 'a' as u32 + 10) as u64)
    } else if 'A' <= c && c <= 'F' {
        Some((c as u32 - 'A' as u32 + 10) as u64)
    } else {
        None
    }
}

proof fn lemma_hex_value_monotone(s: Seq<char>, k: int)
    requires
        0 <= k <= s.len(),
        hex_value(s) is Some,
    ensures
        hex_value(s.subrange(0, k)) is Some,
        hex_value(s.subrange(0, k)).unwrap() <= hex_value(s).unwrap(),
        hex_value(s.subrange(0, k)).unwrap() >= 0,
    decreases s.len() - k,
{
    if k == s.len() {
        assert(s.subrange(0, k) =~= s);
        lemma_hex_value_nonneg(s);
    } else {
        lemma_hex_value_monotone(s, k + 1);
        assert(s.subrange(0, k + 1).drop_last() =~= s.subrange(0, k));
        lemma_hex_value_nonneg(s.subrange(0, k));
    }
}

proof fn lemma_hex_value_nonneg(s: Seq<char>)
    ensures
        hex_value(s) is Some ==> hex_value(s).unwrap() >= 0,
    decreases s.len(),
{
    if s.len() > 0 {
        lemma_hex_value_nonneg(s.drop_last());
    }
}

/// `after_two_bytes(a)` parsed as a base-16 `i64`, or 0.
fn address_to_int(a: &str) -> (r: Option<i64>)
    ensures
        match r {
            Some(v) => cuttable_after_two_bytes(a@) && v == address_value(a@),
            None => !cuttable_after_two_bytes(a@),
        },
{
    let n = a.unicode_len();
    if n == 0 {
        return None;
    }
    let c0 = a.get_char(0);
    let l0 = char_utf8_len(c0);
    let start: usize = if l0 == 2 {
        1
    } else if l0 == 1 && n >= 2 && char_utf8_len(a.get_char(1)) == 1 {
        2
    } else {
        return None;
    };
    let ghost tail = after_two_bytes(a@);
    proof {
        assert(tail =~= a@.subrange(start as int, n as int));
    }
    // sign
    let mut i: usize = start;
    let mut neg = false;
    if i < n {
        let c = a.get_char(i);
        if c == '-' {
            neg = true;
            i = i + 1;
        } else if c == '+' {
            i = i + 1;
        }
    }
    let ghost digits = a@.subrange(i as int, n as int);
    proof {
        assert(tail.len() > 0 ==> tail[0] == a@[start as int]);
        assert(neg == (tail.len() > 0 && tail[0] == '-'));
        if tail.len() > 0 && (tail[0] == '-' || tail[0] == '+') {
            assert(digits =~= tail.drop_first());
        } else {
            assert(digits =~= tail);
        }
    }
    if i == n {
        proof {
            assert(digits.len() == 0);
        }
        return Some(0);
    }
    // accumulate the magnitude; past 2^63 it cannot fit either way
    let limit: u64 = 0x8000_0000_0000_0000;
    let mut acc: u64 = 0;
    let mut j: usize = i;
    proof {
        assert(a@.subrange(i as int, i as int) =~= Seq::<char>::empty());
    }
    while j < n
        invariant
            i <= j <= n,
            i < n,
            n == a@.len(),
            cuttable_after_two_bytes(a@),
            tail == after_two_bytes(a@),
            neg == (tail.len() > 0 && tail[0] == '-'),
            digits == (if tail.len() > 0 && (tail[0] == '-' || tail[0] == '+') { tail.drop_first() } else { tail }),
            digits == a@.subrange(i as int, n as int),
            hex_value(a@.subrange(i as int, j as int)) == Some(acc as int),
            limit == 0x8000_0000_0000_0000u64,
            acc <= limit,
        decreases n - j,
    {
        let c = a.get_char(j);
        proof {
            assert(a@.subrange(i as int, j + 1).drop_last() =~= a@.subrange(i as int, j as int));
            assert(a@.subrange(i as int, j + 1).last() == c);
            assert(digits.subrange(0, (j + 1 - i) as int) =~= a@.subrange(i as int, j + 1));
        }
        match hex_digit(c) {
            Some(d) => {
                if acc > (limit - d) / 16 {
                    proof {
                        assert(16 * acc + d > limit) by (nonlinear_arith)
                            requires
                                acc > (limit - d) / 16,
                                d < 16,
                                limit == 0x8000_0000_0000_0000u64,
                        ;
                        assert(hex_value(a@.subrange(i as int, j + 1)) == Some(16 * acc + d));
                        if hex_value(digits) is Some {
                            lemma_hex_value_monotone(digits, (j + 1 - i) as int);
                        }
                        assert(parse_hex_i64(tail) is None);
                    }
                    return Some(0);
                }
                proof {
                    assert(16 * acc + d <= limit) by (nonlinear_arith)
                        requires
                            acc <= (limit - d) / 16,
                            d < 16,
                            limit == 0x8000_0000_0000_0000u64,
                    ;
                }
                acc = 16 * acc + d;
            },
            None => {
                proof {
                    assert(hex_value(a@.subrange(i as int, j + 1)) is None);
                    if hex_value(digits) is Some {
                        lemma_hex_value_monotone(digits, (j + 1 - i) as int);
                    }
                    assert(parse_hex_i64(tail) is None);
                }
                return Some(0);
            },
        }
        j = j + 1;
    }
    proof {
        assert(a@.subrange(i as int, n as int) == digits);
    }
    if neg {
        if acc == limit {
            Some(i64::MIN)
        } else {
            Some(-(acc as i64))
        }
    } else {
        if acc == limit {
            Some(0)
        } else {
            Some(acc as i64)
        }
    }
}

// ---------------------------------------------------------------------------
// From predicates to solver terms
// ---------------------------------------------------------------------------

pub open spec fn pre_suffix() -> Seq<char> {
    seq!['@', 'p', 'r', 'e']
}

pub open spec fn msg_sender_name() -> Seq<char> {
    seq!['m', 's', 'g', '_', 's', 'e', 'n', 'd', 'e', 'r']
}

pub open spec fn msg_value_name() -> Seq<char> {
    seq!['m', 's', 'g', '_', 'v', 'a', 'l', 'u', 'e']
}

pub open spec fn block_timestamp_name() -> Seq<char> {
    seq!['b', 'l', 'o', 'c', 'k', '_', 't', 'i', 'm', 'e', 's', 't', 'a', 'm', 'p']
}

pub open spec fn uninterp_prefix() -> Seq<char> {
    seq!['u', 'n', 'i', 'n', 't', 'e', 'r', 'p', '_']
}

pub open spec fn arith_term(op: ArithOp, a: IntTermV, b: IntTermV) -> IntTermV {
    match op {
        ArithOp::Add => IntTermV::Add(Box::new(a), Box::new(b)),
        ArithOp::Sub => IntTermV::Sub(Box::new(a), Box::new(b)),
        ArithOp::Mul => IntTermV::Mul(Box::new(a), Box::new(b)),
        ArithOp::Div => IntTermV::Div(Box::new(a), Box::new(b)),
        ArithOp::Mod => IntTermV::Rem(Box::new(a), Box::new(b)),
    }
}

pub open spec fn rel_term(op: RelOp, a: IntTermV, b: IntTermV) -> BoolTermV {
    match op {
        RelOp::Eq => BoolTermV::Eq(a, b),
        RelOp::Neq => BoolTermV::Not(Box::new(BoolTermV::Eq(a, b))),
        RelOp::Lt => BoolTermV::Lt(a, b),
        RelOp::Leq => BoolTermV::Le(a, b),
        RelOp::Gt => BoolTermV::Gt(a, b),
        RelOp::Geq => BoolTermV::Ge(a, b),
    }
}

/// The integer term of an expression inside `old(..)`: variables and
/// functions of the pre-state get `@pre`; `None` for a nested `old` or an
/// address literal that cannot be read.
pub open spec fn old_expr_term(e: ExprV) -> Option<IntTermV>
    decreases e,
{
    match e {
        ExprV::Var(n, _, _) => Some(IntTermV::Const(n + pre_suffix())),
        ExprV::IntLit(v, _, _) => Some(IntTermV::Lit(v as int)),
        ExprV::AddressLit(a, _, _) => if cuttable_after_two_bytes(a) { Some(IntTermV::Lit(address_value(a))) } else { None },
        ExprV::BoolLit(b, _, _) => Some(IntTermV::Lit(if b { 1 } else { 0 })),
        ExprV::MsgSender(_, _) => Some(IntTermV::Const(msg_sender_name())),
        ExprV::MsgValue(_, _) => Some(IntTermV::Const(msg_value_name())),
        ExprV::BlockTimestamp(_, _) => Some(IntTermV::Const(block_timestamp_name())),
        ExprV::BinOp(op, l, r, _, _) => match (old_expr_term(*l), old_expr_term(*r)) {
            (Some(a), Some(b)) => Some(arith_term(op, a, b)),
            _ => None,
        },
        ExprV::UnaryOp(_, x, _, _) => match old_expr_term(*x) {
            Some(a) => Some(IntTermV::Neg(Box::new(a))),
            None => None,
        },
        ExprV::UninterpFn(n, args, _, _) => Some(IntTermV::Const(n + pre_suffix() + seq!['_'] + decimal(args.len()))),
        ExprV::Old(_, _, _) => None,
    }
}

/// The integer term of an expression; a function application is a constant
/// named by the function and its number of arguments.
pub open spec fn expr_term(e: ExprV) -> Option<IntTermV>
    decreases e,
{
    match e {
        ExprV::Var(n, _, _) => Some(IntTermV::Const(n)),
        ExprV::IntLit(v, _, _) => Some(IntTermV::Lit(v as int)),
        ExprV::AddressLit(a, _, _) => if cuttable_after_two_bytes(a) { Some(IntTermV::Lit(address_value(a))) } else { None },
        ExprV::BoolLit(b, _, _) => Some(IntTermV::Lit(if b { 1 } else { 0 })),
        ExprV::MsgSender(_, _) => Some(IntTermV::Const(msg_sender_name())),
        ExprV::MsgValue(_, _) => Some(IntTermV::Const(msg_value_name())),
        ExprV::BlockTimestamp(_, _) => Some(IntTermV::Const(block_timestamp_name())),
        ExprV::BinOp(op, l, r, _, _) => match (expr_term(*l), expr_term(*r)) {
            (Some(a), Some(b)) => Some(arith_term(op, a, b)),
            _ => None,
        },
        ExprV::UnaryOp(_, x, _, _) => match expr_term(*x) {
            Some(a) => Some(IntTermV::Neg(Box::new(a))),
            None => None,
        },
        ExprV::UninterpFn(n, args, _, _) => Some(IntTermV::Const(n + seq!['_'] + decimal(args.len()))),
        ExprV::Old(x, _, _) => old_expr_term(*x),
    }
}

/// Whether every argument has a term.
pub open spec fn all_terms(args: Seq<ExprV>) -> bool {
    forall|i: int| 0 <= i < args.len() ==> (#[trigger] expr_term(args[i])) is Some
}

/// The formula of a predicate. A boolean variable is a boolean constant; an
/// application of a predicate symbol is the boolean constant
/// `uninterp_<name>`, once its arguments have terms.
pub open spec fn pred_term(p: PredV) -> Option<BoolTermV>
    decreases p,
{
    match p {
        PredV::True(_, _) => Some(BoolTermV::Lit(true)),
        PredV::False(_, _) => Some(BoolTermV::Lit(false)),
        PredV::Var(n, _, _) => Some(BoolTermV::Const(n)),
        PredV::UninterpFnCall(n, args, _, _) => if all_terms(args) { Some(BoolTermV::Const(uninterp_prefix() + n)) } else { None },
        PredV::BinRel(op, l, r, _, _) => match (expr_term(l), expr_term(r)) {
            (Some(a), Some(b)) => Some(rel_term(op, a, b)),
            _ => None,
        },
        PredV::And(l, r, _, _) => match (pred_term(*l), pred_term(*r)) {
            (Some(a), Some(b)) => Some(BoolTermV::And(Box::new(a), Box::new(b))),
            _ => None,
        },
        PredV::Or(l, r, _, _) => match (pred_term(*l), pred_term(*r)) {
            (Some(a), Some(b)) => Some(BoolTermV::Or(Box::new(a), Box::new(b))),
            _ => None,
        },
        PredV::Not(q, _, _) => match pred_term(*q) {
            Some(a) => Some(BoolTermV::Not(Box::new(a))),
            None => None,
        },
        PredV::Implies(l, r, _, _) => match (pred_term(*l), pred_term(*r)) {
            (Some(a), Some(b)) => Some(BoolTermV::Implies(Box::new(a), Box::new(b))),
            _ => None,
        },
    }
}

// ---------------------------------------------------------------------------
// What the formulas mean
// ---------------------------------------------------------------------------

/// The number a term denotes, given a number for each integer constant.
pub open spec fn int_term_value(t: IntTermV, env: spec_fn(Seq<char>) -> int) -> int
    decreases t,
{
    match t {
        IntTermV::Const(n) => env(n),
        IntTermV::Lit(v) => v,
        IntTermV::Add(a, b) => int_term_value(*a, env) + int_term_value(*b, env),
        IntTermV::Sub(a, b) => int_term_value(*a, env) - int_term_value(*b, env),
        IntTermV::Mul(a, b) => int_term_value(*a, env) * int_term_value(*b, env),
        IntTermV::Div(a, b) => int_term_value(*a, env) / int_term_value(*b, env),
        IntTermV::Rem(a, b) => int_term_value(*a, env) % int_term_value(*b, env),
        IntTermV::Neg(a) => -int_term_value(*a, env),
    }
}

/// The truth of a formula, given a number for each integer constant and a
/// truth for each boolean constant.
pub open spec fn bool_term_holds(t: BoolTermV, env: spec_fn(Seq<char>) -> int, benv: spec_fn(Seq<char>) -> bool) -> bool
    decreases t,
{
    match t {
        BoolTermV::Const(n) => benv(n),
        BoolTermV::Lit(b) => b,
        BoolTermV::And(a, b) => bool_term_holds(*a, env, benv) && bool_term_holds(*b, env, benv),
        BoolTermV::Or(a, b) => bool_term_holds(*a, env, benv) || bool_term_holds(*b, env, benv),
        BoolTermV::Not(a) => !bool_term_holds(*a, env, benv),
        BoolTermV::Implies(a, b) => bool_term_holds(*a, env, benv) ==> bool_term_holds(*b, env, benv),
        BoolTermV::Eq(a, b) => int_term_value(a, env) == int_term_value(b, env),
        BoolTermV::Lt(a, b) => int_term_value(a, env) < int_term_value(b, env),
        BoolTermV::Le(a, b) => int_term_value(a, env) <= int_term_value(b, env),
        BoolTermV::Gt(a, b) => int_term_value(a, env) > int_term_value(b, env),
        BoolTermV::Ge(a, b) => int_term_value(a, env) >= int_term_value(b, env),
    }
}

/// The value of an expression read through its term.
pub open spec fn term_values(env: spec_fn(Seq<char>) -> int) -> spec_fn(ExprV) -> int {
    |e: ExprV| int_term_value(expr_term(e).unwrap(), env)
}

/// The truth of an atom read through its boolean constant.
pub open spec fn formula_atoms(benv: spec_fn(Seq<char>) -> bool) -> spec_fn(PredV) -> bool {
    |q: PredV|
        match q {
            PredV::Var(n, _, _) => benv(n),
            PredV::UninterpFnCall(n, _, _, _) => benv(uninterp_prefix() + n),
            _ => false,
        }
}

/// The formula of a relation means the relation: under any numbers for the
/// constants, the formula of `a op b` is true exactly when the numbers of
/// `a` and `b` are so related (`a != b` exactly when they differ).
pub proof fn lemma_relation_formula_meaning(op: RelOp, a: IntTermV, b: IntTermV, env: spec_fn(Seq<char>) -> int, benv: spec_fn(Seq<char>) -> bool)
    ensures
        bool_term_holds(rel_term(op, a, b), env, benv) == rel_holds(op, int_term_value(a, env), int_term_value(b, env)),
{
    reveal_with_fuel(bool_term_holds, 2);
    if op == RelOp::Neq {
        assert(bool_term_holds(BoolTermV::Eq(a, b), env, benv) == (int_term_value(a, env) == int_term_value(b, env)));
    }
}

/// The formula sent to the solver for a predicate means the predicate:
/// under any numbers and truths for the constants, it is true exactly when
/// the predicate holds of the values of its expressions' terms and the
/// truths of its atoms.
pub proof fn lemma_formula_meaning(p: PredV, env: spec_fn(Seq<char>) -> int, benv: spec_fn(Seq<char>) -> bool)
    requires
        pred_term(p) is Some,
    ensures
        bool_term_holds(pred_term(p).unwrap(), env, benv) == pred_holds(p, term_values(env), formula_atoms(benv)),
    decreases p,
{
    match p {
        PredV::BinRel(op, l, r, _, _) => {
            lemma_relation_formula_meaning(op, expr_term(l).unwrap(), expr_term(r).unwrap(), env, benv);
            assert(term_values(env)(l) == int_term_value(expr_term(l).unwrap(), env));
            assert(term_values(env)(r) == int_term_value(expr_term(r).unwrap(), env));
        },
        PredV::And(l, r, _, _) | PredV::Or(l, r, _, _) | PredV::Implies(l, r, _, _) => {
            lemma_formula_meaning(*l, env, benv);
            lemma_formula_meaning(*r, env, benv);
        },
        PredV::Not(q, _, _) => lemma_formula_meaning(*q, env, benv),
        PredV::Var(n, _, _) => {
            assert(formula_atoms(benv)(p) == benv(n));
        },
        PredV::UninterpFnCall(n, _, _, _) => {
            assert(formula_atoms(benv)(p) == benv(uninterp_prefix() + n));
        },
        _ => {},
    }
}

/// Whether a name holds the NUL character.
pub open spec fn has_nul_char(s: Seq<char>) -> bool {
    exists|i: int| 0 <= i < s.len() && (s[i] as u32) == 0
}

/// The constant names a term uses.
pub open spec fn int_term_names_ok(t: IntTermV) -> bool
    decreases t,
{
    match t {
        IntTermV::Const(n) => !has_nul_char(n),
        IntTermV::Lit(_) => true,
        IntTermV::Add(a, b) | IntTermV::Sub(a, b) | IntTermV::Mul(a, b) | IntTermV::Div(a, b) | IntTermV::Rem(a, b) => int_term_names_ok(*a) && int_term_names_ok(*b),
        IntTermV::Neg(a) => int_term_names_ok(*a),
    }
}

/// Whether no constant name holds a NUL character (the solver cannot name
/// such a constant).
pub open spec fn bool_term_names_ok(t: BoolTermV) -> bool
    decreases t,
{
    match t {
        BoolTermV::Const(n) => !has_nul_char(n),
        BoolTermV::Lit(_) => true,
        BoolTermV::And(a, b) | BoolTermV::Or(a, b) | BoolTermV::Implies(a, b) => bool_term_names_ok(*a) && bool_term_names_ok(*b),
        BoolTermV::Not(a) => bool_term_names_ok(*a),
        BoolTermV::Eq(a, b) | BoolTermV::Lt(a, b) | BoolTermV::Le(a, b) | BoolTermV::Gt(a, b) | BoolTermV::Ge(a, b) => int_term_names_ok(a)
            && int_term_names_ok(b),
    }
}

/// Whether a predicate can be put to the solver.
pub open spec fn translatable(p: PredV) -> bool {
    pred_term(p) is Some && bool_term_names_ok(pred_term(p).unwrap())
}

fn const_name(s: String) -> (r: IntTerm)
    ensures
        r@ == IntTermV::Const(s@),
{
    IntTerm::Const(s)
}

fn make_arith(op: ArithOp, a: IntTerm, b: IntTerm) -> (r: IntTerm)
    ensures
        r@ == arith_term(op, a@, b@),
{
    match op {
        ArithOp::Add => IntTerm::Add(Box::new(a), Box::new(b)),
        ArithOp::Sub => IntTerm::Sub(Box::new(a), Box::new(b)),
        ArithOp::Mul => IntTerm::Mul(Box::new(a), Box::new(b)),
        ArithOp::Div => IntTerm::Div(Box::new(a), Box::new(b)),
        ArithOp::Mod => IntTerm::Rem(Box::new(a), Box::new(b)),
    }
}

fn make_rel(op: RelOp, a: IntTerm, b: IntTerm) -> (r: BoolTerm)
    ensures
        r@ == rel_term(op, a@, b@),
{
    match op {
        RelOp::Eq => BoolTerm::Eq(a, b),
        RelOp::Neq => {
            let ghost av = a@;
            let ghost bv = b@;
            let e = BoolTerm::Eq(a, b);
            assert(e@ == BoolTermV::Eq(av, bv));
            BoolTerm::Not(Box::new(e))
        },
        RelOp::Lt => BoolTerm::Lt(a, b),
        RelOp::Leq => BoolTerm::Le(a, b),
        RelOp::Gt => BoolTerm::Gt(a, b),
        RelOp::Geq => BoolTerm::Ge(a, b),
    }
}

fn global_const(which: u8) -> (r: IntTerm)
    requires
        which < 3,
    ensures
        which == 0 ==> r@ == IntTermV::Const(msg_sender_name()),
        which == 1 ==> r@ == IntTermV::Const(msg_value_name()),
        which == 2 ==> r@ == IntTermV::Const(block_timestamp_name()),
{
    proof {
        reveal_strlit("msg_sender");
        reveal_strlit("msg_value");
        reveal_strlit("block_timestamp");
        assert("msg_sender"@ =~= msg_sender_name());
        assert("msg_value"@ =~= msg_value_name());
        assert("block_timestamp"@ =~= block_timestamp_name());
    }
    if which == 0 {
        const_name(String::from_str("msg_sender"))
    } else if which == 1 {
        const_name(String::from_str("msg_value"))
    } else {
        const_name(String::from_str("block_timestamp"))
    }
}

fn address_term(a: &String) -> (r: Option<IntTerm>)
    ensures
        match r {
            Some(t) => cuttable_after_two_bytes(a@) && t@ == IntTermV::Lit(address_value(a@)),
            None => !cuttable_after_two_bytes(a@),
        },
{
    match address_to_int(a.as_str()) {
        Some(v) => Some(IntTerm::Lit(v)),
        None => None,
    }
}

/// The term of an expression inside `old(..)`.
fn old_expr_to_term(e: &RefinementExpr) -> (r: Option<IntTerm>)
    ensures
        match r {
            Some(t) => old_expr_term(e@) == Some(t@),
            None => old_expr_term(e@) is None,
        },
    decreases *e,
{
    proof {
        reveal_strlit("@pre");
        reveal_strlit("@pre_");
        assert("@pre"@ =~= pre_suffix());
        assert("@pre_"@ =~= pre_suffix() + seq!['_']);
    }
    match e {
        RefinementExpr::Var(n, _, _) => Some(const_name(n.clone().concat("@pre"))),
        RefinementExpr::IntLit(v, _, _) => Some(IntTerm::Lit(*v)),
        RefinementExpr::AddressLit(a, _, _) => address_term(a),
        RefinementExpr::BoolLit(b, _, _) => Some(IntTerm::Lit(if *b { 1 } else { 0 })),
        RefinementExpr::MsgSender(_, _) => Some(global_const(0)),
        RefinementExpr::MsgValue(_, _) => Some(global_const(1)),
        RefinementExpr::BlockTimestamp(_, _) => Some(global_const(2)),
        RefinementExpr::BinOp { op, lhs, rhs, .. } => {
            let a = old_expr_to_term(lhs);
            let b = old_expr_to_term(rhs);
            match (a, b) {
                (Some(a), Some(b)) => Some(make_arith(*op, a, b)),
                _ => None,
            }
        },
        RefinementExpr::UnaryOp { expr, .. } => match old_expr_to_term(expr) {
            Some(a) => Some(IntTerm::Neg(Box::new(a))),
            None => None,
        },
        RefinementExpr::UninterpFn { name, args, .. } => {
            let count = usize_to_string(args.len());
            let s = name.clone().concat("@pre_").concat(count.as_str());
            proof {
                assert(e@->UninterpFn_1.len() == args.len());
                assert(s@ =~= name@ + pre_suffix() + seq!['_'] + decimal(args.len() as nat));
            }
            Some(const_name(s))
        },
        RefinementExpr::Old { .. } => None,
    }
}

/// The term of an expression.
fn expr_to_term(e: &RefinementExpr) -> (r: Option<IntTerm>)
    ensures
        match r {
            Some(t) => expr_term(e@) == Some(t@),
            None => expr_term(e@) is None,
        },
    decreases *e,
{
    proof {
        reveal_strlit("_");
        assert("_"@ =~= seq!['_']);
    }
    match e {
        RefinementExpr::Var(n, _, _) => Some(const_name(n.clone())),
        RefinementExpr::IntLit(v, _, _) => Some(IntTerm::Lit(*v)),
        RefinementExpr::AddressLit(a, _, _) => address_term(a),
        RefinementExpr::BoolLit(b, _, _) => Some(IntTerm::Lit(if *b { 1 } else { 0 })),
        RefinementExpr::MsgSender(_, _) => Some(global_const(0)),
        RefinementExpr::MsgValue(_, _) => Some(global_const(1)),
        RefinementExpr::BlockTimestamp(_, _) => Some(global_const(2)),
        RefinementExpr::BinOp { op, lhs, rhs, .. } => {
            let a = expr_to_term(lhs);
            let b = expr_to_term(rhs);
            match (a, b) {
                (Some(a), Some(b)) => Some(make_arith(*op, a, b)),
                _ => None,
            }
        },
        RefinementExpr::UnaryOp { expr, .. } => match expr_to_term(expr) {
            Some(a) => Some(IntTerm::Neg(Box::new(a))),
            None => None,
        },
        RefinementExpr::UninterpFn { name, args, .. } => {
            let count = usize_to_string(args.len());
            let s = name.clone().concat("_").concat(count.as_str());
            proof {
                assert(e@->UninterpFn_1.len() == args.len());
            }
            Some(const_name(s))
        },
        RefinementExpr::Old { expr, .. } => old_expr_to_term(expr),
    }
}

/// The formula of a predicate.
#[verifier::loop_isolation(false)]
fn pred_to_term(p: &Predicate) -> (r: Option<BoolTerm>)
    ensures
        match r {
            Some(t) => pred_term(p@) == Some(t@),
            None => pred_term(p@) is None,
        },
    decreases *p,
{
    proof {
        reveal_strlit("uninterp_");
        assert("uninterp_"@ =~= uninterp_prefix());
    }
    match p {
        Predicate::True(_, _) => Some(BoolTerm::Lit(true)),
        Predicate::False(_, _) => Some(BoolTerm::Lit(false)),
        Predicate::Var(n, _, _) => Some(BoolTerm::Const(n.clone())),
        Predicate::UninterpFnCall { name, args, .. } => {
            let ghost av = p@->UninterpFnCall_1;
            let mut i: usize = 0;
            while i < args.len()
                invariant
                    i <= args.len(),
                    av.len() == args.len(),
                    forall|j: int| 0 <= j < args.len() ==> av[j] == (#[trigger] args@[j])@,
                    forall|j: int| 0 <= j < i ==> (#[trigger] expr_term(av[j])) is Some,
                decreases args.len() - i,
            {
                if expr_to_term(&args[i]).is_none() {
                    return None;
                }
                i = i + 1;
            }
            Some(BoolTerm::Const(String::from_str("uninterp_").concat(name.as_str())))
        },
        Predicate::BinRel { op, lhs, rhs, .. } => {
            let a = expr_to_term(lhs);
            let b = expr_to_term(rhs);
            match (a, b) {
                (Some(a), Some(b)) => Some(make_rel(*op, a, b)),
                _ => None,
            }
        },
        Predicate::And(l, r, _, _) => match (pred_to_term(l), pred_to_term(r)) {
            (Some(a), Some(b)) => Some(BoolTerm::And(Box::new(a), Box::new(b))),
            _ => None,
        },
        Predicate::Or(l, r, _, _) => match (pred_to_term(l), pred_to_term(r)) {
            (Some(a), Some(b)) => Some(BoolTerm::Or(Box::new(a), Box::new(b))),
            _ => None,
        },
        Predicate::Not(q, _, _) => match pred_to_term(q) {
            Some(a) => Some(BoolTerm::Not(Box::new(a))),
            None => None,
        },
        Predicate::Implies(l, r, _, _) => match (pred_to_term(l), pred_to_term(r)) {
            (Some(a), Some(b)) => Some(BoolTerm::Implies(Box::new(a), Box::new(b))),
            _ => None,
        },
    }
}

fn has_nul(s: &String) -> (r: bool)
    ensures
        r == has_nul_char(s@),
{
    let n = s.as_str().unicode_len();
    let mut i: usize = 0;
    while i < n
        invariant
            i <= n,
            n == s@.len(),
            forall|j: int| 0 <= j < i ==> (s@[j] as u32) != 0,
        decreases n - i,
    {
        if s.as_str().get_char(i) as u32 == 0 {
            return true;
        }
        i = i + 1;
    }
    false
}

fn int_names_ok(t: &IntTerm) -> (r: bool)
    ensures
        r == int_term_names_ok(t@),
    decreases *t,
{
    match t {
        IntTerm::Const(n) => !has_nul(n),
        IntTerm::Lit(_) => true,
        IntTerm::Add(a, b) | IntTerm::Sub(a, b) | IntTerm::Mul(a, b) | IntTerm::Div(a, b) | IntTerm::Rem(a, b) => int_names_ok(a) && int_names_ok(b),
        IntTerm::Neg(a) => int_names_ok(a),
    }
}

fn bool_names_ok(t: &BoolTerm) -> (r: bool)
    ensures
        r == bool_term_names_ok(t@),
    decreases *t,
{
    match t {
        BoolTerm::Const(n) => !has_nul(n),
        BoolTerm::Lit(_) => true,
        BoolTerm::And(a, b) | BoolTerm::Or(a, b) | BoolTerm::Implies(a, b) => bool_names_ok(a) && bool_names_ok(b),
        BoolTerm::Not(a) => bool_names_ok(a),
        BoolTerm::Eq(a, b) | BoolTerm::Lt(a, b) | BoolTerm::Le(a, b) | BoolTerm::Gt(a, b) | BoolTerm::Ge(a, b) => int_names_ok(a) && int_names_ok(b),
    }
}

/// The formula of a predicate, or the error that keeps it from the solver.
pub fn translate(p: &Predicate) -> (r: Result<BoolTerm, SmtError>)
    ensures
        match r {
            Ok(t) => translatable(p@) && t@ == pred_term(p@).unwrap(),
            Err(e) => !translatable(p@) && e is InvalidFormula,
        },
{
    proof {
        reveal_strlit("cannot be put to the solver (nested old(), unreadable address literal or NUL in a name)");
    }
    match pred_to_term(p) {
        Some(t) => {
            if bool_names_ok(&t) {
                Ok(t)
            } else {
                Err(SmtError::InvalidFormula(String::from_str("cannot be put to the solver (nested old(), unreadable address literal or NUL in a name)")))
            }
        },
        None => Err(SmtError::InvalidFormula(String::from_str("cannot be put to the solver (nested old(), unreadable address literal or NUL in a name)"))),
    }
}

// ---------------------------------------------------------------------------
// Calls into the solver
// ---------------------------------------------------------------------------

/// The solver's outcome for a check.
pub enum CheckOutcome {
    Sat,
    Unsat,
    Unknown,
}

/// `z3::Config::new`: a default configuration.
#[verifier::external_body]
pub(crate) fn z3_config_new() -> Config {
    Config::new()
}

/// `z3::Context::new`: a context for the configuration.
#[verifier::external_body]
pub(crate) fn z3_context_new(cfg: &Config) -> Context {
    Context::new(cfg)
}

/// `z3::Solver::new`: an empty solver in the context.
#[verifier::external_body]
fn z3_solver_new<'ctx>(ctx: &'ctx Context) -> Solver<'ctx> {
    Solver::new(ctx)
}

/// `z3::Params::new`: an empty parameter set.
#[verifier::external_body]
fn z3_params_new<'ctx>(ctx: &'ctx Context) -> Params<'ctx> {
    Params::new(ctx)
}

/// `z3::Params::set_u32`: sets an integer parameter; the key must be free of
/// NUL characters.
#[verifier::external_body]
fn z3_params_set_u32<'ctx>(params: &mut Params<'ctx>, key: &str, value: u32)
    requires
        !has_nul_char(key@),
{
    params.set_u32(key, value)
}

/// `z3::Solver::set_params`.
#[verifier::external_body]
fn z3_solver_set_params<'ctx>(solver: &Solver<'ctx>, params: &Params<'ctx>) {
    solver.set_params(params)
}

/// `z3::Solver::reset`: drops all assertions.
#[verifier::external_body]
fn z3_solver_reset<'ctx>(solver: &Solver<'ctx>) {
    solver.reset()
}

/// `z3::Solver::assert`.
#[verifier::external_body]
fn z3_solver_assert<'ctx>(solver: &Solver<'ctx>, formula: &Bool<'ctx>) {
    solver.assert(formula)
}

/// `z3::Solver::check`; which outcome comes back is the solver's answer and
/// is not stated here.
#[verifier::external_body]
fn z3_solver_check<'ctx>(solver: &Solver<'ctx>) -> CheckOutcome {
    match solver.check() {
        SatResult::Sat => CheckOutcome::Sat,
        SatResult::Unsat => CheckOutcome::Unsat,
        SatResult::Unknown => CheckOutcome::Unknown,
    }
}

/// `z3::ast::Bool::from_bool`.
#[verifier::external_body]
fn z3_bool_lit<'ctx>(ctx: &'ctx Context, b: bool) -> Bool<'ctx> {
    Bool::from_bool(ctx, b)
}

/// `z3::ast::Bool::new_const`; the name must be free of NUL characters.
#[verifier::external_body]
fn z3_bool_const<'ctx>(ctx: &'ctx Context, name: &str) -> Bool<'ctx>
    requires
        !has_nul_char(name@),
{
    Bool::new_const(ctx, name)
}

/// `z3::ast::Bool::and` of two formulas.
#[verifier::external_body]
fn z3_and<'ctx>(ctx: &'ctx Context, a: &Bool<'ctx>, b: &Bool<'ctx>) -> Bool<'ctx> {
    Bool::and(ctx, &[a, b])
}

/// `z3::ast::Bool::or` of two formulas.
#[verifier::external_body]
fn z3_or<'ctx>(ctx: &'ctx Context, a: &Bool<'ctx>, b: &Bool<'ctx>) -> Bool<'ctx> {
    Bool::or(ctx, &[a, b])
}

/// `z3::ast::Bool::not`.
#[verifier::external_body]
fn z3_not<'ctx>(a: &Bool<'ctx>) -> Bool<'ctx> {
    a.not()
}

/// `z3::ast::Bool::implies`.
#[verifier::external_body]
fn z3_implies<'ctx>(a: &Bool<'ctx>, b: &Bool<'ctx>) -> Bool<'ctx> {
    a.implies(b)
}

/// `z3::ast::Int::new_const`; the name must be free of NUL characters.
#[verifier::external_body]
fn z3_int_const<'ctx>(ctx: &'ctx Context, name: &str) -> Int<'ctx>
    requires
        !has_nul_char(name@),
{
    Int::new_const(ctx, name)
}

/// `z3::ast::Int::from_i64`.
#[verifier::external_body]
fn z3_int_lit<'ctx>(ctx: &'ctx Context, v: i64) -> Int<'ctx> {
    Int::from_i64(ctx, v)
}

/// `z3::ast::Int::add` of two terms.
#[verifier::external_body]
fn z3_add<'ctx>(ctx: &'ctx Context, a: &Int<'ctx>, b: &Int<'ctx>) -> Int<'ctx> {
    Int::add(ctx, &[a, b])
}

/// `z3::ast::Int::sub` of two terms.
#[verifier::external_body]
fn z3_sub<'ctx>(ctx: &'ctx Context, a: &Int<'ctx>, b: &Int<'ctx>) -> Int<'ctx> {
    Int::sub(ctx, &[a, b])
}

/// `z3::ast::Int::mul` of two terms.
#[verifier::external_body]
fn z3_mul<'ctx>(ctx: &'ctx Context, a: &Int<'ctx>, b: &Int<'ctx>) -> Int<'ctx> {
    Int::mul(ctx, &[a, b])
}

/// `z3::ast::Int::div`.
#[verifier::external_body]
fn z3_div<'ctx>(a: &Int<'ctx>, b: &Int<'ctx>) -> Int<'ctx> {
    a.div(b)
}

/// `z3::ast::Int::rem`.
#[verifier::external_body]
fn z3_rem<'ctx>(a: &Int<'ctx>, b: &Int<'ctx>) -> Int<'ctx> {
    a.rem(b)
}

/// `z3::ast::Int::unary_minus`.
#[verifier::external_body]
fn z3_neg<'ctx>(a: &Int<'ctx>) -> Int<'ctx> {
    a.unary_minus()
}

/// `z3::ast::Ast::_eq` on integer terms.
#[verifier::external_body]
fn z3_eq<'ctx>(a: &Int<'ctx>, b: &Int<'ctx>) -> Bool<'ctx> {
    a._eq(b)
}

/// `z3::ast::Int::lt`.
#[verifier::external_body]
fn z3_lt<'ctx>(a: &Int<'ctx>, b: &Int<'ctx>) -> Bool<'ctx> {
    a.lt(b)
}

/// `z3::ast::Int::le`.
#[verifier::external_body]
fn z3_le<'ctx>(a: &Int<'ctx>, b: &Int<'ctx>) -> Bool<'ctx> {
    a.le(b)
}

/// `z3::ast::Int::gt`.
#[verifier::external_body]
fn z3_gt<'ctx>(a: &Int<'ctx>, b: &Int<'ctx>) -> Bool<'ctx> {
    a.gt(b)
}

/// `z3::ast::Int::ge`.
#[verifier::external_body]
fn z3_ge<'ctx>(a: &Int<'ctx>, b: &Int<'ctx>) -> Bool<'ctx> {
    a.ge(b)
}

/// Builds the solver's integer term.
fn emit_int<'ctx>(ctx: &'ctx Context, t: &IntTerm) -> Int<'ctx>
    requires
        int_term_names_ok(t@),
    decreases *t,
{
    match t {
        IntTerm::Const(n) => z3_int_const(ctx, n.as_str()),
        IntTerm::Lit(v) => z3_int_lit(ctx, *v),
        IntTerm::Add(a, b) => {
            let x = emit_int(ctx, a);
            let y = emit_int(ctx, b);
            z3_add(ctx, &x, &y)
        },
        IntTerm::Sub(a, b) => {
            let x = emit_int(ctx, a);
            let y = emit_int(ctx, b);
            z3_sub(ctx, &x, &y)
        },
        IntTerm::Mul(a, b) => {
            let x = emit_int(ctx, a);
            let y = emit_int(ctx, b);
            z3_mul(ctx, &x, &y)
        },
        IntTerm::Div(a, b) => {
            let x = emit_int(ctx, a);
            let y = emit_int(ctx, b);
            z3_div(&x, &y)
        },
        IntTerm::Rem(a, b) => {
            let x = emit_int(ctx, a);
            let y = emit_int(ctx, b);
            z3_rem(&x, &y)
        },
        IntTerm::Neg(a) => {
            let x = emit_int(ctx, a);
            z3_neg(&x)
        },
    }
}

/// Builds the solver's formula.
fn emit_bool<'ctx>(ctx: &'ctx Context, t: &BoolTerm) -> Bool<'ctx>
    requires
        bool_term_names_ok(t@),
    decreases *t,
{
    match t {
        BoolTerm::Const(n) => z3_bool_const(ctx, n.as_str()),
        BoolTerm::Lit(b) => z3_bool_lit(ctx, *b),
        BoolTerm::And(a, b) => {
            let x = emit_bool(ctx, a);
            let y = emit_bool(ctx, b);
            z3_and(ctx, &x, &y)
        },
        BoolTerm::Or(a, b) => {
            let x = emit_bool(ctx, a);
            let y = emit_bool(ctx, b);
            z3_or(ctx, &x, &y)
        },
        BoolTerm::Not(a) => {
            let x = emit_bool(ctx, a);
            z3_not(&x)
        },
        BoolTerm::Implies(a, b) => {
            let x = emit_bool(ctx, a);
            let y = emit_bool(ctx, b);
            z3_implies(&x, &y)
        },
        BoolTerm::Eq(a, b) => {
            let x = emit_int(ctx, a);
            let y = emit_int(ctx, b);
            z3_eq(&x, &y)
        },
        BoolTerm::Lt(a, b) => {
            let x = emit_int(ctx, a);
            let y = emit_int(ctx, b);
            z3_lt(&x, &y)
        },
        BoolTerm::Le(a, b) => {
            let x = emit_int(ctx, a);
            let y = emit_int(ctx, b);
            z3_le(&x, &y)
        },
        BoolTerm::Gt(a, b) => {
            let x = emit_int(ctx, a);
            let y = emit_int(ctx, b);
            z3_gt(&x, &y)
        },
        BoolTerm::Ge(a, b) => {
            let x = emit_int(ctx, a);
            let y = emit_int(ctx, b);
            z3_ge(&x, &y)
        },
    }
}

// ---------------------------------------------------------------------------
// The query interface
// ---------------------------------------------------------------------------

/// A query that was answered: assumptions, antecedent, consequent, answer.
pub type CachedQuery = (Seq<PredV>, PredV, PredV, SmtResult);

/// Where a query occurs in the cache, if it does.
pub open spec fn cache_find(cache: Seq<CachedQuery>, a: Seq<PredV>, ante: PredV, cons: PredV) -> Option<int> {
    if exists|i: int| 0 <= i < cache.len() && (#[trigger] cache[i]).0 == a && cache[i].1 == ante && cache[i].2 == cons {
        Some(choose|i: int| 0 <= i < cache.len() && (#[trigger] cache[i]).0 == a && cache[i].1 == ante && cache[i].2 == cons)
    } else {
        None
    }
}

/// Checks implications with Z3, remembering the answer of each query.
pub struct SmtSolver<'ctx> {
    context: &'ctx Context,
    solver: Solver<'ctx>,
    timeout_ms: u32,
    query_cache: Vec<(Vec<Predicate>, Predicate, Predicate, SmtResult)>,
}

pub open spec fn cache_entry_view(e: (Vec<Predicate>, Predicate, Predicate, SmtResult)) -> CachedQuery {
    (preds_view(e.0@), e.1@, e.2@, e.3)
}

impl<'ctx> SmtSolver<'ctx> {
    /// The queries answered so far, in order.
    pub closed spec fn cache(&self) -> Seq<CachedQuery> {
        self.query_cache@.map_values(|e: (Vec<Predicate>, Predicate, Predicate, SmtResult)| cache_entry_view(e))
    }

    pub closed spec fn timeout(&self) -> u32 {
        self.timeout_ms
    }

    /// A solver with the default timeout of five seconds (kept as a number;
    /// the solver is not told of it).
    pub fn new(context: &'ctx Context) -> (r: Self)
        ensures
            r.cache().len() == 0,
            r.cache_consistent(),
            r.timeout() == 5000,
    {
        let solver = z3_solver_new(context);
        let r = SmtSolver { context, solver, timeout_ms: 5000, query_cache: Vec::new() };
        r
    }

    /// A solver whose queries time out after `timeout_ms` milliseconds.
    pub fn with_timeout(context: &'ctx Context, timeout_ms: u32) -> (r: Self)
        ensures
            r.cache().len() == 0,
            r.cache_consistent(),
            r.timeout() == timeout_ms,
    {
        let solver = z3_solver_new(context);
        let mut params = z3_params_new(context);
        proof {
            reveal_strlit("timeout");
        }
        z3_params_set_u32(&mut params, "timeout", timeout_ms);
        z3_solver_set_params(&solver, &params);
        SmtSolver { context, solver, timeout_ms, query_cache: Vec::new() }
    }

    #[verifier::loop_isolation(false)]
    fn find_cached(&self, assumptions: &Vec<Predicate>, antecedent: &Predicate, consequent: &Predicate) -> (r: Option<SmtResult>)
        requires
            self.cache_consistent(),
        ensures
            match r {
                Some(res) => cache_find(self.cache(), preds_view(assumptions@), antecedent@, consequent@) is Some
                    && res == self.cache()[cache_find(self.cache(), preds_view(assumptions@), antecedent@, consequent@).unwrap()].3,
                None => cache_find(self.cache(), preds_view(assumptions@), antecedent@, consequent@) is None,
            },
    {
        let ghost a = preds_view(assumptions@);
        let mut i: usize = 0;
        while i < self.query_cache.len()
            invariant
                i <= self.query_cache.len(),
                self.cache_consistent(),
                a == preds_view(assumptions@),
                forall|j: int| 0 <= j < i ==> !((#[trigger] self.cache()[j]).0 == a && self.cache()[j].1 == antecedent@ && self.cache()[j].2 == consequent@),
            decreases self.query_cache.len() - i,
        {
            let e = &self.query_cache[i];
            if e.0.len() == assumptions.len() && pred_eq(&e.1, antecedent) && pred_eq(&e.2, consequent) {
                let mut k: usize = 0;
                let mut same = true;
                while k < assumptions.len()
                    invariant
                        k <= assumptions.len(),
                        e.0.len() == assumptions.len(),
                        same == forall|m: int| 0 <= m < k ==> (#[trigger] e.0@[m])@ == assumptions@[m]@,
                    decreases assumptions.len() - k,
                {
                    if !pred_eq(&e.0[k], &assumptions[k]) {
                        same = false;
                    }
                    k = k + 1;
                }
                proof {
                    assert(self.cache()[i as int] == cache_entry_view(*e));
                    if same {
                        assert(preds_view(e.0@) =~= a);
                    } else {
                        let m = choose|m: int| 0 <= m < assumptions.len() && !((#[trigger] e.0@[m])@ == assumptions@[m]@);
                        assert(preds_view(e.0@)[m] != a[m]);
                    }
                }
                if same {
                    proof {
                        let idx = cache_find(self.cache(), a, antecedent@, consequent@).unwrap();
                        // every cached copy of a query has the same answer
                        lemma_cache_answers_agree(self, idx, i as int);
                    }
                    return Some(e.3);
                }
            }
            proof {
                assert(self.cache()[i as int] == cache_entry_view(*e));
            }
            i = i + 1;
        }
        None
    }

    /// Whether `assumptions ∧ antecedent ⇒ consequent` holds: the solver is
    /// asked whether `assumptions ∧ antecedent ∧ ¬consequent` is
    /// unsatisfiable. A query asked before gets the answer it got then.
    /// What the solver answers to a new query is not stated; a query with a
    /// predicate that cannot be put to the solver is refused.
    #[verifier::loop_isolation(false)]
    pub fn is_valid_implication(&mut self, assumptions: &Vec<Predicate>, antecedent: &Predicate, consequent: &Predicate) -> (r: Result<bool, SmtError>)
        requires
            old(self).cache_consistent(),
        ensures
            final(self).cache_consistent(),
            final(self).timeout() == old(self).timeout(),
            !query_translatable(preds_view(assumptions@), antecedent@, consequent@) ==> r is Err && r->Err_0 is InvalidFormula,
            match cache_find(old(self).cache(), preds_view(assumptions@), antecedent@, consequent@) {
                Some(i) => r == Ok::<bool, SmtError>(old(self).cache()[i].3 == SmtResult::Unsatisfiable) && final(self).cache() == old(self).cache(),
                None => {
                    ||| ((exists|j: int| 0 <= j < assumptions.len() && !translatable((#[trigger] assumptions@[j])@))
                        || !translatable(antecedent@) || !translatable(consequent@)) && r is Err && r->Err_0 is InvalidFormula
                        && final(self).cache() == old(self).cache()
                    ||| (forall|j: int| 0 <= j < assumptions.len() ==> translatable((#[trigger] assumptions@[j])@))
                        && translatable(antecedent@) && translatable(consequent@)
                        && exists|res: SmtResult| {
                            &&& final(self).cache() == old(self).cache().push((preds_view(assumptions@), antecedent@, consequent@, res))
                            &&& r == Ok::<bool, SmtError>(res == SmtResult::Unsatisfiable)
                            &&& (res == SmtResult::Unsatisfiable || res == SmtResult::Satisfiable || res == SmtResult::Unknown)
                        }
                },
            },
    {
        match self.find_cached(assumptions, antecedent, consequent) {
            Some(res) => {
                proof {
                    let idx = cache_find(self.cache(), preds_view(assumptions@), antecedent@, consequent@).unwrap();
                    assert(query_translatable(self.cache()[idx].0, self.cache()[idx].1, self.cache()[idx].2));
                    assert forall|j: int| 0 <= j < assumptions.len() implies translatable((#[trigger] assumptions@[j])@) by {
                        assert(preds_view(assumptions@)[j] == assumptions@[j]@);
                    }
                }
                return Ok(res == SmtResult::Unsatisfiable);
            },
            None => {},
        }
        let mut terms: Vec<BoolTerm> = Vec::new();
        let mut i: usize = 0;
        while i < assumptions.len()
            invariant
                i <= assumptions.len(),
                terms.len() == i,
                forall|j: int| 0 <= j < i ==> translatable((#[trigger] assumptions@[j])@),
                forall|j: int| 0 <= j < i ==> bool_term_names_ok((#[trigger] terms@[j])@),
            decreases assumptions.len() - i,
        {
            match translate(&assumptions[i]) {
                Ok(t) => terms.push(t),
                Err(e) => {
                    proof {
                        assert(!translatable(assumptions@[i as int]@));
                    }
                    return Err(e);
                },
            }
            i = i + 1;
        }
        let ante = match translate(antecedent) {
            Ok(t) => t,
            Err(e) => return Err(e),
        };
        let cons = match translate(consequent) {
            Ok(t) => t,
            Err(e) => return Err(e),
        };
        z3_solver_reset(&self.solver);
        let mut k: usize = 0;
        while k < terms.len()
            invariant
                k <= terms.len(),
                forall|j: int| 0 <= j < terms.len() ==> bool_term_names_ok((#[trigger] terms@[j])@),
            decreases terms.len() - k,
        {
            let f = emit_bool(self.context, &terms[k]);
            z3_solver_assert(&self.solver, &f);
            k = k + 1;
        }
        let fa = emit_bool(self.context, &ante);
        z3_solver_assert(&self.solver, &fa);
        let fc = emit_bool(self.context, &cons);
        let nfc = z3_not(&fc);
        z3_solver_assert(&self.solver, &nfc);
        let result = match z3_solver_check(&self.solver) {
            CheckOutcome::Unsat => SmtResult::Unsatisfiable,
            CheckOutcome::Sat => SmtResult::Satisfiable,
            CheckOutcome::Unknown => SmtResult::Unknown,
        };
        let ghost before = self.cache();
        self.query_cache.push((clone_preds(assumptions), antecedent.clone(), consequent.clone(), result));
        proof {
            assert(self.cache() =~= before.push((preds_view(assumptions@), antecedent@, consequent@, result)));
            lemma_push_consistent(before, (preds_view(assumptions@), antecedent@, consequent@, result));
            assert forall|j: int| 0 <= j < preds_view(assumptions@).len() implies translatable(#[trigger] preds_view(assumptions@)[j]) by {
                assert(preds_view(assumptions@)[j] == assumptions@[j]@);
            }
            assert forall|i: int| 0 <= i < self.cache().len() implies query_translatable(
                (#[trigger] self.cache()[i]).0,
                self.cache()[i].1,
                self.cache()[i].2,
            ) by {
                if i < before.len() {
                    assert(self.cache()[i] == before[i]);
                }
            }
            assert(self.cache() == old(self).cache().push((preds_view(assumptions@), antecedent@, consequent@, result)));
        }
        Ok(result == SmtResult::Unsatisfiable)
    }

    /// Whether a predicate has a model. The solver's answer is not stated; a
    /// predicate that cannot be put to the solver is refused.
    pub fn is_satisfiable(&mut self, predicate: &Predicate) -> (r: Result<bool, SmtError>)
        ensures
            translatable(predicate@) <==> r is Ok,
            r is Err ==> r->Err_0 is InvalidFormula,
            final(self).cache() == old(self).cache(),
            final(self).timeout() == old(self).timeout(),
    {
        let t = match translate(predicate) {
            Ok(t) => t,
            Err(e) => return Err(e),
        };
        z3_solver_reset(&self.solver);
        let f = emit_bool(self.context, &t);
        z3_solver_assert(&self.solver, &f);
        match z3_solver_check(&self.solver) {
            CheckOutcome::Sat => Ok(true),
            _ => Ok(false),
        }
    }

    /// Forgets all answers.
    pub fn clear_cache(&mut self)
        ensures
            final(self).cache().len() == 0,
            final(self).timeout() == old(self).timeout(),
    {
        self.query_cache = Vec::new();
        proof {
            assert(self.cache() =~= Seq::<CachedQuery>::empty());
        }
    }

    /// (queries remembered, of which valid, of which not valid).
    pub fn cache_stats(&self) -> (r: (usize, usize, usize))
        ensures
            r.0 == self.cache().len(),
            r.1 == count_valid(self.cache()),
            r.0 == r.1 + r.2,
    {
        let mut valid: usize = 0;
        let mut i: usize = 0;
        while i < self.query_cache.len()
            invariant
                i <= self.query_cache.len(),
                valid == count_valid(self.cache().subrange(0, i as int)),
                valid <= i,
            decreases self.query_cache.len() - i,
        {
            proof {
                assert(self.cache().subrange(0, i + 1).drop_last() =~= self.cache().subrange(0, i as int));
                assert(self.cache()[i as int] == cache_entry_view(self.query_cache@[i as int]));
            }
            if self.query_cache[i].3 == SmtResult::Unsatisfiable {
                valid = valid + 1;
            }
            i = i + 1;
        }
        proof {
            assert(self.cache().subrange(0, self.query_cache.len() as int) =~= self.cache());
        }
        (self.query_cache.len(), valid, self.query_cache.len() - valid)
    }

    /// Every query occurs with one answer only.
    pub closed spec fn cache_consistent(&self) -> bool {
        cache_consistent(self.cache()) && cache_translatable(self.cache())
    }
}

/// The number of remembered queries that were valid.
pub open spec fn count_valid(c: Seq<CachedQuery>) -> nat
    decreases c.len(),
{
    if c.len() == 0 {
        0
    } else {
        count_valid(c.drop_last()) + if c.last().3 == SmtResult::Unsatisfiable { 1nat } else { 0nat }
    }
}

/// Whether every predicate of a query can be put to the solver.
pub open spec fn query_translatable(a: Seq<PredV>, ante: PredV, cons: PredV) -> bool {
    &&& forall|j: int| 0 <= j < a.len() ==> translatable(#[trigger] a[j])
    &&& translatable(ante)
    &&& translatable(cons)
}

/// Whether every remembered query could be put to the solver.
pub open spec fn cache_translatable(c: Seq<CachedQuery>) -> bool {
    forall|i: int| 0 <= i < c.len() ==> query_translatable((#[trigger] c[i]).0, c[i].1, c[i].2)
}

pub open spec fn cache_consistent(c: Seq<CachedQuery>) -> bool {
    forall|i: int, j: int|
        0 <= i < c.len() && 0 <= j < c.len() && (#[trigger] c[i]).0 == (#[trigger] c[j]).0 && c[i].1 == c[j].1 && c[i].2 == c[j].2
            ==> c[i].3 == c[j].3
}

proof fn lemma_cache_answers_agree<'ctx>(s: &SmtSolver<'ctx>, i: int, j: int)
    requires
        s.cache_consistent(),
        0 <= i < s.cache().len(),
        0 <= j < s.cache().len(),
        s.cache()[i].0 == s.cache()[j].0,
        s.cache()[i].1 == s.cache()[j].1,
        s.cache()[i].2 == s.cache()[j].2,
    ensures
        s.cache()[i].3 == s.cache()[j].3,
{
}

/// A query asked again gets the answer it got before: once a query with its
/// answer is remembered, the remembered answer found for it is that one.
pub proof fn lemma_repeated_query<'ctx>(s: &SmtSolver<'ctx>, i: int)
    requires
        s.cache_consistent(),
        0 <= i < s.cache().len(),
    ensures
        cache_find(s.cache(), s.cache()[i].0, s.cache()[i].1, s.cache()[i].2) is Some,
        s.cache()[cache_find(s.cache(), s.cache()[i].0, s.cache()[i].1, s.cache()[i].2).unwrap()].3 == s.cache()[i].3,
{
    let c = s.cache();
    assert(0 <= i < c.len() && c[i].0 == c[i].0 && c[i].1 == c[i].1 && c[i].2 == c[i].2);
    let k = cache_find(c, c[i].0, c[i].1, c[i].2).unwrap();
    lemma_cache_answers_agree(s, k, i);
}

proof fn lemma_push_consistent(c: Seq<CachedQuery>, e: CachedQuery)
    requires
        cache_consistent(c),
        cache_find(c, e.0, e.1, e.2) is None,
    ensures
        cache_consistent(c.push(e)),
{
    let d = c.push(e);
    assert forall|i: int, j: int|
        0 <= i < d.len() && 0 <= j < d.len() && (#[trigger] d[i]).0 == (#[trigger] d[j]).0 && d[i].1 == d[j].1 && d[i].2 == d[j].2
        implies d[i].3 == d[j].3 by {
        if i < c.len() && j < c.len() {
            assert(d[i] == c[i] && d[j] == c[j]);
        } else if i < c.len() {
            assert(c[i].0 == e.0 && c[i].1 == e.1 && c[i].2 == e.2);
        } else if j < c.len() {
            assert(c[j].0 == e.0 && c[j].1 == e.1 && c[j].2 == e.2);
        }
    }
}

} // verus!
