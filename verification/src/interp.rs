//! The tree-walking interpreter.
//!
//! Evaluation is defined twice: once as a family of specification functions
//! that thread the environment through every step, and once as executable
//! code proved equal to them. The environment is a stack of bindings;
//! entering a block remembers the stack depth and leaving it truncates back,
//! which gives block scoping, and a call builds a fresh stack from the
//! callee's parameters. Every evaluation carries a fuel budget: each
//! recursive step spends one unit, and running out reports a memory error,
//! the way a host interpreter dies on a runaway recursion.

use vstd::prelude::*;

use crate::ast::Expr;
use crate::ast::File;
use crate::ast::FnDecl;
use crate::ast::Ident;
use crate::ast::Item;
use crate::ast::Op;
use crate::ast::Span;
use crate::ast::SpanExpr;
use crate::ast::SpanOp;
use crate::ast::Symbol;
use crate::ast::Val;

verus! {

/// A value paired with the span it came from.
pub type SpanVal = (Span, Val);

/// A fault of the evaluated program: a value of the wrong kind, an
/// expression that cannot be evaluated, or an exhausted environment
/// (an unbound name, or no fuel left).
#[derive(Debug, Clone, Copy, PartialEq, Eq, Structural)]
pub enum RuntimeError {
    TypeError(Span),
    InvalidExpression(Span),
    MemoryError(Span),
}

/// The binding stack: innermost bindings last.
pub struct Env {
    pub bindings: Vec<(Symbol, Val)>,
}

/// The latest binding of `x`, searching from the innermost end.
pub open spec fn spec_env_lookup(m: Seq<(Symbol, Val)>, x: Symbol) -> Option<Val>
    decreases m.len(),
{
    if m.len() == 0 {
        None
    } else if m.last().0 == x {
        Some(m.last().1)
    } else {
        spec_env_lookup(m.drop_last(), x)
    }
}

/// The stack after overwriting the latest binding of `x`, or `None` when
/// `x` is unbound.
pub open spec fn spec_env_assign(m: Seq<(Symbol, Val)>, x: Symbol, v: Val) -> Option<
    Seq<(Symbol, Val)>,
>
    decreases m.len(),
{
    if m.len() == 0 {
        None
    } else if m.last().0 == x {
        Some(m.update(m.len() - 1, (x, v)))
    } else {
        match spec_env_assign(m.drop_last(), x, v) {
            Some(m2) => Some(m2.push(m.last())),
            None => None,
        }
    }
}

impl Env {
    /// An empty binding stack.
    pub fn new() -> (r: Env)
        ensures
            r.bindings@.len() == 0,
    {
        Env { bindings: Vec::new() }
    }

    /// Bind `x` to `v` in the current scope.
    pub fn store(&mut self, x: Symbol, v: Val)
        ensures
            final(self).bindings@ == old(self).bindings@.push((x, v)),
    {
        self.bindings.push((x, v));
    }

    /// Load the nearest binding of `x`.
    pub fn load(&self, x: Symbol) -> (r: Option<Val>)
        ensures
            r == spec_env_lookup(self.bindings@, x),
    {
        let mut i: usize = self.bindings.len();
        proof {
            assert(self.bindings@.take(i as int) =~= self.bindings@);
        }
        while i > 0
            invariant
                i <= self.bindings@.len(),
                spec_env_lookup(self.bindings@, x) == spec_env_lookup(
                    self.bindings@.take(i as int),
                    x,
                ),
            decreases i,
        {
            i = i - 1;
            let e = self.bindings[i];
            proof {
                assert(self.bindings@.take(i + 1).last() == self.bindings@[i as int]);
                assert(self.bindings@.take(i + 1).drop_last() =~= self.bindings@.take(i as int));
            }
            if e.0 == x {
                return Some(e.1);
            }
        }
        None
    }

    /// Overwrite the nearest binding of `x`; reports whether one existed.
    pub fn assign(&mut self, x: Symbol, v: Val) -> (ok: bool)
        ensures
            match spec_env_assign(old(self).bindings@, x, v) {
                Some(m2) => ok && final(self).bindings@ == m2,
                None => !ok && final(self).bindings@ == old(self).bindings@,
            },
    {
        let ghost m0 = self.bindings@;
        let mut i: usize = self.bindings.len();
        proof {
            assert(m0.take(i as int) =~= m0);
            lemma_env_assign_frame(m0, i as int, x, v);
        }
        while i > 0
            invariant
                m0 == old(self).bindings@,
                self.bindings@ == m0,
                i <= m0.len(),
                match spec_env_assign(m0, x, v) {
                    Some(m2) => spec_env_assign(m0.take(i as int), x, v) matches Some(p) && m2
                        == p + m0.skip(i as int),
                    None => spec_env_assign(m0.take(i as int), x, v) is None,
                },
            decreases i,
        {
            i = i - 1;
            let e = self.bindings[i];
            proof {
                assert(m0.take(i + 1).last() == m0[i as int]);
                assert(m0.take(i + 1).drop_last() =~= m0.take(i as int));
            }
            if e.0 == x {
                self.bindings.set(i, (x, v));
                proof {
                    assert(spec_env_assign(m0.take(i + 1), x, v) == Some(
                        m0.take(i + 1).update(i as int, (x, v)),
                    ));
                    let whole = spec_env_assign(m0, x, v);
                    assert(whole is Some);
                    let m2 = whole->Some_0;
                    assert(m2 == m0.take(i + 1).update(i as int, (x, v)) + m0.skip(i + 1));
                    assert(self.bindings@ =~= m0.take(i + 1).update(i as int, (x, v)) + m0.skip(
                        i + 1,
                    ));
                    assert(self.bindings@ == m2);
                }
                return true;
            }
        }
        proof {
            assert(m0.take(0) =~= Seq::<(Symbol, Val)>::empty());
        }
        false
    }

    /// Cut the stack back to `n` bindings: leave a block.
    pub fn truncate(&mut self, n: usize)
        ensures
            final(self).bindings@ == old(self).bindings@.take(
                if n <= old(self).bindings@.len() {
                    n as int
                } else {
                    old(self).bindings@.len() as int
                },
            ),
    {
        self.bindings.truncate(n);
        proof {
            if n <= old(self).bindings@.len() {
                assert(self.bindings@ =~= old(self).bindings@.take(n as int));
            } else {
                assert(self.bindings@ =~= old(self).bindings@.take(
                    old(self).bindings@.len() as int,
                ));
            }
        }
    }

    /// Current stack depth.
    pub fn depth(&self) -> (n: usize)
        ensures
            n == self.bindings@.len(),
    {
        self.bindings.len()
    }
}

/// Splitting an assignment at `i`: the result on the whole stack is the
/// result on the first `i` bindings followed by the rest, as long as the
/// rest holds no binding of `x`.
proof fn lemma_env_assign_frame(m: Seq<(Symbol, Val)>, i: int, x: Symbol, v: Val)
    requires
        0 <= i <= m.len(),
        forall|j: int| i <= j < m.len() ==> (#[trigger] m[j]).0 != x,
    ensures
        match spec_env_assign(m, x, v) {
            Some(m2) => spec_env_assign(m.take(i), x, v) matches Some(p) && m2 == p + m.skip(i),
            None => spec_env_assign(m.take(i), x, v) is None,
        },
    decreases m.len() - i,
{
    if i == m.len() {
        assert(m.take(i) =~= m);
        match spec_env_assign(m, x, v) {
            Some(m2) => {
                assert(m.skip(i) =~= Seq::<(Symbol, Val)>::empty());
                assert(m2 == m2 + m.skip(i));
            }
            None => {}
        }
    } else {
        lemma_env_assign_frame(m.drop_last(), i, x, v);
        assert(m.last().0 != x);
        assert(m.drop_last().take(i) =~= m.take(i));
        match spec_env_assign(m, x, v) {
            Some(m2) => {
                match spec_env_assign(m.drop_last(), x, v) {
                    Some(md) => {
                        let p = spec_env_assign(m.take(i), x, v)->Some_0;
                        assert(md == p + m.drop_last().skip(i));
                        assert(m2 == md.push(m.last()));
                        assert(m2 =~= p + m.skip(i));
                    }
                    None => {}
                }
            }
            None => {}
        }
    }
}

/// The first function item named `sym`.
pub open spec fn spec_find_function(items: Seq<Item>, sym: Symbol) -> Option<FnDecl>
    decreases items.len(),
{
    if items.len() == 0 {
        None
    } else {
        match items[0] {
            Item::Fn(f) => if f.ident.sym == sym {
                Some(f)
            } else {
                spec_find_function(items.skip(1), sym)
            },
        }
    }
}

/// The result of a binary operation, per the operand kinds: booleans take
/// the four logical comparisons, integers take arithmetic (two's-complement
/// wrapping) and comparisons, division and modulo refuse a zero divisor and
/// the overflowing `i32::MIN / -1` pair, and a kind mismatch is a type
/// error at the right operand.
pub open spec fn spec_compute_binop(left: SpanVal, op: SpanOp, right: SpanVal) -> Result<
    Val,
    RuntimeError,
> {
    match (left.1, right.1) {
        (Val::Bool(bl), Val::Bool(br)) => match op.op {
            Op::Equal => Ok(Val::Bool(bl == br)),
            Op::NotEq => Ok(Val::Bool(bl != br)),
            Op::And => Ok(Val::Bool(bl && br)),
            Op::Or => Ok(Val::Bool(bl || br)),
            _ => Err(RuntimeError::InvalidExpression(op.span)),
        },
        (Val::Num(il), Val::Num(ir)) => match op.op {
            Op::Equal => Ok(Val::Bool(il == ir)),
            Op::NotEq => Ok(Val::Bool(il != ir)),
            Op::LessThan => Ok(Val::Bool(il < ir)),
            Op::LessEq => Ok(Val::Bool(il <= ir)),
            Op::LargerThan => Ok(Val::Bool(il > ir)),
            Op::LargerEq => Ok(Val::Bool(il >= ir)),
            Op::Add => Ok(Val::Num(il.wrapping_add(ir))),
            Op::Sub => Ok(Val::Num(il.wrapping_sub(ir))),
            Op::Mul => Ok(Val::Num(il.wrapping_mul(ir))),
            Op::Div => match il.checked_div(ir) {
                Some(q) => Ok(Val::Num(q)),
                None => Err(RuntimeError::InvalidExpression(op.span)),
            },
            Op::Mod => match il.checked_rem(ir) {
                Some(q) => Ok(Val::Num(q)),
                None => Err(RuntimeError::InvalidExpression(op.span)),
            },
            _ => Err(RuntimeError::InvalidExpression(op.span)),
        },
        _ => Err(RuntimeError::TypeError(right.0)),
    }
}

/// The result of a unary operation: `Sub` negates an integer (wrapping),
/// `Not` inverts a boolean, anything else is invalid.
pub open spec fn spec_compute_unop(op: SpanOp, right: SpanVal) -> Result<Val, RuntimeError> {
    match (op.op, right.1) {
        (Op::Sub, Val::Num(v)) => Ok(Val::Num((0i32).wrapping_sub(v))),
        (Op::Not, Val::Bool(b)) => Ok(Val::Bool(!b)),
        _ => Err(RuntimeError::InvalidExpression(op.span)),
    }
}

/// A value result placed at a span.
pub open spec fn spec_map_res(span: Span, res: Result<Val, RuntimeError>) -> Result<
    SpanVal,
    RuntimeError,
> {
    match res {
        Ok(v) => Ok((span, v)),
        Err(e) => Err(e),
    }
}

/// Place a value result at a span.
pub fn map_res(span: Span, res: Result<Val, RuntimeError>) -> (r: Result<SpanVal, RuntimeError>)
    ensures
        r == spec_map_res(span, res),
{
    match res {
        Ok(v) => Ok((span, v)),
        Err(err) => Err(err),
    }
}

/// The integer a value holds; a boolean is a type error at the value's span.
pub fn get_int(value: &SpanVal) -> (r: Result<i32, RuntimeError>)
    ensures
        value.1 matches Val::Num(v) ==> r == Ok::<i32, RuntimeError>(v),
        value.1 is Bool ==> r == Err::<i32, RuntimeError>(RuntimeError::TypeError(value.0)),
{
    match value.1 {
        Val::Num(v) => Ok(v),
        _ => Err(RuntimeError::TypeError(value.0)),
    }
}

/// The boolean a value holds; an integer is a type error at the value's span.
pub fn get_bool(value: &SpanVal) -> (r: Result<bool, RuntimeError>)
    ensures
        value.1 matches Val::Bool(b) ==> r == Ok::<bool, RuntimeError>(b),
        value.1 is Num ==> r == Err::<bool, RuntimeError>(RuntimeError::TypeError(value.0)),
{
    match value.1 {
        Val::Bool(b) => Ok(b),
        _ => Err(RuntimeError::TypeError(value.0)),
    }
}

/// The symbol an identifier expression names; anything else is invalid.
pub fn get_ident(expr: &SpanExpr) -> (r: Result<Symbol, RuntimeError>)
    ensures
        expr.expr matches Expr::Ident(s) ==> r == Ok::<Symbol, RuntimeError>(s),
        !(expr.expr is Ident) ==> r == Err::<Symbol, RuntimeError>(
            RuntimeError::InvalidExpression(expr.span),
        ),
{
    match expr.expr {
        Expr::Ident(s) => Ok(s),
        _ => Err(RuntimeError::InvalidExpression(expr.span)),
    }
}

proof fn lemma_find_function_skip(items: Seq<Item>, sym: Symbol, i: int)
    requires
        0 <= i <= items.len(),
        forall|j: int|
            0 <= j < i ==> !((#[trigger] items[j]) matches Item::Fn(f) && f.ident.sym == sym),
    ensures
        spec_find_function(items, sym) == spec_find_function(items.skip(i), sym),
    decreases i,
{
    if i > 0 {
        lemma_find_function_skip(items, sym, i - 1);
        assert(items.skip(i - 1)[0] == items[i - 1]);
        assert(items.skip(i - 1).skip(1) =~= items.skip(i));
    } else {
        assert(items.skip(0) =~= items);
    }
}

/// Find the first function named `ident`: its index among the items, or an
/// invalid-expression error when no such function exists.
pub fn get_function(ident: Symbol, ast: &File) -> (r: Result<usize, RuntimeError>)
    ensures
        r matches Ok(i) ==> i < ast.items@.len() && (ast.items@[i as int] matches Item::Fn(f)
            && f.ident.sym == ident && spec_find_function(ast.items@, ident) == Some(f)),
        r is Err ==> spec_find_function(ast.items@, ident) is None && r == Err::<
            usize,
            RuntimeError,
        >(RuntimeError::InvalidExpression(Span { file: 0, offset: 0, len: 0 })),
{
    let n = ast.items.len();
    let mut i: usize = 0;
    while i < n
        invariant
            n == ast.items@.len(),
            i <= n,
            forall|j: int|
                0 <= j < i ==> !((#[trigger] ast.items@[j]) matches Item::Fn(f) && f.ident.sym
                    == ident),
        decreases n - i,
    {
        match &ast.items[i] {
            Item::Fn(f) => {
                if f.ident.sym == ident {
                    proof {
                        lemma_find_function_skip(ast.items@, ident, i as int);
                        assert(ast.items@.skip(i as int)[0] == ast.items@[i as int]);
                    }
                    return Ok(i);
                }
            }
        }
        i = i + 1;
    }
    proof {
        lemma_find_function_skip(ast.items@, ident, n as int);
        assert(ast.items@.skip(n as int) =~= Seq::<Item>::empty());
    }
    Err(RuntimeError::InvalidExpression(Span { file: 0, offset: 0, len: 0 }))
}

/// Apply a binary operator to two evaluated operands.
pub fn compute_binop(left: SpanVal, op: SpanOp, right: SpanVal) -> (r: Result<Val, RuntimeError>)
    ensures
        r == spec_compute_binop(left, op, right),
{
    match (left.1, right.1) {
        (Val::Bool(bl), Val::Bool(br)) => match op.op {
            Op::Equal => Ok(Val::Bool(bl == br)),
            Op::NotEq => Ok(Val::Bool(bl != br)),
            Op::And => Ok(Val::Bool(bl && br)),
            Op::Or => Ok(Val::Bool(bl || br)),
            _ => Err(RuntimeError::InvalidExpression(op.span)),
        },
        (Val::Num(il), Val::Num(ir)) => match op.op {
            Op::Equal => Ok(Val::Bool(il == ir)),
            Op::NotEq => Ok(Val::Bool(il != ir)),
            Op::LessThan => Ok(Val::Bool(il < ir)),
            Op::LessEq => Ok(Val::Bool(il <= ir)),
            Op::LargerThan => Ok(Val::Bool(il > ir)),
            Op::LargerEq => Ok(Val::Bool(il >= ir)),
            Op::Add => Ok(Val::Num(il.wrapping_add(ir))),
            Op::Sub => Ok(Val::Num(il.wrapping_sub(ir))),
            Op::Mul => Ok(Val::Num(il.wrapping_mul(ir))),
            Op::Div => match il.checked_div(ir) {
                Some(q) => Ok(Val::Num(q)),
                None => Err(RuntimeError::InvalidExpression(op.span)),
            },
            Op::Mod => match il.checked_rem(ir) {
                Some(q) => Ok(Val::Num(q)),
                None => Err(RuntimeError::InvalidExpression(op.span)),
            },
            _ => Err(RuntimeError::InvalidExpression(op.span)),
        },
        _ => Err(RuntimeError::TypeError(right.0)),
    }
}

/// Apply a unary operator to an evaluated operand.
pub fn compute_unop(op: SpanOp, right: SpanVal) -> (r: Result<Val, RuntimeError>)
    ensures
        r == spec_compute_unop(op, right),
{
    match (op.op, right.1) {
        (Op::Sub, Val::Num(v)) => Ok(Val::Num((0i32).wrapping_sub(v))),
        (Op::Not, Val::Bool(b)) => Ok(Val::Bool(!b)),
        _ => Err(RuntimeError::InvalidExpression(op.span)),
    }
}

/// Both values are of the same kind: both integers, or both booleans.
pub open spec fn same_kind(a: Val, b: Val) -> bool {
    a is Num <==> b is Num
}

/// For `Add`, `Mul`, `And`, `Or`, `Equal` and `NotEq`, swapping same-kind
/// operands does not change the result of the binary operation.
pub proof fn lemma_compute_binop_commutative(left: SpanVal, op: SpanOp, right: SpanVal)
    requires
        op.op is Add || op.op is Mul || op.op is And || op.op is Or || op.op is Equal || op.op
            is NotEq,
        same_kind(left.1, right.1),
    ensures
        spec_compute_binop(left, op, right) == spec_compute_binop(right, op, left),
{
    match (left.1, right.1) {
        (Val::Num(il), Val::Num(ir)) => {
            if op.op is Add {
                assert(il.wrapping_add(ir) == ir.wrapping_add(il));
            }
            if op.op is Mul {
                assert(il * ir == ir * il) by (nonlinear_arith);
                assert(il.wrapping_mul(ir) == ir.wrapping_mul(il));
            }
        }
        _ => {}
    }
}

/// Dividing or taking the remainder by zero short-circuits into an invalid
/// expression reported at the operator's span.
pub proof fn lemma_compute_binop_div_mod_zero(left: SpanVal, op: SpanOp, right: SpanVal)
    requires
        op.op is Div || op.op is Mod,
        left.1 is Num,
        right.1 == Val::Num(0i32),
    ensures
        spec_compute_binop(left, op, right) == Err::<Val, RuntimeError>(
            RuntimeError::InvalidExpression(op.span),
        ),
{
}

/// One evaluation step's outcome: the environment afterwards and the result.
pub open spec fn spec_eval_expr(e: SpanExpr, m: Seq<(Symbol, Val)>, ast: File, fuel: nat) -> (
    Seq<(Symbol, Val)>,
    Result<SpanVal, RuntimeError>,
)
    decreases fuel, 2nat,
{
    if fuel == 0 {
        (m, Err(RuntimeError::MemoryError(e.span)))
    } else {
        let f2 = (fuel - 1) as nat;
        match e.expr {
            Expr::BinOp(l, sop, r) => {
                let (m1, lr) = spec_eval_atom(*l, m, ast, f2);
                match lr {
                    Err(er) => (m1, Err(er)),
                    Ok(lv) => {
                        let (m2, rr) = spec_eval_expr(*r, m1, ast, f2);
                        match rr {
                            Err(er) => (m2, Err(er)),
                            Ok(rv) => (m2, spec_map_res(e.span, spec_compute_binop(lv, sop, rv))),
                        }
                    }
                }
            }
            Expr::UnOp(sop, r) => {
                let (m1, rr) = spec_eval_expr(*r, m, ast, f2);
                match rr {
                    Err(er) => (m1, Err(er)),
                    Ok(rv) => (m1, spec_map_res(e.span, spec_compute_unop(sop, rv))),
                }
            }
            Expr::Local(_mutable, id, _ty, init) => {
                let (m1, ir) = spec_eval_expr(*init, m, ast, f2);
                match ir {
                    Err(er) => (m1, Err(er)),
                    Ok(iv) => (m1.push((id.sym, iv.1)), Ok((e.span, Val::Num(0)))),
                }
            }
            Expr::Assign(id, rhs) => {
                let (m1, rr) = spec_eval_expr(*rhs, m, ast, f2);
                match rr {
                    Err(er) => (m1, Err(er)),
                    Ok(rv) => match spec_env_assign(m1, id.sym, rv.1) {
                        Some(m2) => (m2, Ok((e.span, Val::Num(0)))),
                        None => (m1, Err(RuntimeError::MemoryError(e.span))),
                    },
                }
            }
            Expr::Block(stmts) => {
                let n = m.len();
                let (m1, r) = spec_eval_stmts(e.span, stmts@, m, ast, f2);
                let m2 = if n <= m1.len() {
                    m1.take(n as int)
                } else {
                    m1
                };
                (m2, r)
            }
            Expr::If(c, t, els) => {
                let (m1, cr) = spec_eval_expr(*c, m, ast, f2);
                match cr {
                    Err(er) => (m1, Err(er)),
                    Ok(cv) => match cv.1 {
                        Val::Bool(true) => spec_eval_expr(*t, m1, ast, f2),
                        Val::Bool(false) => spec_eval_expr(*els, m1, ast, f2),
                        Val::Num(_) => (m1, Err(RuntimeError::TypeError(cv.0))),
                    },
                }
            }
            Expr::While(c, body) => {
                let (m1, cr) = spec_eval_expr(*c, m, ast, f2);
                match cr {
                    Err(er) => (m1, Err(er)),
                    Ok(cv) => match cv.1 {
                        Val::Bool(false) => (m1, Ok((e.span, Val::Num(0)))),
                        Val::Bool(true) => {
                            let (m2, br) = spec_eval_expr(*body, m1, ast, f2);
                            match br {
                                Err(er) => (m2, Err(er)),
                                Ok(_) => spec_eval_expr(e, m2, ast, f2),
                            }
                        }
                        Val::Num(_) => (m1, Err(RuntimeError::TypeError(cv.0))),
                    },
                }
            }
            Expr::Return(r) => spec_eval_expr(*r, m, ast, f2),
            _ => spec_eval_atom(e, m, ast, f2),
        }
    }
}

/// An atom's outcome: parentheses, calls, identifier loads and literals.
pub open spec fn spec_eval_atom(e: SpanExpr, m: Seq<(Symbol, Val)>, ast: File, fuel: nat) -> (
    Seq<(Symbol, Val)>,
    Result<SpanVal, RuntimeError>,
)
    decreases fuel, 1nat,
{
    if fuel == 0 {
        (m, Err(RuntimeError::MemoryError(e.span)))
    } else {
        let f2 = (fuel - 1) as nat;
        match e.expr {
            Expr::Paren(inner) => spec_eval_expr(*inner, m, ast, f2),
            Expr::Call(id, args) => spec_eval_call(e.span, id, args@, m, ast, f2),
            Expr::Ident(x) => match spec_env_lookup(m, x) {
                Some(v) => (m, Ok((e.span, v))),
                None => (m, Err(RuntimeError::MemoryError(e.span))),
            },
            Expr::Val(v) => (m, Ok((e.span, v))),
            _ => (m, Err(RuntimeError::InvalidExpression(e.span))),
        }
    }
}

/// A statement sequence's outcome: statements run in order, the block's
/// value is the last statement's value, an empty block is integer zero.
pub open spec fn spec_eval_stmts(
    blk_span: Span,
    stmts: Seq<SpanExpr>,
    m: Seq<(Symbol, Val)>,
    ast: File,
    fuel: nat,
) -> (Seq<(Symbol, Val)>, Result<SpanVal, RuntimeError>)
    decreases fuel, 0nat,
{
    if fuel == 0 {
        (m, Err(RuntimeError::MemoryError(blk_span)))
    } else if stmts.len() == 0 {
        (m, Ok((blk_span, Val::Num(0))))
    } else {
        let f2 = (fuel - 1) as nat;
        let (m1, r0) = spec_eval_expr(stmts[0], m, ast, f2);
        match r0 {
            Err(er) => (m1, Err(er)),
            Ok(v0) => if stmts.len() == 1 {
                (m1, Ok(v0))
            } else {
                spec_eval_stmts(blk_span, stmts.skip(1), m1, ast, f2)
            },
        }
    }
}

/// An argument list's outcome: the values, evaluated left to right.
pub open spec fn spec_eval_args(
    args: Seq<SpanExpr>,
    m: Seq<(Symbol, Val)>,
    ast: File,
    fuel: nat,
) -> (Seq<(Symbol, Val)>, Result<Seq<Val>, RuntimeError>)
    decreases fuel, 0nat,
{
    if fuel == 0 {
        (m, Err(RuntimeError::MemoryError(Span { file: 0, offset: 0, len: 0 })))
    } else if args.len() == 0 {
        (m, Ok(Seq::empty()))
    } else {
        let f2 = (fuel - 1) as nat;
        let (m1, r0) = spec_eval_expr(args[0], m, ast, f2);
        match r0 {
            Err(er) => (m1, Err(er)),
            Ok(v0) => {
                let (m2, rr) = spec_eval_args(args.skip(1), m1, ast, f2);
                match rr {
                    Err(er) => (m2, Err(er)),
                    Ok(vs) => (m2, Ok(seq![v0.1] + vs)),
                }
            }
        }
    }
}

/// A call's outcome: look the callee up, evaluate the arguments in the
/// caller's environment, run the body in a fresh environment built from the
/// parameters, and hand the body's result back to the caller.
pub open spec fn spec_eval_call(
    span: Span,
    id: Ident,
    args: Seq<SpanExpr>,
    m: Seq<(Symbol, Val)>,
    ast: File,
    fuel: nat,
) -> (Seq<(Symbol, Val)>, Result<SpanVal, RuntimeError>)
    decreases fuel, 1nat,
{
    if fuel == 0 {
        (m, Err(RuntimeError::MemoryError(span)))
    } else {
        let f2 = (fuel - 1) as nat;
        match spec_find_function(ast.items@, id.sym) {
            None => (m, Err(RuntimeError::InvalidExpression(span))),
            Some(f) => {
                let (m1, ar) = spec_eval_args(args, m, ast, f2);
                match ar {
                    Err(er) => (m1, Err(er)),
                    Ok(vals) => if vals.len() != f.params@.len() {
                        (m1, Err(RuntimeError::InvalidExpression(span)))
                    } else {
                        let callee = Seq::new(
                            vals.len(),
                            |i: int| (f.params@[i].ident.sym, vals[i]),
                        );
                        let (mc, r) = spec_eval_expr(f.body, callee, ast, f2);
                        (m1, r)
                    },
                }
            }
        }
    }
}

/// A whole program's outcome: evaluate `main`'s body in an empty
/// environment and read the result as a 32-bit exit code (a boolean counts
/// as 1 or 0).
pub open spec fn spec_eval(ast: File, main_symbol: Symbol, fuel: nat) -> Result<
    i32,
    RuntimeError,
> {
    match spec_find_function(ast.items@, main_symbol) {
        None => Err(RuntimeError::InvalidExpression(Span { file: 0, offset: 0, len: 0 })),
        Some(f) => {
            let (m, r) = spec_eval_expr(f.body, Seq::empty(), ast, fuel);
            match r {
                Ok(sv) => match sv.1 {
                    Val::Num(n) => Ok(n),
                    Val::Bool(b) => Ok(
                        if b {
                            1i32
                        } else {
                            0i32
                        },
                    ),
                },
                Err(er) => Err(er),
            }
        }
    }
}

/// Evaluate an expression, threading the environment.
pub fn eval_expr(expr: &SpanExpr, env: &mut Env, ast: &File, fuel: u32) -> (r: Result<
    SpanVal,
    RuntimeError,
>)
    ensures
        ({
            let (m2, rr) = spec_eval_expr(*expr, old(env).bindings@, *ast, fuel as nat);
            final(env).bindings@ == m2 && r == rr
        }),
    decreases fuel, 2nat,
{
    if fuel == 0 {
        return Err(RuntimeError::MemoryError(expr.span));
    }
    match &expr.expr {
        Expr::BinOp(l, sop, r) => {
            let lr = eval_atom(l, env, ast, fuel - 1);
            match lr {
                Err(er) => Err(er),
                Ok(lv) => {
                    let rr = eval_expr(r, env, ast, fuel - 1);
                    match rr {
                        Err(er) => Err(er),
                        Ok(rv) => map_res(expr.span, compute_binop(lv, *sop, rv)),
                    }
                }
            }
        }
        Expr::UnOp(sop, r) => {
            let rr = eval_expr(r, env, ast, fuel - 1);
            match rr {
                Err(er) => Err(er),
                Ok(rv) => map_res(expr.span, compute_unop(*sop, rv)),
            }
        }
        Expr::Local(_mutable, id, _ty, init) => {
            let ir = eval_expr(init, env, ast, fuel - 1);
            match ir {
                Err(er) => Err(er),
                Ok(iv) => {
                    env.store(id.sym, iv.1);
                    Ok((expr.span, Val::Num(0)))
                }
            }
        }
        Expr::Assign(id, rhs) => {
            let rr = eval_expr(rhs, env, ast, fuel - 1);
            match rr {
                Err(er) => Err(er),
                Ok(rv) => {
                    let ok = env.assign(id.sym, rv.1);
                    if ok {
                        Ok((expr.span, Val::Num(0)))
                    } else {
                        Err(RuntimeError::MemoryError(expr.span))
                    }
                }
            }
        }
        Expr::Block(stmts) => {
            let n = env.depth();
            let r = eval_stmts(expr.span, stmts, 0, env, ast, fuel - 1);
            env.truncate(n);
            proof {
                assert(stmts@.skip(0) =~= stmts@);
            }
            r
        }
        Expr::If(c, t, els) => {
            let cr = eval_expr(c, env, ast, fuel - 1);
            match cr {
                Err(er) => Err(er),
                Ok(cv) => match cv.1 {
                    Val::Bool(true) => eval_expr(t, env, ast, fuel - 1),
                    Val::Bool(false) => eval_expr(els, env, ast, fuel - 1),
                    Val::Num(_) => Err(RuntimeError::TypeError(cv.0)),
                },
            }
        }
        Expr::While(c, body) => {
            let cr = eval_expr(c, env, ast, fuel - 1);
            match cr {
                Err(er) => Err(er),
                Ok(cv) => match cv.1 {
                    Val::Bool(false) => Ok((expr.span, Val::Num(0))),
                    Val::Bool(true) => {
                        let br = eval_expr(body, env, ast, fuel - 1);
                        match br {
                            Err(er) => Err(er),
                            Ok(_) => eval_expr(expr, env, ast, fuel - 1),
                        }
                    }
                    Val::Num(_) => Err(RuntimeError::TypeError(cv.0)),
                },
            }
        }
        Expr::Return(r) => eval_expr(r, env, ast, fuel - 1),
        _ => eval_atom(expr, env, ast, fuel - 1),
    }
}

/// Evaluate an atom: parentheses, calls, identifier loads and literals.
pub fn eval_atom(expr: &SpanExpr, env: &mut Env, ast: &File, fuel: u32) -> (r: Result<
    SpanVal,
    RuntimeError,
>)
    ensures
        ({
            let (m2, rr) = spec_eval_atom(*expr, old(env).bindings@, *ast, fuel as nat);
            final(env).bindings@ == m2 && r == rr
        }),
    decreases fuel, 1nat,
{
    if fuel == 0 {
        return Err(RuntimeError::MemoryError(expr.span));
    }
    match &expr.expr {
        Expr::Paren(inner) => eval_expr(inner, env, ast, fuel - 1),
        Expr::Call(id, args) => eval_func_call(expr.span, *id, args, env, ast, fuel - 1),
        Expr::Ident(x) => {
            let lv = env.load(*x);
            match lv {
                Some(v) => Ok((expr.span, v)),
                None => Err(RuntimeError::MemoryError(expr.span)),
            }
        }
        Expr::Val(v) => Ok((expr.span, *v)),
        _ => Err(RuntimeError::InvalidExpression(expr.span)),
    }
}

/// Evaluate the statements of a block from position `from` on.
pub fn eval_stmts(
    blk_span: Span,
    stmts: &Vec<SpanExpr>,
    from: usize,
    env: &mut Env,
    ast: &File,
    fuel: u32,
) -> (r: Result<SpanVal, RuntimeError>)
    requires
        from <= stmts@.len(),
    ensures
        ({
            let (m2, rr) = spec_eval_stmts(
                blk_span,
                stmts@.skip(from as int),
                old(env).bindings@,
                *ast,
                fuel as nat,
            );
            final(env).bindings@ == m2 && r == rr
        }),
    decreases fuel, 0nat,
{
    if fuel == 0 {
        return Err(RuntimeError::MemoryError(blk_span));
    }
    if from == stmts.len() {
        return Ok((blk_span, Val::Num(0)));
    }
    proof {
        assert(stmts@.skip(from as int)[0] == stmts@[from as int]);
        assert(stmts@.skip(from as int).skip(1) =~= stmts@.skip(from + 1));
    }
    let r0 = eval_expr(&stmts[from], env, ast, fuel - 1);
    match r0 {
        Err(er) => Err(er),
        Ok(v0) => {
            if from == stmts.len() - 1 {
                Ok(v0)
            } else {
                eval_stmts(blk_span, stmts, from + 1, env, ast, fuel - 1)
            }
        }
    }
}

/// Evaluate the arguments of a call from position `from` on, left to right.
pub fn eval_args(
    args: &Vec<SpanExpr>,
    from: usize,
    env: &mut Env,
    ast: &File,
    fuel: u32,
) -> (r: Result<Vec<Val>, RuntimeError>)
    requires
        from <= args@.len(),
    ensures
        ({
            let (m2, rr) = spec_eval_args(
                args@.skip(from as int),
                old(env).bindings@,
                *ast,
                fuel as nat,
            );
            final(env).bindings@ == m2 && match rr {
                Ok(vs) => r matches Ok(vec) && vec@ == vs,
                Err(er) => r == Err::<Vec<Val>, RuntimeError>(er),
            }
        }),
    decreases fuel, 0nat,
{
    if fuel == 0 {
        return Err(RuntimeError::MemoryError(Span { file: 0, offset: 0, len: 0 }));
    }
    if from == args.len() {
        let empty: Vec<Val> = Vec::new();
        proof {
            assert(empty@ =~= Seq::<Val>::empty());
        }
        return Ok(empty);
    }
    proof {
        assert(args@.skip(from as int)[0] == args@[from as int]);
        assert(args@.skip(from as int).skip(1) =~= args@.skip(from + 1));
    }
    let r0 = eval_expr(&args[from], env, ast, fuel - 1);
    match r0 {
        Err(er) => Err(er),
        Ok(v0) => {
            let rest = eval_args(args, from + 1, env, ast, fuel - 1);
            match rest {
                Err(er) => Err(er),
                Ok(mut vec) => {
                    vec.insert(0, v0.1);
                    proof {
                        let (m2, rr) = spec_eval_args(
                            args@.skip(from as int),
                            old(env).bindings@,
                            *ast,
                            fuel as nat,
                        );
                        assert(vec@ =~= rr->Ok_0);
                    }
                    Ok(vec)
                }
            }
        }
    }
}

/// Evaluate a function call: look the callee up, evaluate the arguments in
/// the caller's environment, then run the body in a fresh environment built
/// from the parameters.
pub fn eval_func_call(
    call_span: Span,
    ident: Ident,
    args: &Vec<SpanExpr>,
    env: &mut Env,
    ast: &File,
    fuel: u32,
) -> (r: Result<SpanVal, RuntimeError>)
    ensures
        ({
            let (m2, rr) = spec_eval_call(
                call_span,
                ident,
                args@,
                old(env).bindings@,
                *ast,
                fuel as nat,
            );
            final(env).bindings@ == m2 && r == rr
        }),
    decreases fuel, 1nat,
{
    if fuel == 0 {
        return Err(RuntimeError::MemoryError(call_span));
    }
    let fr = get_function(ident.sym, ast);
    match fr {
        Err(_) => Err(RuntimeError::InvalidExpression(call_span)),
        Ok(fi) => {
            proof {
                assert(args@.skip(0) =~= args@);
            }
            let ar = eval_args(args, 0, env, ast, fuel - 1);
            match ar {
                Err(er) => Err(er),
                Ok(vals) => {
                    match &ast.items[fi] {
                        Item::Fn(f) => {
                            if vals.len() != f.params.len() {
                                return Err(RuntimeError::InvalidExpression(call_span));
                            }
                            let mut callee_env = Env::new();
                            let np = f.params.len();
                            let mut j: usize = 0;
                            while j < np
                                invariant
                                    np == f.params@.len(),
                                    j <= np,
                                    vals@.len() == np,
                                    callee_env.bindings@.len() == j,
                                    forall|k: int|
                                        0 <= k < j ==> callee_env.bindings@[k] == (
                                        (#[trigger] f.params@[k]).ident.sym, vals@[k]),
                                decreases np - j,
                            {
                                callee_env.store(f.params[j].ident.sym, vals[j]);
                                j = j + 1;
                            }
                            proof {
                                assert(callee_env.bindings@ =~= Seq::new(
                                    vals@.len(),
                                    |i: int| (f.params@[i].ident.sym, vals@[i]),
                                ));
                            }
                            let r = eval_expr(&f.body, &mut callee_env, ast, fuel - 1);
                            r
                        }
                    }
                }
            }
        }
    }
}

/// Run `main`: evaluate its body in an empty environment and return the
/// result as a 32-bit exit code (a boolean counts as 1 or 0).
pub fn eval(ast: &File, main_symbol: Symbol, fuel: u32) -> (r: Result<i32, RuntimeError>)
    ensures
        r == spec_eval(*ast, main_symbol, fuel as nat),
{
    let fr = get_function(main_symbol, ast);
    match fr {
        Err(er) => Err(RuntimeError::InvalidExpression(Span { file: 0, offset: 0, len: 0 })),
        Ok(fi) => {
            match &ast.items[fi] {
                Item::Fn(f) => {
                    let mut env = Env::new();
                    proof {
                        assert(env.bindings@ =~= Seq::<(Symbol, Val)>::empty());
                    }
                    let r = eval_expr(&f.body, &mut env, ast, fuel);
                    match r {
                        Ok(sv) => match sv.1 {
                            Val::Num(n) => Ok(n),
                            Val::Bool(b) => Ok(
                                if b {
                                    1
                                } else {
                                    0
                                },
                            ),
                        },
                        Err(er) => Err(er),
                    }
                }
            }
        }
    }
}

} // verus!
