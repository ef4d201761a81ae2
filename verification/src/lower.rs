//! Lowering from the AST to the linear IR.
//!
//! Each function lowers to a `Prologue`, one `Param` per parameter, the
//! body, a final `Return` of the body's value, and an `Epilogue`; the
//! builder records the two boundary indices in the function table. Control
//! flow lowers to `IfFalse`/`Jump`/`Label` with freshly minted labels, and
//! every minted label is declared inside the same function body, which is
//! what makes the lowered jumps valid.

use vstd::prelude::*;

use crate::ast::Expr;
use crate::ast::File;
use crate::ast::Item;
use crate::ast::Op;
use crate::ast::Span;
use crate::ast::SpanExpr;
use crate::ast::Symbol;
use crate::ast::TyAnn;
use crate::ast::Val;
use crate::ir::FunctionTable;
use crate::ir::IrBasicBlock;
use crate::ir::IrIdent;
use crate::ir::IrInstruction;
use crate::ir::IrOpcode;
use crate::ir::IrOperand;
use crate::ir::IrType;
use crate::ir::block_range_wf;
use crate::ir::body_has_no_boundaries;
use crate::ir::body_has_label;
use crate::ir::jumps_closed;

verus! {

/// The IR builder: the growing instruction vector, the function table, the
/// symbols that freshly minted temporaries and labels are built from, and a
/// monotone version counter.
pub struct IrBuilder {
    pub instructions: Vec<IrInstruction>,
    pub functions: FunctionTable,
    pub temp_symbol: Symbol,
    pub label_symbol: Symbol,
    pub next_version: u32,
}

/// Make a builder whose temporaries and labels use the two given symbols.
pub fn create_ir_builder(temp_symbol: Symbol, label_symbol: Symbol) -> (b: IrBuilder)
    ensures
        b.instructions@.len() == 0,
        b.functions.wf(),
        b.functions.entries@.len() == 0,
        b.temp_symbol == temp_symbol,
        b.label_symbol == label_symbol,
        b.next_version == 0,
{
    IrBuilder {
        instructions: Vec::new(),
        functions: FunctionTable::new(),
        temp_symbol,
        label_symbol,
        next_version: 0,
    }
}

/// A transfer-of-control instruction.
pub open spec fn is_jump_insn(x: IrInstruction) -> bool {
    x.opcode is Jump || x.opcode is IfFalse
}

/// Some `Label` for `l` lies in `[lo, hi)` of `s`.
pub open spec fn has_label_in(s: Seq<IrInstruction>, lo: int, hi: int, l: IrIdent) -> bool {
    exists|j: int|
        lo <= j < hi && (#[trigger] s[j]).opcode is Label && s[j].op1 == IrOperand::Ident(l)
}

/// If `s[i]` transfers control, its target label is declared in `[lo, hi)`.
pub open spec fn jump_ok(s: Seq<IrInstruction>, lo: int, hi: int, i: int) -> bool {
    is_jump_insn(s[i]) ==> (s[i].op1 matches IrOperand::Ident(l) && has_label_in(s, lo, hi, l))
}

/// Instructions in `[lo, hi)` of `s` never leave the range: every jump
/// targets a `Label` within it, and no function boundary occurs in it.
pub open spec fn range_closed(s: Seq<IrInstruction>, lo: int, hi: int) -> bool {
    &&& forall|i: int| lo <= i < hi ==> #[trigger] jump_ok(s, lo, hi, i)
    &&& forall|i: int|
        lo <= i < hi ==> !((#[trigger] s[i]).opcode is Prologue) && !(s[i].opcode is Epilogue)
}

/// A closed range stays closed when the vector grows past it and keeps its
/// prefix.
proof fn lemma_range_closed_extend(s1: Seq<IrInstruction>, s2: Seq<IrInstruction>, lo: int, hi: int)
    requires
        0 <= lo,
        hi <= s1.len(),
        s1.len() <= s2.len(),
        forall|i: int| 0 <= i < s1.len() ==> s2[i] == s1[i],
        range_closed(s1, lo, hi),
    ensures
        range_closed(s2, lo, hi),
{
    assert forall|i: int| lo <= i < hi implies #[trigger] jump_ok(s2, lo, hi, i) by {
        assert(jump_ok(s1, lo, hi, i));
        assert(s2[i] == s1[i]);
        if is_jump_insn(s1[i]) {
            match s1[i].op1 {
                IrOperand::Ident(l) => {
                    let j = choose|j: int|
                        lo <= j < hi && (#[trigger] s1[j]).opcode is Label && s1[j].op1
                            == IrOperand::Ident(l);
                    assert(s2[j] == s1[j]);
                    assert(has_label_in(s2, lo, hi, l));
                }
                _ => {}
            }
        }
    }
    assert forall|i: int| lo <= i < hi implies !((#[trigger] s2[i]).opcode is Prologue) && !(
    s2[i].opcode is Epilogue) by {
        assert(s2[i] == s1[i]);
    }
}

/// Two adjacent closed ranges form a closed range.
proof fn lemma_range_closed_join(s: Seq<IrInstruction>, lo: int, mid: int, hi: int)
    requires
        lo <= mid <= hi,
        range_closed(s, lo, mid),
        range_closed(s, mid, hi),
    ensures
        range_closed(s, lo, hi),
{
    assert forall|i: int| lo <= i < hi implies #[trigger] jump_ok(s, lo, hi, i) by {
        if i < mid {
            assert(jump_ok(s, lo, mid, i));
            if is_jump_insn(s[i]) {
                match s[i].op1 {
                    IrOperand::Ident(l) => {
                        let j = choose|j: int|
                            lo <= j < mid && (#[trigger] s[j]).opcode is Label && s[j].op1
                                == IrOperand::Ident(l);
                        assert(has_label_in(s, lo, hi, l));
                    }
                    _ => {}
                }
            }
        } else {
            assert(jump_ok(s, mid, hi, i));
            if is_jump_insn(s[i]) {
                match s[i].op1 {
                    IrOperand::Ident(l) => {
                        let j = choose|j: int|
                            mid <= j < hi && (#[trigger] s[j]).opcode is Label && s[j].op1
                                == IrOperand::Ident(l);
                        assert(has_label_in(s, lo, hi, l));
                    }
                    _ => {}
                }
            }
        }
    }
}

/// A closed range satisfies the full-body validity specs of its subrange.
proof fn lemma_range_closed_body(s: Seq<IrInstruction>, lo: int, hi: int)
    requires
        0 <= lo <= hi <= s.len(),
        range_closed(s, lo, hi),
    ensures
        jumps_closed(s.subrange(lo, hi)),
        body_has_no_boundaries(s.subrange(lo, hi)),
{
    let b = s.subrange(lo, hi);
    assert forall|i: int|
        0 <= i < b.len() && ((#[trigger] b[i]).opcode is Jump || b[i].opcode is IfFalse) implies (
    b[i].op1 matches IrOperand::Ident(l) && body_has_label(b, l)) by {
        assert(b[i] == s[lo + i]);
        assert(jump_ok(s, lo, hi, lo + i));
        match s[lo + i].op1 {
            IrOperand::Ident(l) => {
                let j = choose|j: int|
                    lo <= j < hi && (#[trigger] s[j]).opcode is Label && s[j].op1
                        == IrOperand::Ident(l);
                assert(b[j - lo] == s[j]);
                assert(body_has_label(b, l));
            }
            _ => {}
        }
    }
    assert forall|i: int| 0 <= i < b.len() implies !((#[trigger] b[i]).opcode is Prologue) && !(
    b[i].opcode is Epilogue) by {
        assert(b[i] == s[lo + i]);
    }
}

/// The IR type an annotation denotes.
pub open spec fn spec_ir_type_of(t: TyAnn) -> IrType {
    match t {
        TyAnn::I32 => IrType::I32,
        TyAnn::Bool => IrType::Bool,
        TyAnn::Unit => IrType::Unit,
    }
}

/// Executable twin of [`spec_ir_type_of`].
#[verifier::when_used_as_spec(spec_ir_type_of)]
pub fn ir_type_of(t: TyAnn) -> (r: IrType)
    ensures
        r == spec_ir_type_of(t),
{
    match t {
        TyAnn::I32 => IrType::I32,
        TyAnn::Bool => IrType::Bool,
        TyAnn::Unit => IrType::Unit,
    }
}

/// The IR opcode a binary operator lowers to, and whether it compares.
fn binop_opcode(op: Op) -> (r: (IrOpcode, bool))
    ensures
        !(r.0 is Prologue),
        !(r.0 is Epilogue),
        !(r.0 is Jump),
        !(r.0 is IfFalse),
{
    match op {
        Op::Add => (IrOpcode::Add, false),
        Op::Sub => (IrOpcode::Sub, false),
        Op::Mul => (IrOpcode::Mul, false),
        Op::Div => (IrOpcode::Div, false),
        Op::Mod => (IrOpcode::Mod, false),
        Op::And => (IrOpcode::And, false),
        Op::Or => (IrOpcode::Or, false),
        Op::LessThan => (IrOpcode::Lt, true),
        Op::LessEq => (IrOpcode::Le, true),
        Op::LargerThan => (IrOpcode::Gt, true),
        Op::LargerEq => (IrOpcode::Ge, true),
        Op::Equal => (IrOpcode::Eq, true),
        Op::NotEq => (IrOpcode::Ne, true),
        Op::Not => (IrOpcode::Nop, false),
    }
}

/// Push one non-boundary, non-jump instruction.
fn push_plain(
    b: &mut IrBuilder,
    opcode: IrOpcode,
    ty: IrType,
    op1: IrOperand,
    op2: IrOperand,
    op3: IrOperand,
    span: Span,
)
    requires
        !(opcode is Prologue),
        !(opcode is Epilogue),
        !(opcode is Jump),
        !(opcode is IfFalse),
    ensures
        final(b).instructions@ == old(b).instructions@.push(
            IrInstruction { opcode, ty, op1, op2, op3, span },
        ),
        final(b).functions == old(b).functions,
        final(b).temp_symbol == old(b).temp_symbol,
        final(b).label_symbol == old(b).label_symbol,
        final(b).next_version == old(b).next_version,
        range_closed(
            final(b).instructions@,
            old(b).instructions@.len() as int,
            final(b).instructions@.len() as int,
        ),
{
    b.instructions.push(IrInstruction { opcode, ty, op1, op2, op3, span });
    proof {
        let s = b.instructions@;
        let lo = old(b).instructions@.len() as int;
        assert forall|i: int| lo <= i < s.len() implies #[trigger] jump_ok(s, lo, s.len() as int, i) by {
            assert(!is_jump_insn(s[i]));
        }
    }
}

/// Mint a fresh identifier version.
fn fresh_version(b: &mut IrBuilder) -> (v: u32)
    ensures
        final(b).instructions == old(b).instructions,
        final(b).functions == old(b).functions,
        final(b).temp_symbol == old(b).temp_symbol,
        final(b).label_symbol == old(b).label_symbol,
{
    let v = b.next_version;
    b.next_version = if v == u32::MAX {
        v
    } else {
        v + 1
    };
    v
}

/// Widen a closed subrange: its jumps stay fine inside any enclosing range.
proof fn lemma_jump_ok_widen(s: Seq<IrInstruction>, lo: int, hi: int, lo2: int, hi2: int)
    requires
        lo <= lo2 <= hi2 <= hi,
        range_closed(s, lo2, hi2),
    ensures
        forall|i: int| lo2 <= i < hi2 ==> #[trigger] jump_ok(s, lo, hi, i),
        forall|i: int|
            lo2 <= i < hi2 ==> !((#[trigger] s[i]).opcode is Prologue) && !(s[i].opcode
                is Epilogue),
{
    assert forall|i: int| lo2 <= i < hi2 implies #[trigger] jump_ok(s, lo, hi, i) by {
        assert(jump_ok(s, lo2, hi2, i));
        if is_jump_insn(s[i]) {
            match s[i].op1 {
                IrOperand::Ident(l) => {
                    let j = choose|j: int|
                        lo2 <= j < hi2 && (#[trigger] s[j]).opcode is Label && s[j].op1
                            == IrOperand::Ident(l);
                    assert(has_label_in(s, lo, hi, l));
                }
                _ => {}
            }
        }
    }
}

/// The latest declaration of `x`: its version and declared type.
fn lookup_var(vars: &Vec<(Symbol, u32, TyAnn)>, x: Symbol) -> (r: Option<(u32, TyAnn)>) {
    let mut i: usize = vars.len();
    while i > 0
        invariant
            i <= vars@.len(),
        decreases i,
    {
        i = i - 1;
        let e = vars[i];
        if e.0 == x {
            return Some((e.1, e.2));
        }
    }
    None
}

/// Lower one expression into instructions appended to the builder; the
/// result names the operand that holds the expression's value and its type.
/// Everything appended forms a closed range: jumps stay inside it and no
/// function boundary is emitted.
#[verifier::rlimit(100)]
fn lower_expr(
    b: &mut IrBuilder,
    e: &SpanExpr,
    vars: &mut Vec<(Symbol, u32, TyAnn)>,
    ast: &File,
    fuel: u32,
) -> (r: (IrOperand, IrType))
    ensures
        final(b).functions == old(b).functions,
        final(b).temp_symbol == old(b).temp_symbol,
        final(b).label_symbol == old(b).label_symbol,
        old(b).instructions@.len() <= final(b).instructions@.len(),
        forall|i: int|
            0 <= i < old(b).instructions@.len() ==> final(b).instructions@[i] == old(
                b,
            ).instructions@[i],
        range_closed(
            final(b).instructions@,
            old(b).instructions@.len() as int,
            final(b).instructions@.len() as int,
        ),
    decreases fuel,
{
    let ghost lo = b.instructions@.len() as int;
    if fuel == 0 {
        proof {
            empty_range_closed(b.instructions@, lo);
        }
        return (IrOperand::Nil, IrType::Unit);
    }
    match &e.expr {
        Expr::Val(v) => {
            proof {
                empty_range_closed(b.instructions@, lo);
            }
            match v {
                Val::Num(n) => (IrOperand::Value(crate::ir::IrValue::I32(*n)), IrType::I32),
                Val::Bool(w) => (IrOperand::Value(crate::ir::IrValue::Bool(*w)), IrType::Bool),
            }
        }
        Expr::Ident(x) => {
            proof {
                empty_range_closed(b.instructions@, lo);
            }
            match lookup_var(vars, *x) {
                Some((ver, ty)) => (
                    IrOperand::Ident(IrIdent { symbol: *x, index: ver }),
                    ir_type_of(ty),
                ),
                None => (IrOperand::Ident(IrIdent { symbol: *x, index: 0 }), IrType::I32),
            }
        }
        Expr::Paren(inner) => lower_expr(b, inner, vars, ast, fuel - 1),
        Expr::BinOp(l, sop, r) => {
            let (lop, lt) = lower_expr(b, l, vars, ast, fuel - 1);
            let ghost g1 = b.instructions@;
            let (rop, _rt) = lower_expr(b, r, vars, ast, fuel - 1);
            let ghost g2 = b.instructions@;
            let (opc, is_cmp) = binop_opcode(sop.op);
            let tv = fresh_version(b);
            let t = IrIdent { symbol: b.temp_symbol, index: tv };
            push_plain(b, opc, lt, IrOperand::Ident(t), lop, rop, e.span);
            proof {
                let s = b.instructions@;
                lemma_range_closed_extend(g1, s, lo, g1.len() as int);
                lemma_range_closed_extend(g2, s, g1.len() as int, g2.len() as int);
                lemma_range_closed_join(s, lo, g1.len() as int, g2.len() as int);
                lemma_range_closed_join(s, lo, g2.len() as int, s.len() as int);
            }
            (
                IrOperand::Ident(t),
                if is_cmp {
                    IrType::Bool
                } else {
                    lt
                },
            )
        }
        Expr::UnOp(sop, r) => {
            let (rop, _rt) = lower_expr(b, r, vars, ast, fuel - 1);
            let ghost g1 = b.instructions@;
            let tv = fresh_version(b);
            let t = IrIdent { symbol: b.temp_symbol, index: tv };
            let res: (IrOperand, IrType) = match sop.op {
                Op::Sub => {
                    push_plain(
                        b,
                        IrOpcode::Sub,
                        IrType::I32,
                        IrOperand::Ident(t),
                        IrOperand::Value(crate::ir::IrValue::I32(0)),
                        rop,
                        e.span,
                    );
                    (IrOperand::Ident(t), IrType::I32)
                }
                Op::Not => {
                    push_plain(
                        b,
                        IrOpcode::Xor,
                        IrType::Bool,
                        IrOperand::Ident(t),
                        rop,
                        IrOperand::Value(crate::ir::IrValue::Bool(true)),
                        e.span,
                    );
                    (IrOperand::Ident(t), IrType::Bool)
                }
                _ => {
                    proof {
                        empty_range_closed(b.instructions@, g1.len() as int);
                    }
                    (IrOperand::Nil, IrType::Unit)
                }
            };
            proof {
                let s = b.instructions@;
                lemma_range_closed_extend(g1, s, lo, g1.len() as int);
                lemma_range_closed_join(s, lo, g1.len() as int, s.len() as int);
            }
            res
        }
        Expr::Local(_mutable, id, tya, init) => {
            let (iop, ity) = lower_expr(b, init, vars, ast, fuel - 1);
            let ghost g1 = b.instructions@;
            let ver = fresh_version(b);
            let dty = match tya {
                TyAnn::Unit => ity,
                _ => ir_type_of(*tya),
            };
            push_plain(
                b,
                IrOpcode::Alloca,
                dty,
                IrOperand::Ident(IrIdent { symbol: id.sym, index: ver }),
                iop,
                IrOperand::Nil,
                e.span,
            );
            vars.push((id.sym, ver, *tya));
            proof {
                let s = b.instructions@;
                lemma_range_closed_extend(g1, s, lo, g1.len() as int);
                lemma_range_closed_join(s, lo, g1.len() as int, s.len() as int);
            }
            (IrOperand::Nil, IrType::Unit)
        }
        Expr::Assign(id, rhs) => {
            let (rop, rt) = lower_expr(b, rhs, vars, ast, fuel - 1);
            let ghost g1 = b.instructions@;
            let (ver, ty) = match lookup_var(vars, id.sym) {
                Some((v, t)) => (v, ir_type_of(t)),
                None => (0, rt),
            };
            push_plain(
                b,
                IrOpcode::Copy,
                ty,
                IrOperand::Ident(IrIdent { symbol: id.sym, index: ver }),
                rop,
                IrOperand::Nil,
                e.span,
            );
            proof {
                let s = b.instructions@;
                lemma_range_closed_extend(g1, s, lo, g1.len() as int);
                lemma_range_closed_join(s, lo, g1.len() as int, s.len() as int);
            }
            (IrOperand::Nil, IrType::Unit)
        }
        Expr::Block(stmts) => {
            let n0 = vars.len();
            let mut last: (IrOperand, IrType) = (IrOperand::Nil, IrType::Unit);
            let nstmts = stmts.len();
            let mut i: usize = 0;
            proof {
                empty_range_closed(b.instructions@, lo);
            }
            while i < nstmts
                invariant
                    fuel >= 1,
                    nstmts == stmts@.len(),
                    i <= nstmts,
                    lo <= b.instructions@.len(),
                    b.functions == old(b).functions,
                    b.temp_symbol == old(b).temp_symbol,
                    b.label_symbol == old(b).label_symbol,
                    old(b).instructions@.len() as int == lo,
                    forall|j: int|
                        0 <= j < lo ==> b.instructions@[j] == old(b).instructions@[j],
                    range_closed(b.instructions@, lo, b.instructions@.len() as int),
                decreases nstmts - i,
            {
                let ghost g1 = b.instructions@;
                last = lower_expr(b, &stmts[i], vars, ast, fuel - 1);
                proof {
                    let s = b.instructions@;
                    lemma_range_closed_extend(g1, s, lo, g1.len() as int);
                    lemma_range_closed_join(s, lo, g1.len() as int, s.len() as int);
                }
                i = i + 1;
            }
            vars.truncate(n0);
            last
        }
        Expr::If(c, t, els) => {
            let (cop, _ct) = lower_expr(b, c, vars, ast, fuel - 1);
            let ghost g1 = b.instructions@;
            let else_v = fresh_version(b);
            let l_else = IrIdent { symbol: b.label_symbol, index: else_v };
            let end_v = fresh_version(b);
            let l_end = IrIdent { symbol: b.label_symbol, index: end_v };
            let res_v = fresh_version(b);
            let t_res = IrIdent { symbol: b.temp_symbol, index: res_v };
            // result slot
            push_plain(
                b,
                IrOpcode::Alloca,
                IrType::I32,
                IrOperand::Ident(t_res),
                IrOperand::Value(crate::ir::IrValue::I32(0)),
                IrOperand::Nil,
                e.span,
            );
            let p_iffalse = b.instructions.len();
            b.instructions.push(
                IrInstruction {
                    opcode: IrOpcode::IfFalse,
                    ty: IrType::Bool,
                    op1: IrOperand::Ident(l_else),
                    op2: cop,
                    op3: IrOperand::Nil,
                    span: e.span,
                },
            );
            let ghost g2 = b.instructions@;
            let (top, tt) = lower_expr(b, t, vars, ast, fuel - 1);
            let ghost g3 = b.instructions@;
            push_plain(
                b,
                IrOpcode::Copy,
                tt,
                IrOperand::Ident(t_res),
                top,
                IrOperand::Nil,
                e.span,
            );
            let p_jump = b.instructions.len();
            b.instructions.push(
                IrInstruction {
                    opcode: IrOpcode::Jump,
                    ty: IrType::Unit,
                    op1: IrOperand::Ident(l_end),
                    op2: IrOperand::Nil,
                    op3: IrOperand::Nil,
                    span: e.span,
                },
            );
            let p_lelse = b.instructions.len();
            push_plain(
                b,
                IrOpcode::Label,
                IrType::Unit,
                IrOperand::Ident(l_else),
                IrOperand::Nil,
                IrOperand::Nil,
                e.span,
            );
            let ghost g4 = b.instructions@;
            let (eop, et) = lower_expr(b, els, vars, ast, fuel - 1);
            let ghost g5 = b.instructions@;
            push_plain(
                b,
                IrOpcode::Copy,
                et,
                IrOperand::Ident(t_res),
                eop,
                IrOperand::Nil,
                e.span,
            );
            let p_lend = b.instructions.len();
            push_plain(
                b,
                IrOpcode::Label,
                IrType::Unit,
                IrOperand::Ident(l_end),
                IrOperand::Nil,
                IrOperand::Nil,
                e.span,
            );
            proof {
                let s = b.instructions@;
                let hi = s.len() as int;
                lemma_range_closed_extend(g1, s, lo, g1.len() as int);
                lemma_range_closed_extend(g3, s, g2.len() as int, g3.len() as int);
                lemma_range_closed_extend(g5, s, g4.len() as int, g5.len() as int);
                lemma_jump_ok_widen(s, lo, hi, lo, g1.len() as int);
                lemma_jump_ok_widen(s, lo, hi, g2.len() as int, g3.len() as int);
                lemma_jump_ok_widen(s, lo, hi, g4.len() as int, g5.len() as int);
                assert(s[p_lelse as int].opcode is Label && s[p_lelse as int].op1
                    == IrOperand::Ident(l_else));
                assert(s[p_lend as int].opcode is Label && s[p_lend as int].op1
                    == IrOperand::Ident(l_end));
                assert forall|i: int| lo <= i < hi implies #[trigger] jump_ok(s, lo, hi, i) by {
                    if i == p_iffalse as int {
                        assert(has_label_in(s, lo, hi, l_else));
                    } else if i == p_jump as int {
                        assert(has_label_in(s, lo, hi, l_end));
                    } else if g1.len() <= i < g2.len() || g3.len() <= i < g4.len() || g5.len()
                        <= i < hi {
                        assert(!is_jump_insn(s[i]));
                    }
                }
                assert forall|i: int| lo <= i < hi implies !((#[trigger] s[i]).opcode
                    is Prologue) && !(s[i].opcode is Epilogue) by {}
            }
            (IrOperand::Ident(t_res), tt)
        }
        Expr::While(c, body) => {
            let head_v = fresh_version(b);
            let l_head = IrIdent { symbol: b.label_symbol, index: head_v };
            let exit_v = fresh_version(b);
            let l_exit = IrIdent { symbol: b.label_symbol, index: exit_v };
            let p_lhead = b.instructions.len();
            push_plain(
                b,
                IrOpcode::Label,
                IrType::Unit,
                IrOperand::Ident(l_head),
                IrOperand::Nil,
                IrOperand::Nil,
                e.span,
            );
            let ghost g1 = b.instructions@;
            let (cop, _ct) = lower_expr(b, c, vars, ast, fuel - 1);
            let ghost g2 = b.instructions@;
            let p_iffalse = b.instructions.len();
            b.instructions.push(
                IrInstruction {
                    opcode: IrOpcode::IfFalse,
                    ty: IrType::Bool,
                    op1: IrOperand::Ident(l_exit),
                    op2: cop,
                    op3: IrOperand::Nil,
                    span: e.span,
                },
            );
            let ghost g3 = b.instructions@;
            let (_bop, _bt) = lower_expr(b, body, vars, ast, fuel - 1);
            let ghost g4 = b.instructions@;
            let p_jump = b.instructions.len();
            b.instructions.push(
                IrInstruction {
                    opcode: IrOpcode::Jump,
                    ty: IrType::Unit,
                    op1: IrOperand::Ident(l_head),
                    op2: IrOperand::Nil,
                    op3: IrOperand::Nil,
                    span: e.span,
                },
            );
            let p_lexit = b.instructions.len();
            push_plain(
                b,
                IrOpcode::Label,
                IrType::Unit,
                IrOperand::Ident(l_exit),
                IrOperand::Nil,
                IrOperand::Nil,
                e.span,
            );
            proof {
                let s = b.instructions@;
                let hi = s.len() as int;
                lemma_range_closed_extend(g2, s, g1.len() as int, g2.len() as int);
                lemma_range_closed_extend(g4, s, g3.len() as int, g4.len() as int);
                lemma_jump_ok_widen(s, lo, hi, g1.len() as int, g2.len() as int);
                lemma_jump_ok_widen(s, lo, hi, g3.len() as int, g4.len() as int);
                assert(s[p_lhead as int].opcode is Label && s[p_lhead as int].op1
                    == IrOperand::Ident(l_head));
                assert(s[p_lexit as int].opcode is Label && s[p_lexit as int].op1
                    == IrOperand::Ident(l_exit));
                assert forall|i: int| lo <= i < hi implies #[trigger] jump_ok(s, lo, hi, i) by {
                    if i == p_iffalse as int {
                        assert(has_label_in(s, lo, hi, l_exit));
                    } else if i == p_jump as int {
                        assert(has_label_in(s, lo, hi, l_head));
                    } else if i == p_lhead as int || i == p_lexit as int {
                        assert(!is_jump_insn(s[i]));
                    }
                }
                assert forall|i: int| lo <= i < hi implies !((#[trigger] s[i]).opcode
                    is Prologue) && !(s[i].opcode is Epilogue) by {}
            }
            (IrOperand::Nil, IrType::Unit)
        }
        Expr::Return(r) => {
            let (rop, rt) = lower_expr(b, r, vars, ast, fuel - 1);
            let ghost g1 = b.instructions@;
            push_plain(b, IrOpcode::Return, rt, rop, IrOperand::Nil, IrOperand::Nil, e.span);
            proof {
                let s = b.instructions@;
                lemma_range_closed_extend(g1, s, lo, g1.len() as int);
                lemma_range_closed_join(s, lo, g1.len() as int, s.len() as int);
            }
            (IrOperand::Nil, IrType::Unit)
        }
        Expr::Call(id, args) => {
            let nargs = args.len();
            let mut i: usize = 0;
            proof {
                empty_range_closed(b.instructions@, lo);
            }
            while i < nargs
                invariant
                    fuel >= 1,
                    nargs == args@.len(),
                    i <= nargs,
                    lo <= b.instructions@.len(),
                    b.functions == old(b).functions,
                    b.temp_symbol == old(b).temp_symbol,
                    b.label_symbol == old(b).label_symbol,
                    old(b).instructions@.len() as int == lo,
                    forall|j: int|
                        0 <= j < lo ==> b.instructions@[j] == old(b).instructions@[j],
                    range_closed(b.instructions@, lo, b.instructions@.len() as int),
                decreases nargs - i,
            {
                let ghost g1 = b.instructions@;
                let (aop, at) = lower_expr(b, &args[i], vars, ast, fuel - 1);
                let ghost g2 = b.instructions@;
                push_plain(b, IrOpcode::Param, at, aop, IrOperand::Nil, IrOperand::Nil, e.span);
                proof {
                    let s = b.instructions@;
                    lemma_range_closed_extend(g1, s, lo, g1.len() as int);
                    lemma_range_closed_extend(g2, s, g1.len() as int, g2.len() as int);
                    lemma_range_closed_join(s, lo, g1.len() as int, g2.len() as int);
                    lemma_range_closed_join(s, lo, g2.len() as int, s.len() as int);
                }
                i = i + 1;
            }
            let ret_ty = match crate::interp::get_function(id.sym, ast) {
                Ok(fi) => match &ast.items[fi] {
                    Item::Fn(f) => ir_type_of(f.ret_ty),
                },
                Err(_) => IrType::I32,
            };
            let tv = fresh_version(b);
            let t = IrIdent { symbol: b.temp_symbol, index: tv };
            let ghost g3 = b.instructions@;
            push_plain(
                b,
                IrOpcode::Call,
                ret_ty,
                IrOperand::Ident(t),
                IrOperand::Ident(IrIdent { symbol: id.sym, index: 0 }),
                IrOperand::Nil,
                e.span,
            );
            proof {
                let s = b.instructions@;
                lemma_range_closed_extend(g3, s, lo, g3.len() as int);
                lemma_range_closed_join(s, lo, g3.len() as int, s.len() as int);
            }
            (IrOperand::Ident(t), ret_ty)
        }
    }
}

/// The empty range is closed.
proof fn empty_range_closed(s: Seq<IrInstruction>, lo: int)
    ensures
        range_closed(s, lo, lo),
{
}

/// A valid lowering result: unique function entries, each with a proper
/// `Prologue`/`Epilogue` pair around a boundary-free body whose jumps all
/// target labels declared in that same body.
pub open spec fn ir_valid(instructions: Seq<IrInstruction>, ft: FunctionTable) -> bool {
    &&& ft.wf()
    &&& forall|i: int|
        0 <= i < ft.entries@.len() ==> block_range_wf(
            instructions,
            (#[trigger] ft.entries@[i]).1,
        ) && jumps_closed(crate::x86::body_of(instructions, ft.entries@[i].1))
}

/// A valid block range survives appends that keep the prefix.
proof fn lemma_block_wf_extend(s1: Seq<IrInstruction>, s2: Seq<IrInstruction>, bb: IrBasicBlock)
    requires
        s1.len() <= s2.len(),
        forall|i: int| 0 <= i < s1.len() ==> s2[i] == s1[i],
        block_range_wf(s1, bb),
        jumps_closed(crate::x86::body_of(s1, bb)),
    ensures
        block_range_wf(s2, bb),
        jumps_closed(crate::x86::body_of(s2, bb)),
{
    assert(crate::x86::body_of(s2, bb) =~= crate::x86::body_of(s1, bb));
    assert(s2[bb.prologue_index as int] == s1[bb.prologue_index as int]);
    assert(s2[bb.epilogue_index as int] == s1[bb.epilogue_index as int]);
}

/// Lower one function declaration: `Prologue`, one `Param` per parameter,
/// the body, a `Return` of the body's value, `Epilogue`; register its block.
/// A function whose name is already registered is left alone.
#[verifier::rlimit(100)]
pub fn lower_function(b: &mut IrBuilder, f: &crate::ast::FnDecl, ast: &File, fuel: u32)
    requires
        old(b).functions.wf(),
    ensures
        final(b).functions.wf(),
        final(b).temp_symbol == old(b).temp_symbol,
        final(b).label_symbol == old(b).label_symbol,
        old(b).instructions@.len() <= final(b).instructions@.len(),
        forall|i: int|
            0 <= i < old(b).instructions@.len() ==> final(b).instructions@[i] == old(
                b,
            ).instructions@[i],
        final(b).functions.entries@.len() >= old(b).functions.entries@.len(),
        forall|j: int|
            0 <= j < old(b).functions.entries@.len() ==> final(b).functions.entries@[j] == old(
                b,
            ).functions.entries@[j],
        forall|j: int|
            old(b).functions.entries@.len() <= j < final(b).functions.entries@.len()
                ==> block_range_wf(
                final(b).instructions@,
                (#[trigger] final(b).functions.entries@[j]).1,
            ) && jumps_closed(
                crate::x86::body_of(final(b).instructions@, final(b).functions.entries@[j].1),
            ),
        final(b).functions.spec_contains(IrIdent { symbol: f.ident.sym, index: 0 }),
{
    let ident = IrIdent { symbol: f.ident.sym, index: 0 };
    match b.functions.get(ident) {
        Some(_) => {
            return ;
        }
        None => {}
    }
    let enter_v = fresh_version(b);
    let l_enter = IrIdent { symbol: b.label_symbol, index: enter_v };
    let exit_v = fresh_version(b);
    let l_exit = IrIdent { symbol: b.label_symbol, index: exit_v };

    let prologue_index = b.instructions.len();
    b.instructions.push(
        IrInstruction {
            opcode: IrOpcode::Prologue,
            ty: ir_type_of(f.ret_ty),
            op1: IrOperand::Ident(ident),
            op2: IrOperand::Nil,
            op3: IrOperand::Nil,
            span: f.ident.span,
        },
    );

    let mut vars: Vec<(Symbol, u32, TyAnn)> = Vec::new();
    let np = f.params.len();
    let mut i: usize = 0;
    proof {
        empty_range_closed(b.instructions@, prologue_index + 1);
    }
    while i < np
        invariant
            np == f.params@.len(),
            i <= np,
            prologue_index + 1 <= b.instructions@.len(),
            b.functions == old(b).functions,
            b.temp_symbol == old(b).temp_symbol,
            b.label_symbol == old(b).label_symbol,
            forall|j: int|
                0 <= j < prologue_index + 1 ==> b.instructions@[j] == b.instructions@[j],
            b.instructions@.len() >= prologue_index + 1,
            b.instructions@[prologue_index as int].opcode is Prologue,
            forall|j: int|
                0 <= j < old(b).instructions@.len() ==> b.instructions@[j] == old(
                    b,
                ).instructions@[j],
            old(b).instructions@.len() == prologue_index,
            range_closed(b.instructions@, prologue_index + 1, b.instructions@.len() as int),
        decreases np - i,
    {
        let p = f.params[i];
        let ghost g1 = b.instructions@;
        push_plain(
            b,
            IrOpcode::Param,
            ir_type_of(p.ty),
            IrOperand::Ident(IrIdent { symbol: p.ident.sym, index: 0 }),
            IrOperand::Nil,
            IrOperand::Nil,
            p.ident.span,
        );
        vars.push((p.ident.sym, 0, p.ty));
        proof {
            let s = b.instructions@;
            lemma_range_closed_extend(g1, s, prologue_index + 1, g1.len() as int);
            lemma_range_closed_join(s, prologue_index + 1, g1.len() as int, s.len() as int);
        }
        i = i + 1;
    }

    let ghost g2 = b.instructions@;
    let (rop, rt) = lower_expr(b, &f.body, &mut vars, ast, fuel);
    let ghost g3 = b.instructions@;
    push_plain(b, IrOpcode::Return, rt, rop, IrOperand::Nil, IrOperand::Nil, f.body.span);

    let epilogue_index = b.instructions.len();
    b.instructions.push(
        IrInstruction {
            opcode: IrOpcode::Epilogue,
            ty: ir_type_of(f.ret_ty),
            op1: IrOperand::Ident(l_exit),
            op2: IrOperand::Nil,
            op3: IrOperand::Nil,
            span: f.ident.span,
        },
    );

    let bb = IrBasicBlock {
        enter_label: l_enter,
        exit_label: l_exit,
        return_type: ir_type_of(f.ret_ty),
        prologue_index,
        epilogue_index,
        func_address: f.address,
        is_foreign: f.is_foreign,
    };
    b.functions.insert(ident, bb);

    proof {
        let s = b.instructions@;
        lemma_range_closed_extend(g2, s, prologue_index + 1, g2.len() as int);
        lemma_range_closed_extend(g3, s, g2.len() as int, g3.len() as int);
        lemma_range_closed_join(s, prologue_index + 1, g2.len() as int, g3.len() as int);
        assert(range_closed(s, g3.len() as int, g3.len() as int + 1));
        lemma_range_closed_join(s, prologue_index + 1, g3.len() as int, g3.len() as int + 1);
        assert(s[prologue_index as int].opcode is Prologue);
        assert(s[epilogue_index as int].opcode is Epilogue);
        lemma_range_closed_body(s, prologue_index + 1, epilogue_index as int);
        assert(crate::x86::body_of(s, bb) == s.subrange(
            prologue_index + 1,
            epilogue_index as int,
        ));
        assert(block_range_wf(s, bb));
    }
}

/// Lower every function item of a file. The result is a valid IR: unique
/// entries, boundary indices that frame each function, and every jump
/// targeting a label of its own body.
pub fn build_ir_from_ast(b: &mut IrBuilder, ast: &File, fuel: u32)
    requires
        ir_valid(old(b).instructions@, old(b).functions),
    ensures
        ir_valid(final(b).instructions@, final(b).functions),
        final(b).temp_symbol == old(b).temp_symbol,
        final(b).label_symbol == old(b).label_symbol,
        forall|i: int|
            0 <= i < ast.items@.len() ==> ((#[trigger] ast.items@[i]) matches Item::Fn(f)
                ==> final(b).functions.spec_contains(IrIdent { symbol: f.ident.sym, index: 0 })),
{
    let n = ast.items.len();
    let mut i: usize = 0;
    while i < n
        invariant
            n == ast.items@.len(),
            i <= n,
            b.temp_symbol == old(b).temp_symbol,
            b.label_symbol == old(b).label_symbol,
            ir_valid(b.instructions@, b.functions),
            forall|j: int|
                0 <= j < i ==> ((#[trigger] ast.items@[j]) matches Item::Fn(f)
                    ==> b.functions.spec_contains(IrIdent { symbol: f.ident.sym, index: 0 })),
        decreases n - i,
    {
        let ghost pre = *b;
        match &ast.items[i] {
            Item::Fn(f) => {
                lower_function(b, f, ast, fuel);
                proof {
                    assert forall|j: int|
                        0 <= j < b.functions.entries@.len() implies block_range_wf(
                        b.instructions@,
                        (#[trigger] b.functions.entries@[j]).1,
                    ) && jumps_closed(
                        crate::x86::body_of(b.instructions@, b.functions.entries@[j].1),
                    ) by {
                        if j < pre.functions.entries@.len() {
                            assert(b.functions.entries@[j] == pre.functions.entries@[j]);
                            lemma_block_wf_extend(
                                pre.instructions@,
                                b.instructions@,
                                pre.functions.entries@[j].1,
                            );
                        }
                    }
                    assert forall|j: int|
                        0 <= j < i + 1 implies ((#[trigger] ast.items@[j]) matches Item::Fn(f2)
                        ==> b.functions.spec_contains(
                        IrIdent { symbol: f2.ident.sym, index: 0 },
                    )) by {
                        if j < i {
                            match ast.items@[j] {
                                Item::Fn(f2) => {
                                    assert(pre.functions.spec_contains(
                                        IrIdent { symbol: f2.ident.sym, index: 0 },
                                    ));
                                    lemma_contains_preserved(
                                        pre.functions.entries@,
                                        b.functions.entries@,
                                        IrIdent { symbol: f2.ident.sym, index: 0 },
                                    );
                                }
                            }
                        }
                    }
                }
            }
        }
        i = i + 1;
    }
}

/// Valid IR encodes with every jump target resolved: combining the
/// lowering's validity with a finished encoding leaves no pending
/// displacement field anywhere.
pub proof fn lemma_valid_ir_leaves_no_pending(
    x86: crate::x86::X86Assembler,
    instructions: Seq<IrInstruction>,
    ft: FunctionTable,
)
    requires
        ir_valid(instructions, ft),
        crate::x86::program_encoded(x86, instructions, ft.entries@),
    ensures
        forall|l: IrIdent| #[trigger] x86.pending(l).len() == 0,
{
    crate::x86::lemma_no_pending_after_encoding(x86, instructions, ft.entries@);
}

/// A key found in a prefix is still found after entries are appended.
proof fn lemma_contains_preserved(
    e1: Seq<(IrIdent, IrBasicBlock)>,
    e2: Seq<(IrIdent, IrBasicBlock)>,
    key: IrIdent,
)
    requires
        e1.len() <= e2.len(),
        forall|j: int| 0 <= j < e1.len() ==> e2[j] == e1[j],
        crate::ir::table_index_of(e1, key) >= 0,
    ensures
        crate::ir::table_index_of(e2, key) >= 0,
    decreases e1.len(),
{
    if e1.len() > 0 {
        if e1[0].0 == key {
            assert(e2[0] == e1[0]);
        } else {
            assert(e2[0] == e1[0]);
            lemma_contains_preserved(e1.skip(1), e2.skip(1), key);
            assert(forall|j: int| 0 <= j < e1.skip(1).len() ==> e2.skip(1)[j] == e1.skip(1)[j]);
        }
    }
}

} // verus!
