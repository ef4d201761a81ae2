use firstc::ast::Expr;
use firstc::ast::File;
use firstc::ast::FnDecl;
use firstc::ast::Ident;
use firstc::ast::Interner;
use firstc::ast::Item;
use firstc::ast::Op;
use firstc::ast::Param;
use firstc::ast::Span;
use firstc::ast::SpanExpr;
use firstc::ast::SpanOp;
use firstc::ast::TyAnn;
use firstc::ast::Val;
use firstc::ast::has_main_function;
use firstc::interp::Env;
use firstc::interp::RuntimeError;
use firstc::interp::compute_binop;
use firstc::interp::compute_unop;
use firstc::interp::eval;
use firstc::interp::eval_expr;
use firstc::interp::get_bool;
use firstc::interp::get_function;
use firstc::interp::get_ident;
use firstc::interp::get_int;
use firstc::interp::map_res;

const FUEL: u32 = 1 << 20;

fn sp(offset: u32) -> Span {
    Span { file: 0, offset, len: 1 }
}

fn ex(expr: Expr) -> SpanExpr {
    SpanExpr { span: sp(0), expr }
}

fn num(n: i32) -> SpanExpr {
    ex(Expr::Val(Val::Num(n)))
}

fn binop(l: SpanExpr, op: Op, r: SpanExpr) -> SpanExpr {
    ex(Expr::BinOp(Box::new(l), SpanOp { span: sp(0), op }, Box::new(r)))
}

fn binop_at(l: SpanExpr, op: Op, op_span: Span, r: SpanExpr) -> SpanExpr {
    ex(Expr::BinOp(Box::new(l), SpanOp { span: op_span, op }, Box::new(r)))
}

fn ident(sym: u32) -> SpanExpr {
    ex(Expr::Ident(sym))
}

fn block(stmts: Vec<SpanExpr>) -> SpanExpr {
    ex(Expr::Block(stmts))
}

fn local(sym: u32, ty: TyAnn, init: SpanExpr) -> SpanExpr {
    ex(Expr::Local(true, Ident { sym, span: sp(0) }, ty, Box::new(init)))
}

fn assign(sym: u32, rhs: SpanExpr) -> SpanExpr {
    ex(Expr::Assign(Ident { sym, span: sp(0) }, Box::new(rhs)))
}

fn fn_item(sym: u32, params: Vec<Param>, ret: TyAnn, body: SpanExpr) -> Item {
    Item::Fn(FnDecl {
        ident: Ident { sym, span: sp(0) },
        params,
        ret_ty: ret,
        body,
        is_foreign: false,
        address: None,
    })
}

fn main_file(body: SpanExpr) -> (File, u32) {
    let mut it = Interner::new();
    let main_sym = it.intern_string("main");
    let file = File { items: vec![fn_item(main_sym, vec![], TyAnn::I32, body)], error_count: 0 };
    (file, main_sym)
}

#[test]
fn interpret_arith_precedence() {
    // fn main() -> i32 { 7 + 2 * 3 }
    let body = block(vec![binop(num(7), Op::Add, binop(num(2), Op::Mul, num(3)))]);
    let (file, main_sym) = main_file(body);
    assert_eq!(eval(&file, main_sym, FUEL), Ok(13));
}

#[test]
fn interpret_locals_and_sub() {
    // fn main() -> i32 { let x: i32 = 10; let y: i32 = 4; x - y }
    let mut it = Interner::new();
    let main_sym = it.intern_string("main");
    let x = it.intern_string("x");
    let y = it.intern_string("y");
    let body = block(vec![
        local(x, TyAnn::I32, num(10)),
        local(y, TyAnn::I32, num(4)),
        binop(ident(x), Op::Sub, ident(y)),
    ]);
    let file = File { items: vec![fn_item(main_sym, vec![], TyAnn::I32, body)], error_count: 0 };
    assert_eq!(eval(&file, main_sym, FUEL), Ok(6));
}

#[test]
fn interpret_if_else() {
    // fn main() -> i32 { if 3 < 5 { 1 } else { 0 } }
    let body = block(vec![ex(Expr::If(
        Box::new(binop(num(3), Op::LessThan, num(5))),
        Box::new(block(vec![num(1)])),
        Box::new(block(vec![num(0)])),
    ))]);
    let (file, main_sym) = main_file(body);
    assert_eq!(eval(&file, main_sym, FUEL), Ok(1));
}

#[test]
fn interpret_recursive_fib() {
    // fn fib(n: i32) -> i32 { if n < 2 { n } else { fib(n-1) + fib(n-2) } }
    // fn main() -> i32 { fib(10) }
    let mut it = Interner::new();
    let main_sym = it.intern_string("main");
    let fib = it.intern_string("fib");
    let n = it.intern_string("n");
    let call = |arg: SpanExpr| ex(Expr::Call(Ident { sym: fib, span: sp(0) }, vec![arg]));
    let fib_body = block(vec![ex(Expr::If(
        Box::new(binop(ident(n), Op::LessThan, num(2))),
        Box::new(block(vec![ident(n)])),
        Box::new(block(vec![binop(
            call(binop(ident(n), Op::Sub, num(1))),
            Op::Add,
            call(binop(ident(n), Op::Sub, num(2))),
        )])),
    ))]);
    let fib_params = vec![Param { ident: Ident { sym: n, span: sp(0) }, ty: TyAnn::I32, mutable: false }];
    let main_body = block(vec![ex(Expr::Call(Ident { sym: fib, span: sp(0) }, vec![num(10)]))]);
    let file = File {
        items: vec![
            fn_item(fib, fib_params, TyAnn::I32, fib_body),
            fn_item(main_sym, vec![], TyAnn::I32, main_body),
        ],
        error_count: 0,
    };
    assert_eq!(eval(&file, main_sym, FUEL), Ok(55));
}

#[test]
fn interpret_while_sum() {
    // fn main() -> i32 { let mut i = 0; let mut s = 0; while i < 5 { s = s + i; i = i + 1; } s }
    let mut it = Interner::new();
    let main_sym = it.intern_string("main");
    let i = it.intern_string("i");
    let s = it.intern_string("s");
    let body = block(vec![
        local(i, TyAnn::I32, num(0)),
        local(s, TyAnn::I32, num(0)),
        ex(Expr::While(
            Box::new(binop(ident(i), Op::LessThan, num(5))),
            Box::new(block(vec![
                assign(s, binop(ident(s), Op::Add, ident(i))),
                assign(i, binop(ident(i), Op::Add, num(1))),
            ])),
        )),
        ident(s),
    ]);
    let file = File { items: vec![fn_item(main_sym, vec![], TyAnn::I32, body)], error_count: 0 };
    assert_eq!(eval(&file, main_sym, FUEL), Ok(10));
}

#[test]
fn interpret_division_by_zero_faults() {
    // fn main() -> i32 { 10 / 0 } reports an invalid expression at the `/`.
    let div_span = Span { file: 0, offset: 33, len: 1 };
    let body = block(vec![binop_at(num(10), Op::Div, div_span, num(0))]);
    let (file, main_sym) = main_file(body);
    assert_eq!(eval(&file, main_sym, FUEL), Err(RuntimeError::InvalidExpression(div_span)));
}

#[test]
fn interner_equal_strings_equal_symbols() {
    let mut it = Interner::new();
    let a1 = it.intern_string("alpha");
    let b1 = it.intern_string("beta");
    let a2 = it.intern_string("alpha");
    let b2 = it.intern_string("beta");
    assert_eq!(a1, a2);
    assert_eq!(b1, b2);
    assert_ne!(a1, b1);
}

#[test]
fn binop_commutative_operators() {
    let l = (sp(1), Val::Num(21));
    let r = (sp(2), Val::Num(4));
    for op in [Op::Add, Op::Mul, Op::Equal, Op::NotEq] {
        let o = SpanOp { span: sp(9), op };
        assert_eq!(compute_binop(l, o, r), compute_binop(r, o, l));
    }
    let bl = (sp(1), Val::Bool(true));
    let br = (sp(2), Val::Bool(false));
    for op in [Op::And, Op::Or, Op::Equal, Op::NotEq] {
        let o = SpanOp { span: sp(9), op };
        assert_eq!(compute_binop(bl, o, br), compute_binop(br, o, bl));
    }
}

#[test]
fn binop_non_commutative_operators() {
    let l = (sp(1), Val::Num(7));
    let r = (sp(2), Val::Num(3));
    for op in [Op::Sub, Op::Div, Op::Mod, Op::LessThan, Op::LessEq, Op::LargerThan, Op::LargerEq] {
        let o = SpanOp { span: sp(9), op };
        assert_ne!(compute_binop(l, o, r), compute_binop(r, o, l));
    }
}

#[test]
fn binop_exact_values() {
    let l = (sp(1), Val::Num(7));
    let r = (sp(2), Val::Num(3));
    let o = |op| SpanOp { span: sp(9), op };
    assert_eq!(compute_binop(l, o(Op::Add), r), Ok(Val::Num(10)));
    assert_eq!(compute_binop(l, o(Op::Sub), r), Ok(Val::Num(4)));
    assert_eq!(compute_binop(l, o(Op::Mul), r), Ok(Val::Num(21)));
    assert_eq!(compute_binop(l, o(Op::Div), r), Ok(Val::Num(2)));
    assert_eq!(compute_binop(l, o(Op::Mod), r), Ok(Val::Num(1)));
    assert_eq!(compute_binop(l, o(Op::LessThan), r), Ok(Val::Bool(false)));
    assert_eq!(compute_binop(l, o(Op::LargerEq), r), Ok(Val::Bool(true)));
    // wrapping arithmetic
    let big = (sp(1), Val::Num(i32::MAX));
    let one = (sp(2), Val::Num(1));
    assert_eq!(compute_binop(big, o(Op::Add), one), Ok(Val::Num(i32::MIN)));
}

#[test]
fn binop_division_and_modulo_by_zero() {
    let l = (sp(1), Val::Num(10));
    let z = (sp(2), Val::Num(0));
    let o = SpanOp { span: sp(7), op: Op::Div };
    assert_eq!(compute_binop(l, o, z), Err(RuntimeError::InvalidExpression(sp(7))));
    let o = SpanOp { span: sp(8), op: Op::Mod };
    assert_eq!(compute_binop(l, o, z), Err(RuntimeError::InvalidExpression(sp(8))));
}

#[test]
fn binop_kind_mismatch_is_type_error() {
    let l = (sp(1), Val::Num(10));
    let r = (sp(2), Val::Bool(true));
    let o = SpanOp { span: sp(7), op: Op::Add };
    assert_eq!(compute_binop(l, o, r), Err(RuntimeError::TypeError(sp(2))));
    assert_eq!(compute_binop(r, o, l), Err(RuntimeError::TypeError(sp(1))));
    let o = SpanOp { span: sp(7), op: Op::LessThan };
    let bl = (sp(3), Val::Bool(false));
    assert_eq!(compute_binop(bl, o, r), Err(RuntimeError::InvalidExpression(sp(7))));
}

#[test]
fn unop_negate_and_not() {
    let o = |op| SpanOp { span: sp(5), op };
    assert_eq!(compute_unop(o(Op::Sub), (sp(1), Val::Num(9))), Ok(Val::Num(-9)));
    assert_eq!(compute_unop(o(Op::Not), (sp(1), Val::Bool(false))), Ok(Val::Bool(true)));
    assert_eq!(
        compute_unop(o(Op::Not), (sp(1), Val::Num(1))),
        Err(RuntimeError::InvalidExpression(sp(5)))
    );
}

#[test]
fn helpers_extract_values() {
    assert_eq!(get_int(&(sp(1), Val::Num(3))), Ok(3));
    assert_eq!(get_int(&(sp(1), Val::Bool(true))), Err(RuntimeError::TypeError(sp(1))));
    assert_eq!(get_bool(&(sp(2), Val::Bool(true))), Ok(true));
    assert_eq!(get_bool(&(sp(2), Val::Num(0))), Err(RuntimeError::TypeError(sp(2))));
    assert_eq!(get_ident(&ident(4)), Ok(4));
    assert!(get_ident(&num(4)).is_err());
    assert_eq!(map_res(sp(3), Ok(Val::Num(2))), Ok((sp(3), Val::Num(2))));
    assert_eq!(
        map_res(sp(3), Err(RuntimeError::MemoryError(sp(4)))),
        Err(RuntimeError::MemoryError(sp(4)))
    );
}

#[test]
fn function_lookup_and_main_detection() {
    let (file, main_sym) = main_file(block(vec![num(0)]));
    assert!(has_main_function(&file, main_sym));
    assert!(!has_main_function(&file, main_sym + 1));
    assert_eq!(get_function(main_sym, &file), Ok(0));
    assert!(get_function(main_sym + 1, &file).is_err());
}

#[test]
fn env_shadowing_and_assignment() {
    let mut env = Env::new();
    env.store(1, Val::Num(10));
    env.store(2, Val::Num(20));
    env.store(1, Val::Num(30));
    assert_eq!(env.load(1), Some(Val::Num(30)));
    assert_eq!(env.load(2), Some(Val::Num(20)));
    assert!(env.assign(2, Val::Num(25)));
    assert_eq!(env.load(2), Some(Val::Num(25)));
    assert!(!env.assign(9, Val::Num(0)));
    let depth = env.depth();
    assert_eq!(depth, 3);
    env.truncate(1);
    assert_eq!(env.load(1), Some(Val::Num(10)));
    assert_eq!(env.load(2), None);
}

#[test]
fn eval_expr_threads_environment() {
    let (file, _main) = main_file(block(vec![num(0)]));
    let mut env = Env::new();
    env.store(5, Val::Num(41));
    let e = binop(ident(5), Op::Add, num(1));
    let r = eval_expr(&e, &mut env, &file, FUEL);
    assert_eq!(r, Ok((sp(0), Val::Num(42))));
}

#[test]
fn eval_out_of_fuel_reports_memory_error() {
    let (file, main_sym) = main_file(block(vec![num(0)]));
    assert!(matches!(eval(&file, main_sym, 1), Err(RuntimeError::MemoryError(_))));
}

#[test]
fn binop_division_overflow_faults() {
    let l = (sp(1), Val::Num(i32::MIN));
    let m = (sp(2), Val::Num(-1));
    let o = SpanOp { span: sp(7), op: Op::Div };
    assert_eq!(compute_binop(l, o, m), Err(RuntimeError::InvalidExpression(sp(7))));
    let o = SpanOp { span: sp(8), op: Op::Mod };
    assert_eq!(compute_binop(l, o, m), Err(RuntimeError::InvalidExpression(sp(8))));
}
