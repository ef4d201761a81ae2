use firstc::ast::Expr;
use firstc::ast::File;
use firstc::ast::FnDecl;
use firstc::ast::Ident;
use firstc::ast::Interner;
use firstc::ast::Item;
use firstc::ast::Span;
use firstc::ast::SpanExpr;
use firstc::ast::TyAnn;
use firstc::ast::Val;
use firstc::ir::FunctionTable;
use firstc::ir::IrBasicBlock;
use firstc::ir::IrIdent;
use firstc::ir::IrOpcode;
use firstc::ir::IrType;
use firstc::ir::create_ir_ident;
use firstc::ir::size_of_ir_type;
use firstc::lower::build_ir_from_ast;
use firstc::lower::create_ir_builder;
use firstc::x86::X86Assembler;
use firstc::x86::X86Opcode;
use firstc::x86::X86Reg;
use firstc::x86::X86Value;
use firstc::x86::compile_ir_to_x86_machine_code;
use firstc::x86::get_MI_opcode;
use firstc::x86::get_MR_opcode;
use firstc::x86::get_RM_opcode;
use firstc::x86::modrm;
use firstc::x86::modrm_disp;
use firstc::x86::push_displacement;
use firstc::x86::push_immediate;
use firstc::x86::push_rel32_target;
use firstc::x86::reg_id;
use firstc::x86::resolve_jump_target;

fn empty_assembler() -> X86Assembler {
    X86Assembler {
        machine_code: Vec::new(),
        functions: Vec::new(),
        jump_targets: Vec::new(),
        debug_break_symbol: 0,
        addr_size: 8,
    }
}

fn sp() -> Span {
    Span { file: 0, offset: 0, len: 0 }
}

#[test]
fn register_ids_and_modrm_bytes() {
    assert_eq!(reg_id(X86Reg::RAX), 0);
    assert_eq!(reg_id(X86Reg::RBP), 5);
    assert_eq!(reg_id(X86Reg::RSP), 4);
    assert_eq!(reg_id(X86Reg::R15), 7);
    assert_eq!(modrm(0, 5), 0xc5);
    assert_eq!(modrm(6, 5), 0xf5);
    assert_eq!(modrm_disp(0, 5, -8), 0x45);
    assert_eq!(modrm_disp(0, 5, -200), 0x85);
}

#[test]
fn opcode_tables_match_the_forms() {
    assert_eq!(get_MR_opcode(X86Opcode::MOV, 0), 0x89);
    assert_eq!(get_MR_opcode(X86Opcode::MOV, 1), 0x88);
    assert_eq!(get_RM_opcode(X86Opcode::MOV, 0), 0x8b);
    assert_eq!(get_RM_opcode(X86Opcode::ADD, 0), 0x03);
    assert_eq!(get_MR_opcode(X86Opcode::XOR, 0), 0x31);
    assert_eq!(get_MI_opcode(X86Opcode::MOV, 0), (0xc7, 0));
    assert_eq!(get_MI_opcode(X86Opcode::SUB, 0), (0x81, 5));
    assert_eq!(get_MI_opcode(X86Opcode::CMP, 0), (0x81, 7));
}

#[test]
fn displacements_use_short_form_only_within_a_byte() {
    // 1-byte form inside [-128, 127], 4-byte little-endian form outside.
    let mut x86 = empty_assembler();
    push_displacement(&mut x86, -8);
    assert_eq!(x86.machine_code, vec![0xf8]);
    let mut x86 = empty_assembler();
    push_displacement(&mut x86, 127);
    assert_eq!(x86.machine_code, vec![0x7f]);
    let mut x86 = empty_assembler();
    push_displacement(&mut x86, -128);
    assert_eq!(x86.machine_code, vec![0x80]);
    let mut x86 = empty_assembler();
    push_displacement(&mut x86, 128);
    assert_eq!(x86.machine_code, vec![0x80, 0x00, 0x00, 0x00]);
    let mut x86 = empty_assembler();
    push_displacement(&mut x86, -129);
    assert_eq!(x86.machine_code, vec![0x7f, 0xff, 0xff, 0xff]);
}

#[test]
fn immediates_are_little_endian() {
    let mut x86 = empty_assembler();
    push_immediate(&mut x86, X86Value::Int8(-1));
    assert_eq!(x86.machine_code, vec![0xff]);
    let mut x86 = empty_assembler();
    push_immediate(&mut x86, X86Value::Int32(0x01020304));
    assert_eq!(x86.machine_code, vec![0x04, 0x03, 0x02, 0x01]);
    let mut x86 = empty_assembler();
    push_immediate(&mut x86, X86Value::Int64(0x0102030405060708));
    assert_eq!(x86.machine_code, vec![0x08, 0x07, 0x06, 0x05, 0x04, 0x03, 0x02, 0x01]);
}

#[test]
fn forward_jump_is_patched_on_resolution() {
    let mut x86 = empty_assembler();
    let label = create_ir_ident(7, 0);
    x86.machine_code.push(0xe9);
    push_rel32_target(&mut x86, label);
    assert_eq!(x86.machine_code, vec![0xe9, 0x00, 0x00, 0x00, 0x00]);
    x86.machine_code.push(0x90);
    resolve_jump_target(&mut x86, label);
    // target = 6, site field at 1: displacement = 6 - (1 + 4) = 1
    assert_eq!(x86.machine_code, vec![0xe9, 0x01, 0x00, 0x00, 0x00, 0x90]);
    // no pending site remains
    assert!(x86.jump_targets.iter().all(|jt| jt.jumps.is_empty()));
}

#[test]
fn backward_jump_gets_a_negative_displacement() {
    let mut x86 = empty_assembler();
    let label = create_ir_ident(8, 0);
    resolve_jump_target(&mut x86, label);
    x86.machine_code.push(0xe9);
    push_rel32_target(&mut x86, label);
    // target = 0, field at 1: displacement = 0 - 5 = -5
    assert_eq!(x86.machine_code, vec![0xe9, 0xfb, 0xff, 0xff, 0xff]);
}

#[test]
fn resolution_refuses_to_move_a_label() {
    let mut x86 = empty_assembler();
    let label = create_ir_ident(9, 0);
    resolve_jump_target(&mut x86, label);
    x86.machine_code.push(0x90);
    resolve_jump_target(&mut x86, label);
    assert_eq!(x86.jump_targets.len(), 1);
    assert_eq!(x86.jump_targets[0].pos, Some(0));
}

#[test]
fn ir_type_sizes() {
    assert_eq!(size_of_ir_type(IrType::I8, 8), 1);
    assert_eq!(size_of_ir_type(IrType::I32, 8), 4);
    assert_eq!(size_of_ir_type(IrType::U64, 8), 8);
    assert_eq!(size_of_ir_type(IrType::Bool, 8), 1);
    assert_eq!(size_of_ir_type(IrType::Ptr, 4), 4);
    assert_eq!(size_of_ir_type(IrType::Unit, 8), 0);
}

#[test]
fn function_table_keeps_insertion_order() {
    let mut ft = FunctionTable::new();
    let bb = IrBasicBlock {
        enter_label: create_ir_ident(1, 0),
        exit_label: create_ir_ident(1, 1),
        return_type: IrType::I32,
        prologue_index: 0,
        epilogue_index: 1,
        func_address: None,
        is_foreign: false,
    };
    ft.insert(create_ir_ident(5, 0), bb);
    assert_eq!(ft.len(), 1);
    assert!(ft.get(create_ir_ident(5, 0)).is_some());
    assert!(ft.get(create_ir_ident(6, 0)).is_none());
    assert_eq!(ft.entry_at(0).0, create_ir_ident(5, 0));
}

fn lower_program(items: Vec<Item>) -> (firstc::lower::IrBuilder, u32, u32) {
    let mut it = Interner::new();
    let main_sym = it.intern_string("main");
    let dbg_sym = it.intern_string("debug_break");
    let tmp = it.intern_string("$t");
    let lbl = it.intern_string("$l");
    let file = File { items, error_count: 0 };
    let mut b = create_ir_builder(tmp, lbl);
    build_ir_from_ast(&mut b, &file, 1 << 20);
    (b, main_sym, dbg_sym)
}

fn main_item(main_sym: u32, body: SpanExpr) -> Item {
    Item::Fn(FnDecl {
        ident: Ident { sym: main_sym, span: sp() },
        params: vec![],
        ret_ty: TyAnn::I32,
        body,
        is_foreign: false,
        address: None,
    })
}

#[test]
fn lowering_frames_each_function() {
    let body = SpanExpr { span: sp(), expr: Expr::Block(vec![SpanExpr { span: sp(), expr: Expr::Val(Val::Num(42)) }]) };
    let (b, main_sym, _dbg) = lower_program(vec![main_item(0, body)]);
    // intern order above: "main" is symbol 0
    assert_eq!(main_sym, 0);
    assert_eq!(b.functions.len(), 1);
    let (ident, bb) = b.functions.entry_at(0);
    assert_eq!(ident, create_ir_ident(main_sym, 0));
    assert!(bb.prologue_index < bb.epilogue_index);
    assert!(matches!(b.instructions[bb.prologue_index].opcode, IrOpcode::Prologue));
    assert!(matches!(b.instructions[bb.epilogue_index].opcode, IrOpcode::Epilogue));
    assert!(matches!(b.instructions[bb.epilogue_index - 1].opcode, IrOpcode::Return));
}

#[test]
fn machine_code_for_constant_main() {
    // fn main() -> i32 { 42 }
    let body = SpanExpr { span: sp(), expr: Expr::Block(vec![SpanExpr { span: sp(), expr: Expr::Val(Val::Num(42)) }]) };
    let (b, main_sym, dbg) = lower_program(vec![main_item(0, body)]);
    let code = compile_ir_to_x86_machine_code(b.instructions, b.functions, main_sym, dbg, 8);
    let expected: Vec<u8> = vec![
        0xff, 0xf5, // push rbp
        0x48, 0x8b, 0xec, // mov rbp, rsp
        0x48, 0x81, 0xec, 0x00, 0x00, 0x00, 0x00, // sub rsp, 0
        0xc7, 0xc0, 0x2a, 0x00, 0x00, 0x00, // mov eax, 42
        0x48, 0x81, 0xc4, 0x00, 0x00, 0x00, 0x00, // add rsp, 0
        0x8f, 0xc5, // pop rbp
        0xc3, // ret
    ];
    assert_eq!(code, expected);
}

#[test]
fn machine_code_for_branching_main_patches_all_jumps() {
    // fn main() -> i32 { if true { 1 } else { 0 } }
    let cond = SpanExpr { span: sp(), expr: Expr::Val(Val::Bool(true)) };
    let one = SpanExpr { span: sp(), expr: Expr::Block(vec![SpanExpr { span: sp(), expr: Expr::Val(Val::Num(1)) }]) };
    let zero = SpanExpr { span: sp(), expr: Expr::Block(vec![SpanExpr { span: sp(), expr: Expr::Val(Val::Num(0)) }]) };
    let body = SpanExpr {
        span: sp(),
        expr: Expr::Block(vec![SpanExpr {
            span: sp(),
            expr: Expr::If(Box::new(cond), Box::new(one), Box::new(zero)),
        }]),
    };
    let (b, main_sym, dbg) = lower_program(vec![main_item(0, body)]);
    let code = compile_ir_to_x86_machine_code(b.instructions, b.functions, main_sym, dbg, 8);
    // jz (0f 84) for the branch and e9 for the jump over the else arm
    assert!(code.windows(2).any(|w| w == [0x0f, 0x84]));
    assert!(code.contains(&0xe9));
    assert_eq!(*code.last().unwrap(), 0xc3);
}

#[test]
fn machine_code_for_call_uses_relative_call() {
    // fn other() -> i32 { 3 }  fn main() -> i32 { other() }
    let mut it = Interner::new();
    let main_sym = it.intern_string("main");
    let other = it.intern_string("other");
    let other_body = SpanExpr { span: sp(), expr: Expr::Block(vec![SpanExpr { span: sp(), expr: Expr::Val(Val::Num(3)) }]) };
    let main_body = SpanExpr {
        span: sp(),
        expr: Expr::Block(vec![SpanExpr {
            span: sp(),
            expr: Expr::Call(Ident { sym: other, span: sp() }, vec![]),
        }]),
    };
    let items = vec![
        Item::Fn(FnDecl {
            ident: Ident { sym: other, span: sp() },
            params: vec![],
            ret_ty: TyAnn::I32,
            body: other_body,
            is_foreign: false,
            address: None,
        }),
        main_item(main_sym, main_body),
    ];
    let dbg = it.intern_string("debug_break");
    let tmp = it.intern_string("$t");
    let lbl = it.intern_string("$l");
    let file = File { items, error_count: 0 };
    let mut b = create_ir_builder(tmp, lbl);
    build_ir_from_ast(&mut b, &file, 1 << 20);
    let code = compile_ir_to_x86_machine_code(b.instructions, b.functions, main_sym, dbg, 8);
    assert!(code.contains(&0xe8));
    assert_eq!(*code.last().unwrap(), 0xc3);
}

#[test]
fn machine_code_for_local_uses_short_displacement_and_aligned_frame() {
    // fn main() -> i32 { let x: i32 = 10; x }
    let mut it = Interner::new();
    let main_sym = it.intern_string("main");
    let x = it.intern_string("x");
    let dbg = it.intern_string("debug_break");
    let tmp = it.intern_string("$t");
    let lbl = it.intern_string("$l");
    let body = SpanExpr {
        span: sp(),
        expr: Expr::Block(vec![
            SpanExpr {
                span: sp(),
                expr: Expr::Local(
                    false,
                    Ident { sym: x, span: sp() },
                    TyAnn::I32,
                    Box::new(SpanExpr { span: sp(), expr: Expr::Val(Val::Num(10)) }),
                ),
            },
            SpanExpr { span: sp(), expr: Expr::Ident(x) },
        ]),
    };
    let file = File { items: vec![main_item(main_sym, body)], error_count: 0 };
    let mut b = create_ir_builder(tmp, lbl);
    build_ir_from_ast(&mut b, &file, 1 << 20);
    let code = compile_ir_to_x86_machine_code(b.instructions, b.functions, main_sym, dbg, 8);
    let expected: Vec<u8> = vec![
        0xff, 0xf5, // push rbp
        0x48, 0x8b, 0xec, // mov rbp, rsp
        0x48, 0x81, 0xec, 0x10, 0x00, 0x00, 0x00, // sub rsp, 16 (4 bytes rounded up)
        0xc7, 0x45, 0xfc, 0x0a, 0x00, 0x00, 0x00, // mov [rbp-4], 10 (1-byte displacement)
        0x8b, 0x45, 0xfc, // mov eax, [rbp-4]
        0x48, 0x81, 0xc4, 0x10, 0x00, 0x00, 0x00, // add rsp, 16
        0x8f, 0xc5, // pop rbp
        0xc3, // ret
    ];
    assert_eq!(code, expected);
}
