//! The x86-64 machine-code encoder.
//!
//! The encoder walks the IR instruction vector function by function and
//! appends bytes to one growing buffer. Forward references are handled with
//! a patch list: every jump, branch or call to a label that is not yet
//! resolved leaves a zeroed 4-byte relative-displacement field behind and
//! records its position; resolving a label patches every recorded field with
//! the signed 32-bit displacement `target - (site + 4)` and drains the list.
//! Resolution is idempotent: a label resolves once and refuses to move.

use vstd::prelude::*;
use vstd::pervasive::VecAdditionalExecFns;

use crate::ast::Symbol;
use crate::ir::IrBasicBlock;
use crate::ir::create_ir_ident;
use crate::ir::IrIdent;
use crate::ir::IrInstruction;
use crate::ir::IrOpcode;
use crate::ir::IrOperand;
use crate::ir::IrType;
use crate::ir::IrValue;
use crate::ir::FunctionTable;
use crate::ir::size_of_ir_type;

verus! {

/// The REX.W prefix: selects 64-bit operand size.
pub const REX_W: u8 = 0x48;

/// x86 opcodes the encoder distinguishes.
#[derive(Debug, Clone, Copy, PartialEq, Eq, Structural)]
pub enum X86Opcode {
    NOP,
    MOV,
    ADD,
    SUB,
    AND,
    OR,
    XOR,
    CMP,
    TEST,
    JMP,
    CALL,
    RET,
    INT3,
}

/// x86 registers; only the low eight are addressed by the trivial scratch
/// policy.
#[derive(Debug, Clone, Copy, PartialEq, Eq, Structural)]
pub enum X86Reg {
    RAX,
    RCX,
    RDX,
    RBX,
    RSP,
    RBP,
    RSI,
    RDI,
    R8,
    R9,
    R10,
    R11,
    R12,
    R13,
    R14,
    R15,
}

/// An immediate constant of 1, 4 or 8 bytes.
#[derive(Debug, Clone, Copy, PartialEq, Eq, Structural)]
pub enum X86Value {
    Int8(i8),
    Int32(i32),
    Int64(i64),
}

/// A materialised operand: a stack slot relative to RBP, a register, or an
/// immediate.
#[derive(Debug, Clone, Copy, PartialEq, Eq, Structural)]
pub enum X86Operand {
    Stack(isize),
    Register(X86Reg),
    Value(X86Value),
}

/// Per-function encoding record.
#[derive(Debug, Clone, Copy)]
pub struct X86Function {
    pub prologue_byte_position: usize,
    pub epilogue_byte_offset: usize,
    pub byte_length: usize,
    pub enter_label: IrIdent,
    pub exit_label: IrIdent,
    pub return_type: IrType,
    pub func_address: Option<usize>,
    pub is_foreign: bool,
}

/// A jump target: the sites whose displacement fields still await the label,
/// and the label's resolved byte position once it has one.
#[derive(Debug)]
pub struct X86JumpTarget {
    pub label: IrIdent,
    pub jumps: Vec<usize>,
    pub pos: Option<usize>,
}

/// The encoder state.
pub struct X86Assembler {
    pub machine_code: Vec<u8>,
    pub functions: Vec<(IrIdent, X86Function)>,
    pub jump_targets: Vec<X86JumpTarget>,
    pub debug_break_symbol: Symbol,
    pub addr_size: usize,
}

/// Little-endian bytes of a 32-bit value.
pub open spec fn le4(v: u32) -> Seq<u8> {
    seq![
        (v & 0xff) as u8,
        ((v >> 8) & 0xff) as u8,
        ((v >> 16) & 0xff) as u8,
        ((v >> 24) & 0xff) as u8,
    ]
}

/// Little-endian bytes of a 64-bit value.
pub open spec fn le8(v: u64) -> Seq<u8> {
    seq![
        (v & 0xff) as u8,
        ((v >> 8) & 0xff) as u8,
        ((v >> 16) & 0xff) as u8,
        ((v >> 24) & 0xff) as u8,
        ((v >> 32) & 0xff) as u8,
        ((v >> 40) & 0xff) as u8,
        ((v >> 48) & 0xff) as u8,
        ((v >> 56) & 0xff) as u8,
    ]
}

/// The signed 32-bit displacement from the end of a 4-byte field at `site`
/// to `target`, as its unsigned bit pattern.
pub open spec fn rel32(target: usize, site: usize) -> u32 {
    (target - (site + 4)) as u32
}

/// Register number in ModR/M encoding; R8..R15 reuse 0..7 (they would need
/// a REX.R bit, which the trivial register policy never requires).
pub open spec fn spec_reg_id(reg: X86Reg) -> u8 {
    match reg {
        X86Reg::RAX => 0u8,
        X86Reg::RCX => 1u8,
        X86Reg::RDX => 2u8,
        X86Reg::RBX => 3u8,
        X86Reg::RSP => 4u8,
        X86Reg::RBP => 5u8,
        X86Reg::RSI => 6u8,
        X86Reg::RDI => 7u8,
        X86Reg::R8 => 0u8,
        X86Reg::R9 => 1u8,
        X86Reg::R10 => 2u8,
        X86Reg::R11 => 3u8,
        X86Reg::R12 => 4u8,
        X86Reg::R13 => 5u8,
        X86Reg::R14 => 6u8,
        X86Reg::R15 => 7u8,
    }
}

/// Executable twin of [`spec_reg_id`].
#[verifier::when_used_as_spec(spec_reg_id)]
pub fn reg_id(reg: X86Reg) -> (r: u8)
    ensures
        r == spec_reg_id(reg),
        r < 8,
{
    match reg {
        X86Reg::RAX => 0,
        X86Reg::RCX => 1,
        X86Reg::RDX => 2,
        X86Reg::RBX => 3,
        X86Reg::RSP => 4,
        X86Reg::RBP => 5,
        X86Reg::RSI => 6,
        X86Reg::RDI => 7,
        X86Reg::R8 => 0,
        X86Reg::R9 => 1,
        X86Reg::R10 => 2,
        X86Reg::R11 => 3,
        X86Reg::R12 => 4,
        X86Reg::R13 => 5,
        X86Reg::R14 => 6,
        X86Reg::R15 => 7,
    }
}

/// The ModR/M byte for a register/register pair (mod = 11).
pub open spec fn spec_modrm(reg: u8, rm: u8) -> u8 {
    0b1100_0000u8 | (reg << 3u8) | rm
}

/// Executable twin of [`spec_modrm`].
#[verifier::when_used_as_spec(spec_modrm)]
#[inline]
pub fn modrm(reg: u8, rm: u8) -> (r: u8)
    ensures
        r == spec_modrm(reg, rm),
{
    0b1100_0000u8 | (reg << 3u8) | rm
}

/// Whether a displacement fits the 1-byte ModR/M form.
pub open spec fn disp_fits_byte(disp: int) -> bool {
    -128 <= disp <= 127
}

/// The ModR/M byte for a register/memory pair: mod = 01 with an 8-bit
/// displacement when the displacement is in `[-128, 127]`, mod = 10 with a
/// 32-bit displacement otherwise.
pub open spec fn spec_modrm_disp(reg: u8, rm: u8, disp: int) -> u8 {
    if disp_fits_byte(disp) {
        0b0100_0000u8 | (reg << 3u8) | rm
    } else {
        0b1000_0000u8 | (reg << 3u8) | rm
    }
}

/// Executable twin of [`spec_modrm_disp`].
#[inline]
pub fn modrm_disp(reg: u8, rm: u8, disp: isize) -> (r: u8)
    ensures
        r == spec_modrm_disp(reg, rm, disp as int),
{
    if -128 <= disp && disp <= 127 {
        0b0100_0000u8 | (reg << 3u8) | rm
    } else {
        0b1000_0000u8 | (reg << 3u8) | rm
    }
}

/// The opcodes the three form tables cover.
pub open spec fn table_opcode(opcode: X86Opcode) -> bool {
    match opcode {
        X86Opcode::MOV => true,
        X86Opcode::ADD => true,
        X86Opcode::SUB => true,
        X86Opcode::AND => true,
        X86Opcode::OR => true,
        X86Opcode::XOR => true,
        X86Opcode::CMP => true,
        X86Opcode::TEST => true,
        _ => false,
    }
}

/// MR-form opcode byte (memory destination, register source); subtracting
/// the offset selects the 8-bit variant.
pub open spec fn spec_mr_opcode(opcode: X86Opcode, opcode_offset: u8) -> u8 {
    match opcode {
        X86Opcode::MOV => (0x89 - opcode_offset) as u8,
        X86Opcode::ADD => (0x01 - opcode_offset) as u8,
        X86Opcode::SUB => (0x29 - opcode_offset) as u8,
        X86Opcode::AND => (0x20 - opcode_offset) as u8,
        X86Opcode::OR => (0x08 - opcode_offset) as u8,
        X86Opcode::XOR => (0x31 - opcode_offset) as u8,
        X86Opcode::CMP => (0x39 - opcode_offset) as u8,
        X86Opcode::TEST => (0x84 - opcode_offset) as u8,
        _ => 0u8,
    }
}

/// Executable twin of [`spec_mr_opcode`].
#[allow(non_snake_case)]
pub fn get_MR_opcode(opcode: X86Opcode, opcode_offset: u8) -> (r: u8)
    requires
        table_opcode(opcode),
        opcode_offset <= 1,
    ensures
        r == spec_mr_opcode(opcode, opcode_offset),
{
    match opcode {
        X86Opcode::MOV => 0x89 - opcode_offset,
        X86Opcode::ADD => 0x01 - opcode_offset,
        X86Opcode::SUB => 0x29 - opcode_offset,
        X86Opcode::AND => 0x20 - opcode_offset,
        X86Opcode::OR => 0x08 - opcode_offset,
        X86Opcode::XOR => 0x31 - opcode_offset,
        X86Opcode::CMP => 0x39 - opcode_offset,
        X86Opcode::TEST => 0x84 - opcode_offset,
        _ => 0,
    }
}

/// RM-form opcode byte (register destination, memory source).
pub open spec fn spec_rm_opcode(opcode: X86Opcode, opcode_offset: u8) -> u8 {
    match opcode {
        X86Opcode::MOV => (0x8b - opcode_offset) as u8,
        X86Opcode::ADD => (0x03 - opcode_offset) as u8,
        X86Opcode::SUB => (0x2b - opcode_offset) as u8,
        X86Opcode::AND => (0x22 - opcode_offset) as u8,
        X86Opcode::OR => (0x0a - opcode_offset) as u8,
        X86Opcode::XOR => (0x33 - opcode_offset) as u8,
        X86Opcode::CMP => (0x3b - opcode_offset) as u8,
        X86Opcode::TEST => (0x84 - opcode_offset) as u8,
        _ => 0u8,
    }
}

/// Executable twin of [`spec_rm_opcode`].
#[allow(non_snake_case)]
pub fn get_RM_opcode(opcode: X86Opcode, opcode_offset: u8) -> (r: u8)
    requires
        table_opcode(opcode),
        opcode_offset <= 1,
    ensures
        r == spec_rm_opcode(opcode, opcode_offset),
{
    match opcode {
        X86Opcode::MOV => 0x8b - opcode_offset,
        X86Opcode::ADD => 0x03 - opcode_offset,
        X86Opcode::SUB => 0x2b - opcode_offset,
        X86Opcode::AND => 0x22 - opcode_offset,
        X86Opcode::OR => 0x0a - opcode_offset,
        X86Opcode::XOR => 0x33 - opcode_offset,
        X86Opcode::CMP => 0x3b - opcode_offset,
        X86Opcode::TEST => 0x84 - opcode_offset,
        _ => 0,
    }
}

/// MI-form opcode byte and its /digit (memory or register destination,
/// immediate source).
pub open spec fn spec_mi_opcode(opcode: X86Opcode, opcode_offset: u8) -> (u8, u8) {
    match opcode {
        X86Opcode::MOV => (((0xc7 - opcode_offset) as u8), 0u8),
        X86Opcode::ADD => (((0x81 - opcode_offset) as u8), 0u8),
        X86Opcode::SUB => (((0x81 - opcode_offset) as u8), 5u8),
        X86Opcode::AND => (((0x81 - opcode_offset) as u8), 4u8),
        X86Opcode::OR => (((0x81 - opcode_offset) as u8), 1u8),
        X86Opcode::XOR => (((0x81 - opcode_offset) as u8), 6u8),
        X86Opcode::CMP => (((0x81 - opcode_offset) as u8), 7u8),
        X86Opcode::TEST => (((0xf6 - opcode_offset) as u8), 0u8),
        _ => (0u8, 0u8),
    }
}

/// Executable twin of [`spec_mi_opcode`].
#[allow(non_snake_case)]
pub fn get_MI_opcode(opcode: X86Opcode, opcode_offset: u8) -> (r: (u8, u8))
    requires
        table_opcode(opcode),
        opcode_offset <= 1,
    ensures
        r == spec_mi_opcode(opcode, opcode_offset),
{
    match opcode {
        X86Opcode::MOV => (0xc7 - opcode_offset, 0),
        X86Opcode::ADD => (0x81 - opcode_offset, 0),
        X86Opcode::SUB => (0x81 - opcode_offset, 5),
        X86Opcode::AND => (0x81 - opcode_offset, 4),
        X86Opcode::OR => (0x81 - opcode_offset, 1),
        X86Opcode::XOR => (0x81 - opcode_offset, 6),
        X86Opcode::CMP => (0x81 - opcode_offset, 7),
        X86Opcode::TEST => (0xf6 - opcode_offset, 0),
        _ => (0, 0),
    }
}

/// The encoded displacement: the single byte of the value when it is in
/// `[-128, 127]`, its 4 little-endian bytes otherwise.
pub open spec fn disp_bytes(disp: int) -> Seq<u8> {
    if disp_fits_byte(disp) {
        seq![(disp as i8) as u8]
    } else {
        le4(disp as u32)
    }
}

/// Append the ModR/M displacement for `disp`: the 1-byte form exactly when
/// `disp` is in `[-128, 127]`, the 4-byte little-endian form otherwise.
pub fn push_displacement(x86: &mut X86Assembler, disp: isize)
    requires
        -0x8000_0000 <= disp <= 0x7fff_ffff,
    ensures
        final(x86).machine_code@ == old(x86).machine_code@ + disp_bytes(disp as int),
        final(x86).functions == old(x86).functions,
        final(x86).jump_targets == old(x86).jump_targets,
        final(x86).debug_break_symbol == old(x86).debug_break_symbol,
        final(x86).addr_size == old(x86).addr_size,
{
    if -128 <= disp && disp <= 127 {
        let b: i8 = #[verifier::truncate] (disp as i8);
        let u: u8 = #[verifier::truncate] (b as u8);
        x86.machine_code.push(u);
        proof {
            assert(final(x86).machine_code@ =~= old(x86).machine_code@ + disp_bytes(disp as int));
        }
    } else {
        let v: u32 = #[verifier::truncate] (disp as u32);
        x86.machine_code.push((v & 0xff) as u8);
        x86.machine_code.push(((v >> 8) & 0xff) as u8);
        x86.machine_code.push(((v >> 16) & 0xff) as u8);
        x86.machine_code.push(((v >> 24) & 0xff) as u8);
        proof {
            assert(v == disp as u32) by (bit_vector)
                requires
                    v == disp as u32,
            ;
            assert(final(x86).machine_code@ =~= old(x86).machine_code@ + disp_bytes(disp as int));
        }
    }
}

/// The bytes of an immediate: 1, 4 or 8 little-endian bytes by its width.
pub open spec fn imm_bytes(v: X86Value) -> Seq<u8> {
    match v {
        X86Value::Int8(b) => seq![b as u8],
        X86Value::Int32(w) => le4(w as u32),
        X86Value::Int64(w) => le8(w as u64),
    }
}

/// Append an immediate in little-endian order.
pub fn push_immediate(x86: &mut X86Assembler, immediate: X86Value)
    ensures
        final(x86).machine_code@ == old(x86).machine_code@ + imm_bytes(immediate),
        final(x86).functions == old(x86).functions,
        final(x86).jump_targets == old(x86).jump_targets,
        final(x86).debug_break_symbol == old(x86).debug_break_symbol,
        final(x86).addr_size == old(x86).addr_size,
{
    match immediate {
        X86Value::Int8(b) => {
            let u: u8 = #[verifier::truncate] (b as u8);
            x86.machine_code.push(u);
            proof {
                assert(final(x86).machine_code@ =~= old(x86).machine_code@ + imm_bytes(immediate));
            }
        }
        X86Value::Int32(w) => {
            let v: u32 = #[verifier::truncate] (w as u32);
            x86.machine_code.push((v & 0xff) as u8);
            x86.machine_code.push(((v >> 8) & 0xff) as u8);
            x86.machine_code.push(((v >> 16) & 0xff) as u8);
            x86.machine_code.push(((v >> 24) & 0xff) as u8);
            proof {
                assert(final(x86).machine_code@ =~= old(x86).machine_code@ + imm_bytes(immediate));
            }
        }
        X86Value::Int64(w) => {
            let v: u64 = #[verifier::truncate] (w as u64);
            x86.machine_code.push((v & 0xff) as u8);
            x86.machine_code.push(((v >> 8) & 0xff) as u8);
            x86.machine_code.push(((v >> 16) & 0xff) as u8);
            x86.machine_code.push(((v >> 24) & 0xff) as u8);
            x86.machine_code.push(((v >> 32) & 0xff) as u8);
            x86.machine_code.push(((v >> 40) & 0xff) as u8);
            x86.machine_code.push(((v >> 48) & 0xff) as u8);
            x86.machine_code.push(((v >> 56) & 0xff) as u8);
            proof {
                assert(final(x86).machine_code@ =~= old(x86).machine_code@ + imm_bytes(immediate));
            }
        }
    }
}

/// Append a 32-bit value in little-endian order.
fn push_u32_le(x86: &mut X86Assembler, v: u32)
    ensures
        final(x86).machine_code@ == old(x86).machine_code@ + le4(v),
        forall|t: int|
            0 <= t < old(x86).machine_code@.len() ==> (#[trigger] final(x86).machine_code@[t])
                == old(x86).machine_code@[t],
        final(x86).functions@ == old(x86).functions@,
        final(x86).jump_targets == old(x86).jump_targets,
        final(x86).debug_break_symbol == old(x86).debug_break_symbol,
        final(x86).addr_size == old(x86).addr_size,
{
    x86.machine_code.push((v & 0xff) as u8);
    x86.machine_code.push(((v >> 8) & 0xff) as u8);
    x86.machine_code.push(((v >> 16) & 0xff) as u8);
    x86.machine_code.push(((v >> 24) & 0xff) as u8);
    proof {
        assert(final(x86).machine_code@ =~= old(x86).machine_code@ + le4(v));
    }
}

/// Overwrite the 4-byte field at `pos` with `v` in little-endian order.
fn patch_u32_le(code: &mut Vec<u8>, pos: usize, v: u32)
    requires
        pos + 4 <= old(code)@.len(),
    ensures
        final(code)@.len() == old(code)@.len(),
        forall|b: int| 0 <= b < old(code)@.len() && !(pos <= b < pos + 4) ==> final(code)@[b] == old(code)@[b],
        final(code)@.subrange(pos as int, pos + 4) == le4(v),
{
    let n = code.len();
    code.set(pos, (v & 0xff) as u8);
    code.set(pos + 1, ((v >> 8) & 0xff) as u8);
    code.set(pos + 2, ((v >> 16) & 0xff) as u8);
    code.set(pos + 3, ((v >> 24) & 0xff) as u8);
    proof {
        assert(final(code)@.subrange(pos as int, pos + 4) =~= le4(v));
    }
}

/// First index in `jts` whose label is `l`, or -1.
pub open spec fn jt_index_of(jts: Seq<X86JumpTarget>, l: IrIdent) -> int
    decreases jts.len(),
{
    if jts.len() == 0 {
        -1
    } else if jts[0].label == l {
        0
    } else {
        let rest = jt_index_of(jts.skip(1), l);
        if rest == -1 {
            -1
        } else {
            rest + 1
        }
    }
}

pub proof fn lemma_jt_index_of(jts: Seq<X86JumpTarget>, l: IrIdent)
    ensures
        -1 <= jt_index_of(jts, l) < jts.len(),
        jt_index_of(jts, l) >= 0 ==> jts[jt_index_of(jts, l)].label == l,
        jt_index_of(jts, l) == -1 ==> forall|i: int|
            0 <= i < jts.len() ==> (#[trigger] jts[i]).label != l,
    decreases jts.len(),
{
    if jts.len() > 0 && jts[0].label != l {
        lemma_jt_index_of(jts.skip(1), l);
        if jt_index_of(jts, l) == -1 {
            assert forall|i: int| 0 <= i < jts.len() implies (#[trigger] jts[i]).label != l by {
                if i > 0 {
                    assert(jts[i] == jts.skip(1)[i - 1]);
                }
            }
        }
    }
}

proof fn lemma_jt_first_match(jts: Seq<X86JumpTarget>, l: IrIdent, i: int)
    requires
        0 <= i < jts.len(),
        jts[i].label == l,
        forall|j: int| 0 <= j < i ==> (#[trigger] jts[j]).label != l,
    ensures
        jt_index_of(jts, l) == i,
    decreases jts.len(),
{
    if i > 0 {
        assert(jts[0].label != l);
        lemma_jt_first_match(jts.skip(1), l, i - 1);
        assert(forall|k: int| 0 <= k < jts.skip(1).len() ==> jts.skip(1)[k] == jts[k + 1]);
    }
}

impl X86Assembler {
    /// Whether a jump-target record exists for `l`.
    pub open spec fn has_target(&self, l: IrIdent) -> bool {
        jt_index_of(self.jump_targets@, l) >= 0
    }

    /// The byte position `l` resolved to, if it did.
    pub open spec fn target_pos(&self, l: IrIdent) -> Option<usize> {
        if self.has_target(l) {
            self.jump_targets@[jt_index_of(self.jump_targets@, l)].pos
        } else {
            None
        }
    }

    /// Whether `l` has resolved to a byte position.
    pub open spec fn resolved(&self, l: IrIdent) -> bool {
        self.target_pos(l) is Some
    }

    /// The displacement-field positions still waiting for `l`.
    pub open spec fn pending(&self, l: IrIdent) -> Seq<usize> {
        if self.has_target(l) {
            self.jump_targets@[jt_index_of(self.jump_targets@, l)].jumps@
        } else {
            Seq::empty()
        }
    }

    /// Jump-target bookkeeping is sound against the code buffer: labels are
    /// recorded once, a resolved target keeps no pending sites, and every
    /// pending 4-byte field lies inside the buffer, no two overlapping.
    pub open spec fn wf(&self) -> bool {
        let jts = self.jump_targets@;
        &&& forall|i: int, j: int|
            0 <= i < j < jts.len() ==> (#[trigger] jts[i]).label != (#[trigger] jts[j]).label
        &&& forall|i: int|
            0 <= i < jts.len() ==> ((#[trigger] jts[i]).pos matches Some(p) ==> p
                <= self.machine_code@.len() && jts[i].jumps@.len() == 0)
        &&& forall|i: int, k: int|
            0 <= i < jts.len() && 0 <= k < (#[trigger] jts[i]).jumps@.len() ==> (
            #[trigger] jts[i].jumps@[k]) + 4 <= self.machine_code@.len()
        &&& forall|i: int, j: int, k: int, m: int|
            0 <= i < jts.len() && 0 <= j < jts.len() && 0 <= k < jts[i].jumps@.len() && 0 <= m
                < jts[j].jumps@.len() && (i != j || k != m) ==> (#[trigger] jts[i].jumps@[k]) + 4
                <= (#[trigger] jts[j].jumps@[m]) || jts[j].jumps@[m] + 4 <= jts[i].jumps@[k]
    }
}

/// Index of the record for `label`, creating an unresolved record with no
/// pending sites when none exists yet.
pub fn get_mut_x86_jump_target(x86: &mut X86Assembler, label: IrIdent) -> (idx: usize)
    requires
        old(x86).wf(),
    ensures
        final(x86).wf(),
        final(x86).machine_code == old(x86).machine_code,
        final(x86).functions@ == old(x86).functions@,
        final(x86).debug_break_symbol == old(x86).debug_break_symbol,
        final(x86).addr_size == old(x86).addr_size,
        idx < final(x86).jump_targets@.len(),
        jt_index_of(final(x86).jump_targets@, label) == idx,
        final(x86).jump_targets@[idx as int].label == label,
        old(x86).has_target(label) ==> final(x86).jump_targets == old(x86).jump_targets,
        !old(x86).has_target(label) ==> final(x86).jump_targets@.len() == old(
            x86,
        ).jump_targets@.len() + 1 && final(x86).jump_targets@[idx as int].jumps@.len() == 0
            && final(x86).jump_targets@[idx as int].pos is None && forall|j: int|
            0 <= j < old(x86).jump_targets@.len() ==> final(x86).jump_targets@[j] == old(
                x86,
            ).jump_targets@[j],
        forall|l: IrIdent| #[trigger] final(x86).target_pos(l) == old(x86).target_pos(l),
        forall|l: IrIdent| #[trigger] final(x86).pending(l) == old(x86).pending(l),
        forall|l: IrIdent|
            #[trigger] final(x86).has_target(l) == (old(x86).has_target(l) || l == label),
{
    let ghost jts0 = x86.jump_targets@;
    let n = x86.jump_targets.len();
    let mut i: usize = 0;
    while i < n
        invariant
            n == x86.jump_targets@.len(),
            i <= n,
            x86 == old(x86),
            old(x86).wf(),
            forall|j: int| 0 <= j < i ==> (#[trigger] x86.jump_targets@[j]).label != label,
        decreases n - i,
    {
        let found = x86.jump_targets[i].label == label;
        if found {
            proof {
                lemma_jt_first_match(x86.jump_targets@, label, i as int);
            }
            return i;
        }
        i = i + 1;
    }
    proof {
        lemma_jt_index_of(jts0, label);
        assert(!old(x86).has_target(label));
    }
    x86.jump_targets.push(X86JumpTarget { label, jumps: Vec::new(), pos: None });
    proof {
        lemma_jt_first_match(x86.jump_targets@, label, n as int);
        assert forall|l: IrIdent| l != label implies jt_index_of(x86.jump_targets@, l)
            == jt_index_of(jts0, l) by {
            lemma_jt_index_of(jts0, l);
            if jt_index_of(jts0, l) >= 0 {
                let j = jt_index_of(jts0, l);
                assert forall|m: int| 0 <= m < j implies (#[trigger] x86.jump_targets@[m]).label
                    != l by {
                    lemma_jt_prefix_distinct(jts0, l, m);
                }
                lemma_jt_first_match(x86.jump_targets@, l, j);
            } else {
                lemma_jt_index_of(x86.jump_targets@, l);
                if jt_index_of(x86.jump_targets@, l) >= 0 {
                    let j = jt_index_of(x86.jump_targets@, l);
                    assert(x86.jump_targets@[j].label == l);
                    if j < jts0.len() {
                        assert(jts0[j].label == l);
                    }
                }
            }
        }
        assert(forall|j: int| 0 <= j < jts0.len() ==> x86.jump_targets@[j] == jts0[j]);
        assert forall|l: IrIdent| #[trigger] x86.target_pos(l) == old(x86).target_pos(l) by {
            lemma_jt_preserve(jts0, x86.jump_targets@, l, label);
        }
        assert forall|l: IrIdent| #[trigger] x86.pending(l) == old(x86).pending(l) by {
            lemma_jt_preserve(jts0, x86.jump_targets@, l, label);
            if l == label {
                assert(x86.pending(l) =~= old(x86).pending(l));
            }
        }
        assert(x86.wf());
    }
    n
}

proof fn lemma_jt_preserve(jts0: Seq<X86JumpTarget>, jts1: Seq<X86JumpTarget>, l: IrIdent, label: IrIdent)
    requires
        jt_index_of(jts0, label) == -1,
        jts1.len() == jts0.len() + 1,
        jts1[jts0.len() as int].label == label,
        jts1[jts0.len() as int].pos is None,
        jts1[jts0.len() as int].jumps@.len() == 0,
        forall|j: int| 0 <= j < jts0.len() ==> jts1[j] == jts0[j],
    ensures
        l == label ==> jt_index_of(jts1, l) == jts0.len(),
        l != label ==> jt_index_of(jts1, l) == jt_index_of(jts0, l),
        l != label && jt_index_of(jts0, l) >= 0 ==> jts1[jt_index_of(jts0, l)] == jts0[jt_index_of(
            jts0,
            l,
        )],
{
    lemma_jt_index_of(jts0, l);
    if l == label {
        lemma_jt_first_match(jts1, label, jts0.len() as int);
    } else {
        if jt_index_of(jts0, l) >= 0 {
            let j = jt_index_of(jts0, l);
            assert forall|m: int| 0 <= m < j implies (#[trigger] jts1[m]).label != l by {
                lemma_jt_prefix_distinct(jts0, l, m);
            }
            lemma_jt_first_match(jts1, l, j);
        } else {
            lemma_jt_index_of(jts1, l);
            if jt_index_of(jts1, l) >= 0 {
                let j = jt_index_of(jts1, l);
                assert(jts1[j].label == l);
                if j < jts0.len() {
                    assert(jts0[j].label == l);
                }
            }
        }
    }
}

proof fn lemma_jt_prefix_distinct(jts: Seq<X86JumpTarget>, l: IrIdent, j: int)
    requires
        0 <= j < jts.len(),
        j < jt_index_of(jts, l),
    ensures
        jts[j].label != l,
    decreases j,
{
    if j == 0 {
        assert(jts[0].label != l);
    } else {
        assert(jts[0].label != l);
        lemma_jt_prefix_distinct(jts.skip(1), l, j - 1);
        assert(jts.skip(1)[j - 1] == jts[j]);
    }
}

/// The opcode-table offset an IR type selects: 1 picks the 8-bit opcode.
pub open spec fn opcode_offset_of(ty: IrType) -> u8 {
    if ty is I8 {
        1u8
    } else {
        0u8
    }
}

/// The REX.W prefix an IR type demands: present for the 64-bit types.
pub open spec fn rex_bytes(ty: IrType) -> Seq<u8> {
    if ty is I64 || ty is U64 || ty is Ptr {
        seq![REX_W]
    } else {
        Seq::empty()
    }
}

/// The complete encoding of one two-operand instruction: optional REX.W,
/// then the form picked by the operand pair. A stack-to-stack move runs
/// through scratch register RAX (RM load, then MR store).
#[verifier::opaque]
pub open spec fn instruction_bytes(
    opcode: X86Opcode,
    ty: IrType,
    dst: X86Operand,
    src: X86Operand,
) -> Seq<u8> {
    let off = opcode_offset_of(ty);
    rex_bytes(ty) + match (dst, src) {
        (X86Operand::Stack(d1), X86Operand::Stack(d2)) => seq![
            spec_rm_opcode(opcode, off),
            spec_modrm_disp(0, 5, d2 as int),
        ] + disp_bytes(d2 as int) + seq![
            spec_mr_opcode(opcode, off),
            spec_modrm_disp(0, 5, d1 as int),
        ] + disp_bytes(d1 as int),
        (X86Operand::Stack(d), X86Operand::Register(r)) => seq![
            spec_mr_opcode(opcode, off),
            spec_modrm_disp(spec_reg_id(r), 5, d as int),
        ] + disp_bytes(d as int),
        (X86Operand::Stack(d), X86Operand::Value(v)) => seq![
            spec_mi_opcode(opcode, off).0,
            spec_modrm_disp(spec_mi_opcode(opcode, off).1, 5, d as int),
        ] + disp_bytes(d as int) + imm_bytes(v),
        (X86Operand::Register(r), X86Operand::Stack(d)) => seq![
            spec_rm_opcode(opcode, off),
            spec_modrm_disp(spec_reg_id(r), 5, d as int),
        ] + disp_bytes(d as int),
        (X86Operand::Register(r1), X86Operand::Register(r2)) => seq![
            spec_rm_opcode(opcode, off),
            spec_modrm(spec_reg_id(r1), spec_reg_id(r2)),
        ],
        (X86Operand::Register(r), X86Operand::Value(v)) => seq![
            spec_mi_opcode(opcode, off).0,
            spec_modrm(spec_mi_opcode(opcode, off).1, spec_reg_id(r)),
        ] + imm_bytes(v),
        _ => Seq::empty(),
    }
}

/// An operand's displacement is in signed 32-bit range.
pub open spec fn operand_disp_in_range(op: X86Operand) -> bool {
    op matches X86Operand::Stack(d) ==> -0x8000_0000 <= d as int <= 0x7fff_ffff
}

/// Append the encoding of one two-operand instruction.
#[verifier::rlimit(60)]
pub fn push_instruction(
    x86: &mut X86Assembler,
    opcode: X86Opcode,
    ty: IrType,
    dst: X86Operand,
    src: X86Operand,
)
    requires
        table_opcode(opcode),
        !(dst is Value),
        operand_disp_in_range(dst),
        operand_disp_in_range(src),
    ensures
        final(x86).machine_code@ == old(x86).machine_code@ + instruction_bytes(
            opcode,
            ty,
            dst,
            src,
        ),
        forall|t: int|
            0 <= t < old(x86).machine_code@.len() ==> (#[trigger] final(x86).machine_code@[t])
                == old(x86).machine_code@[t],
        final(x86).functions@ == old(x86).functions@,
        final(x86).jump_targets == old(x86).jump_targets,
        final(x86).debug_break_symbol == old(x86).debug_break_symbol,
        final(x86).addr_size == old(x86).addr_size,
{
    proof {
        reveal(instruction_bytes);
    }
    let opcode_offset: u8 = match ty {
        IrType::I8 => 1,
        IrType::I64 | IrType::U64 | IrType::Ptr => {
            x86.machine_code.push(REX_W);
            0
        }
        _ => 0,
    };

    match (dst, src) {
        (X86Operand::Stack(disp1), X86Operand::Stack(disp2)) => {
            let reg = X86Reg::RAX;
            let b1 = get_RM_opcode(opcode, opcode_offset);
            x86.machine_code.push(b1);
            let b2 = modrm_disp(reg_id(reg), reg_id(X86Reg::RBP), disp2);
            x86.machine_code.push(b2);
            push_displacement(x86, disp2);

            let b3 = get_MR_opcode(opcode, opcode_offset);
            x86.machine_code.push(b3);
            let b4 = modrm_disp(reg_id(reg), reg_id(X86Reg::RBP), disp1);
            x86.machine_code.push(b4);
            push_displacement(x86, disp1);
            proof {
                assert(x86.machine_code@ =~= old(x86).machine_code@ + instruction_bytes(
                    opcode,
                    ty,
                    dst,
                    src,
                ));
            }
        }
        (X86Operand::Stack(disp), X86Operand::Register(reg)) => {
            let b1 = get_MR_opcode(opcode, opcode_offset);
            x86.machine_code.push(b1);
            let b2 = modrm_disp(reg_id(reg), reg_id(X86Reg::RBP), disp);
            x86.machine_code.push(b2);
            push_displacement(x86, disp);
            proof {
                assert(x86.machine_code@ =~= old(x86).machine_code@ + instruction_bytes(
                    opcode,
                    ty,
                    dst,
                    src,
                ));
            }
        }
        (X86Operand::Stack(disp), X86Operand::Value(val)) => {
            let (op_byte, opcode_reg) = get_MI_opcode(opcode, opcode_offset);
            x86.machine_code.push(op_byte);
            let b2 = modrm_disp(opcode_reg, reg_id(X86Reg::RBP), disp);
            x86.machine_code.push(b2);
            push_displacement(x86, disp);
            push_immediate(x86, val);
            proof {
                assert(x86.machine_code@ =~= old(x86).machine_code@ + instruction_bytes(
                    opcode,
                    ty,
                    dst,
                    src,
                ));
            }
        }
        (X86Operand::Register(reg), X86Operand::Stack(disp)) => {
            let b1 = get_RM_opcode(opcode, opcode_offset);
            x86.machine_code.push(b1);
            let b2 = modrm_disp(reg_id(reg), reg_id(X86Reg::RBP), disp);
            x86.machine_code.push(b2);
            push_displacement(x86, disp);
            proof {
                assert(x86.machine_code@ =~= old(x86).machine_code@ + instruction_bytes(
                    opcode,
                    ty,
                    dst,
                    src,
                ));
            }
        }
        (X86Operand::Register(reg1), X86Operand::Register(reg2)) => {
            let b1 = get_RM_opcode(opcode, opcode_offset);
            x86.machine_code.push(b1);
            let b2 = modrm(reg_id(reg1), reg_id(reg2));
            x86.machine_code.push(b2);
            proof {
                assert(x86.machine_code@ =~= old(x86).machine_code@ + instruction_bytes(
                    opcode,
                    ty,
                    dst,
                    src,
                ));
            }
        }
        (X86Operand::Register(reg), X86Operand::Value(val)) => {
            let (op_byte, opcode_reg) = get_MI_opcode(opcode, opcode_offset);
            x86.machine_code.push(op_byte);
            let b2 = modrm(opcode_reg, reg_id(reg));
            x86.machine_code.push(b2);
            push_immediate(x86, val);
            proof {
                assert(x86.machine_code@ =~= old(x86).machine_code@ + instruction_bytes(
                    opcode,
                    ty,
                    dst,
                    src,
                ));
            }
        }
        _ => {}
    }
}

/// Whether byte position `b` lies inside one of the 4-byte fields at `sites`.
pub open spec fn site_covers(sites: Seq<usize>, b: int) -> bool {
    exists|k: int| 0 <= k < sites.len() && (#[trigger] sites[k]) <= b < sites[k] + 4
}

/// Compute the relative displacement bit pattern `target - (site + 4)`.
fn rel32_exec(target: usize, site: usize) -> (r: u32)
    ensures
        r == rel32(target, site),
{
    let t: u64 = target as u64;
    let s: u64 = site as u64;
    let d: u32 = #[verifier::truncate] (t.wrapping_sub(s).wrapping_sub(4u64) as u32);
    proof {
        assert(d == ((t - (s + 4)) as u32)) by (bit_vector)
            requires
                d == (t.wrapping_sub(s).wrapping_sub(4u64) as u32),
        ;
    }
    d
}

/// Append the 4-byte displacement field of a jump, branch or call that
/// targets `label`: the computed displacement when `label` already resolved,
/// a zeroed field recorded as pending otherwise.
pub fn push_rel32_target(x86: &mut X86Assembler, label: IrIdent)
    requires
        old(x86).wf(),
    ensures
        final(x86).wf(),
        final(x86).functions@ == old(x86).functions@,
        final(x86).debug_break_symbol == old(x86).debug_break_symbol,
        final(x86).addr_size == old(x86).addr_size,
        final(x86).machine_code@.len() == old(x86).machine_code@.len() + 4,
        forall|t: int|
            0 <= t < old(x86).machine_code@.len() ==> (#[trigger] final(x86).machine_code@[t])
                == old(x86).machine_code@[t],
        old(x86).target_pos(label) matches Some(p) ==> final(x86).machine_code@ == old(
            x86,
        ).machine_code@ + le4(rel32(p, old(x86).machine_code@.len() as usize)),
        !old(x86).resolved(label) ==> final(x86).machine_code@ == old(x86).machine_code@ + seq![
            0u8,
            0u8,
            0u8,
            0u8,
        ],
        forall|l: IrIdent| #[trigger] final(x86).target_pos(l) == old(x86).target_pos(l),
        forall|l: IrIdent|
            l != label ==> #[trigger] final(x86).pending(l) == old(x86).pending(l),
        old(x86).resolved(label) ==> final(x86).pending(label) == old(x86).pending(label),
        !old(x86).resolved(label) ==> final(x86).pending(label) == old(x86).pending(label).push(
            old(x86).machine_code@.len() as usize,
        ),
{
    let site = x86.machine_code.len();
    let idx = get_mut_x86_jump_target(x86, label);
    let ghost mid = *x86;
    let mut jt = X86JumpTarget { label, jumps: Vec::new(), pos: None };
    x86.jump_targets.set_and_swap(idx, &mut jt);
    let resolved_pos: Option<usize> = jt.pos;
    match resolved_pos {
        Some(p) => {
            x86.jump_targets.set_and_swap(idx, &mut jt);
            proof {
                assert(x86.jump_targets@ =~= mid.jump_targets@);
            }
            let d = rel32_exec(p, site);
            push_u32_le(x86, d);
            proof {
                lemma_same_jts_same_views(*x86, mid);
            }
        }
        None => {
            jt.jumps.push(site);
            x86.jump_targets.set_and_swap(idx, &mut jt);
            x86.machine_code.push(0);
            x86.machine_code.push(0);
            x86.machine_code.push(0);
            x86.machine_code.push(0);
            proof {
                let jts1 = mid.jump_targets@;
                let jts2 = x86.jump_targets@;
                assert(jts2.len() == jts1.len());
                assert(jts2[idx as int].label == label);
                assert(jts2[idx as int].jumps@ == jts1[idx as int].jumps@.push(site));
                assert(jts2[idx as int].pos == jts1[idx as int].pos);
                assert(forall|j: int| 0 <= j < jts1.len() && j != idx ==> jts2[j] == jts1[j]);
                assert forall|l: IrIdent| jt_index_of(jts2, l) == jt_index_of(jts1, l) by {
                    lemma_jt_index_same_labels(jts1, jts2, l);
                }
                assert(x86.machine_code@ =~= old(x86).machine_code@ + seq![0u8, 0u8, 0u8, 0u8]);
                assert forall|l: IrIdent| #[trigger] x86.target_pos(l) == mid.target_pos(l) by {
                    lemma_jt_index_same_labels(jts1, jts2, l);
                    lemma_jt_index_of(jts1, l);
                    if jt_index_of(jts1, l) >= 0 && jt_index_of(jts1, l) != idx {
                        assert(jts2[jt_index_of(jts1, l)] == jts1[jt_index_of(jts1, l)]);
                    }
                }
                assert forall|l: IrIdent| l != label implies #[trigger] x86.pending(l)
                    == mid.pending(l) by {
                    lemma_jt_index_same_labels(jts1, jts2, l);
                    lemma_jt_index_of(jts1, l);
                    if jt_index_of(jts1, l) >= 0 {
                        assert(jt_index_of(jts1, l) != idx);
                        assert(jts2[jt_index_of(jts1, l)] == jts1[jt_index_of(jts1, l)]);
                    }
                }
                assert(x86.pending(label) == mid.pending(label).push(site));
                assert(x86.wf()) by {
                    assert forall|i: int, k: int|
                        0 <= i < jts2.len() && 0 <= k < (#[trigger] jts2[i]).jumps@.len() implies (
                    #[trigger] jts2[i].jumps@[k]) + 4 <= x86.machine_code@.len() by {
                        if i == idx && k == jts1[idx as int].jumps@.len() {
                        } else {
                            assert(jts2[i].jumps@[k] == jts1[i].jumps@[k]);
                        }
                    }
                    assert forall|i: int, j: int, k: int, m: int|
                        0 <= i < jts2.len() && 0 <= j < jts2.len() && 0 <= k
                            < jts2[i].jumps@.len() && 0 <= m < jts2[j].jumps@.len() && (i != j || k
                            != m) implies (#[trigger] jts2[i].jumps@[k]) + 4 <= (
                    #[trigger] jts2[j].jumps@[m]) || jts2[j].jumps@[m] + 4
                        <= jts2[i].jumps@[k] by {
                        let new_k = jts1[idx as int].jumps@.len() as int;
                        if i == idx && k == new_k {
                            if !(j == idx && m == new_k) {
                                assert(jts2[j].jumps@[m] == jts1[j].jumps@[m]);
                                assert(jts1[j].jumps@[m] + 4 <= mid.machine_code@.len());
                            }
                        } else if j == idx && m == new_k {
                            assert(jts2[i].jumps@[k] == jts1[i].jumps@[k]);
                            assert(jts1[i].jumps@[k] + 4 <= mid.machine_code@.len());
                        } else {
                            assert(jts2[i].jumps@[k] == jts1[i].jumps@[k]);
                            assert(jts2[j].jumps@[m] == jts1[j].jumps@[m]);
                        }
                    }
                }
            }
        }
    }
}

proof fn lemma_jt_index_same_labels(jts1: Seq<X86JumpTarget>, jts2: Seq<X86JumpTarget>, l: IrIdent)
    requires
        jts1.len() == jts2.len(),
        forall|i: int| 0 <= i < jts1.len() ==> (#[trigger] jts2[i]).label == jts1[i].label,
    ensures
        jt_index_of(jts2, l) == jt_index_of(jts1, l),
    decreases jts1.len(),
{
    if jts1.len() > 0 {
        assert(jts2[0].label == jts1[0].label);
        if jts1[0].label != l {
            lemma_jt_index_same_labels(jts1.skip(1), jts2.skip(1), l);
        }
    }
}

proof fn lemma_same_jts_same_views(a: X86Assembler, b: X86Assembler)
    requires
        a.jump_targets@ == b.jump_targets@,
    ensures
        forall|l: IrIdent| #[trigger] a.target_pos(l) == b.target_pos(l),
        forall|l: IrIdent| #[trigger] a.pending(l) == b.pending(l),
        forall|l: IrIdent| #[trigger] a.has_target(l) == b.has_target(l),
{
}

/// Resolve `label` at the current end of the code buffer: patch every
/// pending 4-byte field with its displacement and drain the list. A label
/// that already resolved is left untouched; re-resolution is refused.
pub fn resolve_jump_target(x86: &mut X86Assembler, label: IrIdent)
    requires
        old(x86).wf(),
    ensures
        final(x86).wf(),
        final(x86).functions@ == old(x86).functions@,
        final(x86).debug_break_symbol == old(x86).debug_break_symbol,
        final(x86).addr_size == old(x86).addr_size,
        final(x86).machine_code@.len() == old(x86).machine_code@.len(),
        final(x86).resolved(label),
        old(x86).resolved(label) ==> final(x86).machine_code@ == old(x86).machine_code@
            && final(x86).target_pos(label) == old(x86).target_pos(label),
        !old(x86).resolved(label) ==> final(x86).target_pos(label) == Some(
            old(x86).machine_code@.len() as usize,
        ),
        forall|l: IrIdent|
            l != label ==> #[trigger] final(x86).target_pos(l) == old(x86).target_pos(l),
        forall|l: IrIdent| l != label ==> #[trigger] final(x86).pending(l) == old(x86).pending(l),
        final(x86).pending(label).len() == 0,
        forall|b: int|
            0 <= b < old(x86).machine_code@.len() && !site_covers(old(x86).pending(label), b)
                ==> final(x86).machine_code@[b] == old(x86).machine_code@[b],
        !old(x86).resolved(label) ==> forall|k: int|
            0 <= k < old(x86).pending(label).len() ==> final(x86).machine_code@.subrange(
                (#[trigger] old(x86).pending(label)[k]) as int,
                old(x86).pending(label)[k] + 4,
            ) == le4(
                rel32(old(x86).machine_code@.len() as usize, old(x86).pending(label)[k]),
            ),
{
    let pos = x86.machine_code.len();
    let idx = get_mut_x86_jump_target(x86, label);
    let ghost mid = *x86;
    let mut jt = X86JumpTarget { label, jumps: Vec::new(), pos: None };
    x86.jump_targets.set_and_swap(idx, &mut jt);
    let ghost jts1 = mid.jump_targets@;
    match jt.pos {
        Some(_) => {
            x86.jump_targets.set_and_swap(idx, &mut jt);
            proof {
                assert(x86.jump_targets@ =~= mid.jump_targets@);
                lemma_same_jts_same_views(*x86, mid);
                assert(x86.pending(label).len() == 0);
            }
        }
        None => {
            let ghost sites = jt.jumps@;
            proof {
                assert(mid.pending(label) == sites);
                assert(forall|k: int|
                    0 <= k < sites.len() ==> (#[trigger] sites[k]) + 4 <= mid.machine_code@.len());
                assert(forall|k: int, m: int|
                    0 <= k < sites.len() && 0 <= m < sites.len() && k != m ==> (
                    #[trigger] sites[k]) + 4 <= (#[trigger] sites[m]) || sites[m] + 4 <= sites[k]);
            }
            let n = jt.jumps.len();
            let mut k: usize = 0;
            while k < n
                invariant
                    n == sites.len(),
                    k <= n,
                    jt.jumps@ == sites,
                    jt.pos is None,
                    jt.label == label,
                    x86.jump_targets@.len() == jts1.len(),
                    idx < jts1.len(),
                    forall|j: int|
                        0 <= j < jts1.len() && j != idx ==> x86.jump_targets@[j] == jts1[j],
                    x86.jump_targets@[idx as int].jumps@.len() == 0,
                    x86.jump_targets@[idx as int].pos is None,
                    x86.jump_targets@[idx as int].label == label,
                    pos == mid.machine_code@.len(),
                    x86.machine_code@.len() == mid.machine_code@.len(),
                    x86.functions@ == mid.functions@,
                    x86.debug_break_symbol == mid.debug_break_symbol,
                    x86.addr_size == mid.addr_size,
                    forall|m: int|
                        0 <= m < sites.len() ==> (#[trigger] sites[m]) + 4
                            <= mid.machine_code@.len(),
                    forall|m: int, m2: int|
                        0 <= m < sites.len() && 0 <= m2 < sites.len() && m != m2 ==> (
                        #[trigger] sites[m]) + 4 <= (#[trigger] sites[m2]) || sites[m2] + 4
                            <= sites[m],
                    forall|b: int|
                        0 <= b < mid.machine_code@.len() && !site_covers(sites.take(k as int), b)
                            ==> x86.machine_code@[b] == mid.machine_code@[b],
                    forall|m: int|
                        0 <= m < k ==> x86.machine_code@.subrange(
                            (#[trigger] sites[m]) as int,
                            sites[m] + 4,
                        ) == le4(rel32(pos as usize, sites[m])),
                decreases n - k,
            {
                let site = jt.jumps[k];
                let d = rel32_exec(pos, site);
                let ghost prev = x86.machine_code@;
                patch_u32_le(&mut x86.machine_code, site, d);
                proof {
                    assert forall|b: int|
                        0 <= b < mid.machine_code@.len() && !site_covers(
                            sites.take(k + 1),
                            b,
                        ) implies x86.machine_code@[b] == mid.machine_code@[b] by {
                        assert(!site_covers(sites.take(k as int), b)) by {
                            if site_covers(sites.take(k as int), b) {
                                let m = choose|m: int|
                                    0 <= m < sites.take(k as int).len() && (#[trigger] sites.take(
                                        k as int,
                                    )[m]) <= b < sites.take(k as int)[m] + 4;
                                assert(sites.take(k + 1)[m] == sites[m]);
                            }
                        }
                        assert(!(site <= b < site + 4)) by {
                            assert(sites.take(k + 1)[k as int] == site);
                        }
                    }
                    assert forall|m: int|
                        0 <= m < k + 1 implies x86.machine_code@.subrange(
                            (#[trigger] sites[m]) as int,
                            sites[m] + 4,
                        ) == le4(rel32(pos as usize, sites[m])) by {
                        let lo = sites[m] as int;
                        if m < k {
                            assert(site + 4 <= lo || lo + 4 <= site);
                            assert forall|q: int| 0 <= q < 4 implies x86.machine_code@[#[trigger] (
                            lo + q)] == prev[lo + q] by {}
                            assert(x86.machine_code@.subrange(lo, lo + 4) =~= prev.subrange(
                                lo,
                                lo + 4,
                            ));
                            assert(prev.subrange(lo, lo + 4) == le4(rel32(pos as usize, sites[m])));
                        } else {
                            assert(x86.machine_code@.subrange(lo, lo + 4) == le4(d));
                        }
                    }
                }
                k = k + 1;
            }
            jt.pos = Some(pos);
            jt.jumps = Vec::new();
            x86.jump_targets.set_and_swap(idx, &mut jt);
            proof {
                let jts2 = x86.jump_targets@;
                assert(jts2.len() == jts1.len());
                assert(forall|j: int| 0 <= j < jts1.len() && j != idx ==> jts2[j] == jts1[j]);
                assert(jts2[idx as int].label == label);
                assert(jts2[idx as int].pos == Some(pos));
                assert(jts2[idx as int].jumps@.len() == 0);
                assert forall|l: IrIdent| jt_index_of(jts2, l) == jt_index_of(jts1, l) by {
                    lemma_jt_index_same_labels(jts1, jts2, l);
                }
                assert forall|l: IrIdent| l != label implies #[trigger] x86.target_pos(l)
                    == mid.target_pos(l) by {
                    lemma_jt_index_of(jts1, l);
                    if jt_index_of(jts1, l) >= 0 {
                        assert(jt_index_of(jts1, l) != idx);
                        assert(jts2[jt_index_of(jts1, l)] == jts1[jt_index_of(jts1, l)]);
                    }
                }
                assert forall|l: IrIdent| l != label implies #[trigger] x86.pending(l)
                    == mid.pending(l) by {
                    lemma_jt_index_of(jts1, l);
                    if jt_index_of(jts1, l) >= 0 {
                        assert(jt_index_of(jts1, l) != idx);
                        assert(jts2[jt_index_of(jts1, l)] == jts1[jt_index_of(jts1, l)]);
                    }
                }
                assert(x86.wf()) by {
                    assert forall|i: int, j: int, kk: int, m: int|
                        0 <= i < jts2.len() && 0 <= j < jts2.len() && 0 <= kk
                            < jts2[i].jumps@.len() && 0 <= m < jts2[j].jumps@.len() && (i != j || kk
                            != m) implies (#[trigger] jts2[i].jumps@[kk]) + 4 <= (
                    #[trigger] jts2[j].jumps@[m]) || jts2[j].jumps@[m] + 4
                        <= jts2[i].jumps@[kk] by {
                        assert(i != idx && j != idx);
                        assert(jts2[i].jumps@[kk] == jts1[i].jumps@[kk]);
                        assert(jts2[j].jumps@[m] == jts1[j].jumps@[m]);
                    }
                }
            }
        }
    }
}

/// The immediate a typed IR constant materialises as.
pub open spec fn spec_operand_value(v: IrValue) -> X86Value {
    match v {
        IrValue::I32(w) => X86Value::Int32(w),
        IrValue::U32(w) => X86Value::Int32(w as i32),
        IrValue::U64(w) => X86Value::Int64(w as i64),
        IrValue::Bool(b) => X86Value::Int8(
            if b {
                1i8
            } else {
                0i8
            },
        ),
    }
}

/// The latest binding of `id` in the local-variable table, if any.
pub open spec fn spec_var_lookup(vars: Seq<(IrIdent, X86Operand)>, id: IrIdent) -> Option<
    X86Operand,
>
    decreases vars.len(),
{
    if vars.len() == 0 {
        None
    } else if vars.last().0 == id {
        Some(vars.last().1)
    } else {
        spec_var_lookup(vars.drop_last(), id)
    }
}

pub proof fn lemma_var_lookup_exists(vars: Seq<(IrIdent, X86Operand)>, id: IrIdent)
    requires
        spec_var_lookup(vars, id) is Some,
    ensures
        exists|j: int|
            0 <= j < vars.len() && #[trigger] vars[j] == (id, spec_var_lookup(vars, id)->Some_0),
    decreases vars.len(),
{
    if vars.len() > 0 {
        if vars.last().0 == id {
            assert(vars[vars.len() - 1] == (id, spec_var_lookup(vars, id)->Some_0));
        } else {
            lemma_var_lookup_exists(vars.drop_last(), id);
            let j = choose|j: int|
                0 <= j < vars.drop_last().len() && #[trigger] vars.drop_last()[j] == (
                id,
                spec_var_lookup(vars.drop_last(), id)->Some_0,
                );
            assert(vars[j] == vars.drop_last()[j]);
        }
    }
}

/// The materialised form of an IR operand: a bound identifier resolves
/// through the table, a constant becomes an immediate; an unbound identifier
/// or an absent operand falls back to scratch register RAX.
pub open spec fn spec_to_x86_operand(vars: Seq<(IrIdent, X86Operand)>, op: IrOperand) -> X86Operand {
    match op {
        IrOperand::Ident(id) => match spec_var_lookup(vars, id) {
            Some(o) => o,
            None => X86Operand::Register(X86Reg::RAX),
        },
        IrOperand::Value(v) => X86Operand::Value(spec_operand_value(v)),
        IrOperand::Nil => X86Operand::Register(X86Reg::RAX),
    }
}

/// Executable twin of [`spec_to_x86_operand`].
fn to_x86_operand(variables: &Vec<(IrIdent, X86Operand)>, op: IrOperand) -> (r: X86Operand)
    ensures
        r == spec_to_x86_operand(variables@, op),
{
    match op {
        IrOperand::Ident(ident) => {
            let mut i: usize = variables.len();
            proof {
                assert(variables@.take(i as int) =~= variables@);
            }
            while i > 0
                invariant
                    op == IrOperand::Ident(ident),
                    i <= variables@.len(),
                    spec_var_lookup(variables@, ident) == spec_var_lookup(
                        variables@.take(i as int),
                        ident,
                    ),
                decreases i,
            {
                i = i - 1;
                let e = variables[i];
                if e.0 == ident {
                    proof {
                        assert(variables@.take(i + 1).last() == variables@[i as int]);
                        assert(spec_var_lookup(variables@, ident) == Some(e.1));
                    }
                    return e.1;
                }
                proof {
                    assert(variables@.take(i + 1).last() == variables@[i as int]);
                    assert(variables@.take(i + 1).drop_last() =~= variables@.take(i as int));
                }
            }
            X86Operand::Register(X86Reg::RAX)
        }
        IrOperand::Value(value) => match value {
            IrValue::I32(v) => X86Operand::Value(X86Value::Int32(v)),
            IrValue::U32(v) => X86Operand::Value(X86Value::Int32(#[verifier::truncate] (v as i32))),
            IrValue::U64(v) => X86Operand::Value(X86Value::Int64(#[verifier::truncate] (v as i64))),
            IrValue::Bool(v) => X86Operand::Value(
                X86Value::Int8(
                    if v {
                        1
                    } else {
                        0
                    },
                ),
            ),
        },
        IrOperand::Nil => X86Operand::Register(X86Reg::RAX),
    }
}

/// Bind the destination identifier of an instruction to an operand; a
/// non-identifier destination binds nothing.
fn insert_variable(variables: &mut Vec<(IrIdent, X86Operand)>, dst: IrOperand, src: X86Operand)
    ensures
        dst matches IrOperand::Ident(id) ==> final(variables)@ == old(variables)@.push((id, src)),
        !(dst is Ident) ==> final(variables)@ == old(variables)@,
{
    match dst {
        IrOperand::Ident(ident) => {
            variables.push((ident, src));
        }
        _ => {}
    }
}

/// First record in the encoder's function list for `id`.
pub open spec fn xfn_lookup(funcs: Seq<(IrIdent, X86Function)>, id: IrIdent) -> Option<X86Function>
    decreases funcs.len(),
{
    if funcs.len() == 0 {
        None
    } else if funcs[0].0 == id {
        Some(funcs[0].1)
    } else {
        xfn_lookup(funcs.skip(1), id)
    }
}

pub proof fn lemma_xfn_lookup_exists(funcs: Seq<(IrIdent, X86Function)>, id: IrIdent)
    requires
        xfn_lookup(funcs, id) is Some,
    ensures
        exists|j: int|
            0 <= j < funcs.len() && #[trigger] funcs[j] == (id, xfn_lookup(funcs, id)->Some_0),
    decreases funcs.len(),
{
    if funcs.len() > 0 {
        if funcs[0].0 == id {
            assert(funcs[0] == (id, xfn_lookup(funcs, id)->Some_0));
        } else {
            lemma_xfn_lookup_exists(funcs.skip(1), id);
            let j = choose|j: int|
                0 <= j < funcs.skip(1).len() && #[trigger] funcs.skip(1)[j] == (
                id,
                xfn_lookup(funcs.skip(1), id)->Some_0,
                );
            assert(funcs[j + 1] == funcs.skip(1)[j]);
        }
    }
}

/// Executable twin of [`xfn_lookup`].
fn find_function(funcs: &Vec<(IrIdent, X86Function)>, id: IrIdent) -> (r: Option<X86Function>)
    ensures
        r == xfn_lookup(funcs@, id),
{
    let n = funcs.len();
    let mut i: usize = 0;
    proof {
        assert(funcs@.skip(0) =~= funcs@);
    }
    while i < n
        invariant
            n == funcs@.len(),
            i <= n,
            xfn_lookup(funcs@, id) == xfn_lookup(funcs@.skip(i as int), id),
        decreases n - i,
    {
        let e = funcs[i];
        proof {
            assert(funcs@.skip(i as int)[0] == funcs@[i as int]);
            assert(funcs@.skip(i as int).skip(1) =~= funcs@.skip(i + 1));
        }
        if e.0 == id {
            return Some(e.1);
        }
        i = i + 1;
    }
    None
}

/// `c` names a registered non-foreign function whose enter label is `l`.
pub open spec fn xfn_enter_ok(funcs: Seq<(IrIdent, X86Function)>, c: IrIdent, l: IrIdent) -> bool {
    xfn_lookup(funcs, c) matches Some(f) && !f.is_foreign && f.enter_label == l
}

/// The labels a function body may leave pending sites for while it is being
/// encoded: its exit label (from `Return`), its `Jump`/`IfFalse` targets,
/// and the enter labels of non-foreign functions it calls.
pub open spec fn body_pending_label(
    insns: Seq<IrInstruction>,
    bb: IrBasicBlock,
    funcs: Seq<(IrIdent, X86Function)>,
    l: IrIdent,
) -> bool {
    ||| l == bb.exit_label
    ||| exists|i: int|
        0 <= i < insns.len() && ((#[trigger] insns[i]).opcode is Jump || insns[i].opcode
            is IfFalse) && insns[i].op1 == IrOperand::Ident(l)
    ||| exists|i: int, c: IrIdent|
        0 <= i < insns.len() && (#[trigger] insns[i]).opcode is Call && insns[i].op2
            == IrOperand::Ident(c) && #[trigger] xfn_enter_ok(funcs, c, l)
}

/// Every entry of the local-variable table keeps its stack displacement
/// inside the frame built so far.
pub open spec fn vars_in_frame(vars: Seq<(IrIdent, X86Operand)>, lowest: int) -> bool {
    forall|j: int|
        0 <= j < vars.len() ==> ((#[trigger] vars[j]).1 matches X86Operand::Stack(d) ==> lowest
            <= d as int <= 0)
}

/// Every label resolved in `o` is still resolved, at the same position, in `b`.
pub open spec fn resolution_preserved(o: X86Assembler, b: X86Assembler) -> bool {
    forall|l: IrIdent|
        #[trigger] o.resolved(l) ==> b.resolved(l) && b.target_pos(l) == o.target_pos(l)
}

/// Every label with pending sites in `b` either already had some in `o` or
/// is one the body at hand may leave pending.
pub open spec fn pending_bounded(
    o: X86Assembler,
    b: X86Assembler,
    insns: Seq<IrInstruction>,
    bb: IrBasicBlock,
    funcs: Seq<(IrIdent, X86Function)>,
) -> bool {
    forall|l: IrIdent|
        #[trigger] b.pending(l).len() > 0 ==> o.pending(l).len() > 0 || body_pending_label(
            insns,
            bb,
            funcs,
            l,
        )
}

/// A step that moves no resolution keeps [`resolution_preserved`].
proof fn lemma_resolution_same(o: X86Assembler, a: X86Assembler, b: X86Assembler)
    requires
        resolution_preserved(o, a),
        forall|l: IrIdent| #[trigger] b.target_pos(l) == a.target_pos(l),
    ensures
        resolution_preserved(o, b),
{
    assert forall|l: IrIdent| #[trigger] o.resolved(l) implies b.resolved(l) && b.target_pos(l)
        == o.target_pos(l) by {
        assert(b.target_pos(l) == a.target_pos(l));
    }
}

/// A step that resolves `target` and moves nothing else keeps
/// [`resolution_preserved`].
proof fn lemma_resolution_step(o: X86Assembler, a: X86Assembler, b: X86Assembler, target: IrIdent)
    requires
        resolution_preserved(o, a),
        forall|l: IrIdent| l != target ==> #[trigger] b.target_pos(l) == a.target_pos(l),
        b.resolved(target),
        a.resolved(target) ==> b.target_pos(target) == a.target_pos(target),
    ensures
        resolution_preserved(o, b),
{
    assert forall|l: IrIdent| #[trigger] o.resolved(l) implies b.resolved(l) && b.target_pos(l)
        == o.target_pos(l) by {
        if l != target {
            assert(b.target_pos(l) == a.target_pos(l));
        }
    }
}

/// A step that leaves every pending list unchanged, or changes only that of
/// a label the body may leave pending, or only empties one, keeps
/// [`pending_bounded`].
proof fn lemma_pending_step(
    o: X86Assembler,
    a: X86Assembler,
    b: X86Assembler,
    insns: Seq<IrInstruction>,
    bb: IrBasicBlock,
    funcs: Seq<(IrIdent, X86Function)>,
    target: IrIdent,
)
    requires
        pending_bounded(o, a, insns, bb, funcs),
        forall|l: IrIdent| l != target ==> #[trigger] b.pending(l) == a.pending(l),
        body_pending_label(insns, bb, funcs, target) || b.pending(target).len() == 0,
    ensures
        pending_bounded(o, b, insns, bb, funcs),
{
    assert forall|l: IrIdent| #[trigger] b.pending(l).len() > 0 implies o.pending(l).len() > 0
        || body_pending_label(insns, bb, funcs, l) by {
        if l != target {
            assert(b.pending(l) == a.pending(l));
            assert(a.pending(l).len() > 0);
        }
    }
}

/// A step that appends bytes without touching the jump-target table keeps
/// every bookkeeping relation, the low-byte frame and the prologue region.
proof fn lemma_jts_unchanged(
    o: X86Assembler,
    a: X86Assembler,
    b: X86Assembler,
    insns: Seq<IrInstruction>,
    bb: IrBasicBlock,
    funcs: Seq<(IrIdent, X86Function)>,
    base: int,
)
    requires
        resolution_preserved(o, a),
        pending_bounded(o, a, insns, bb, funcs),
        sites_bounded(o, a, base),
        low_bytes_preserved(o, a, insns, bb),
        b.jump_targets@ == a.jump_targets@,
        0 <= base,
        o.machine_code@.len() <= a.machine_code@.len() <= b.machine_code@.len(),
        forall|t: int|
            0 <= t < a.machine_code@.len() ==> (#[trigger] b.machine_code@[t])
                == a.machine_code@[t],
    ensures
        resolution_preserved(o, b),
        pending_bounded(o, b, insns, bb, funcs),
        sites_bounded(o, b, base),
        low_bytes_preserved(o, b, insns, bb),
        forall|l: IrIdent| #[trigger] b.target_pos(l) == a.target_pos(l),
        forall|l: IrIdent| #[trigger] b.pending(l) == a.pending(l),
        base + 12 <= a.machine_code@.len() ==> b.machine_code@.subrange(base, base + 12)
            == a.machine_code@.subrange(base, base + 12),
{
    assert forall|l: IrIdent| #[trigger] b.target_pos(l) == a.target_pos(l) by {}
    lemma_resolution_same(o, a, b);
    assert forall|l: IrIdent| #[trigger] b.pending(l).len() > 0 implies o.pending(l).len() > 0
        || body_pending_label(insns, bb, funcs, l) by {
        assert(b.pending(l) == a.pending(l));
    }
    lemma_append_step(o, a, b, insns, bb, base);
    if base + 12 <= a.machine_code@.len() {
        assert(b.machine_code@.subrange(base, base + 12) =~= a.machine_code@.subrange(
            base,
            base + 12,
        ));
    }
}

/// The eight fixed prologue bytes: `push rbp; mov rbp, rsp` and the
/// opcode of `sub rsp, imm32`, whose immediate field follows.
pub open spec fn prologue_bytes() -> Seq<u8> {
    seq![0xffu8, 0xf5u8, 0x48u8, 0x8bu8, 0xecu8, 0x48u8, 0x81u8, 0xecu8]
}

/// The ten epilogue bytes: `add rsp, frame; pop rbp; ret`.
pub open spec fn epilogue_bytes(frame: u32) -> Seq<u8> {
    seq![0x48u8, 0x81u8, 0xc4u8] + le4(frame) + seq![0x8fu8, 0xc5u8, 0xc3u8]
}

/// Total stack bytes the body's `Alloca` instructions reserve.
pub open spec fn spec_frame_bytes(insns: Seq<IrInstruction>, addr_size: usize) -> int
    decreases insns.len(),
{
    if insns.len() == 0 {
        0
    } else {
        spec_frame_bytes(insns.drop_last(), addr_size) + if insns.last().opcode is Alloca {
            crate::ir::spec_size_of_ir_type(insns.last().ty, addr_size) as int
        } else {
            0
        }
    }
}

/// Round up to a 16-byte boundary.
pub open spec fn round_up16(n: int) -> int {
    ((n + 15) / 16) * 16
}

/// Byte `t` lies in a pending 4-byte field, in `o`, of a label this
/// function's encoding resolves: its enter or exit label, or a label its
/// body declares.
pub open spec fn resolved_site_covers(
    o: X86Assembler,
    insns: Seq<IrInstruction>,
    bb: IrBasicBlock,
    t: int,
) -> bool {
    exists|l: IrIdent|
        (l == bb.enter_label || l == bb.exit_label || crate::ir::body_has_label(insns, l))
            && #[trigger] site_covers(o.pending(l), t)
}

/// Bytes already in the buffer before this function change only inside
/// pending fields of labels the function resolves.
pub open spec fn low_bytes_preserved(
    o: X86Assembler,
    b: X86Assembler,
    insns: Seq<IrInstruction>,
    bb: IrBasicBlock,
) -> bool {
    forall|t: int|
        0 <= t < o.machine_code@.len() && !resolved_site_covers(o, insns, bb, t)
            ==> b.machine_code@[t] == o.machine_code@[t]
}

/// Every pending field is either inherited from `o` or lies past the frame
/// reservation of the function based at `base`.
pub open spec fn sites_bounded(o: X86Assembler, b: X86Assembler, base: int) -> bool {
    forall|l: IrIdent, k: int|
        0 <= k < b.pending(l).len() ==> ((#[trigger] b.pending(l)[k]) as int >= base + 12
            || o.pending(l).contains(b.pending(l)[k]))
}

/// A step that appends bytes and leaves the jump-target table alone keeps
/// the low-byte frame and the site bound.
proof fn lemma_append_step(
    o: X86Assembler,
    a: X86Assembler,
    b: X86Assembler,
    insns: Seq<IrInstruction>,
    bb: IrBasicBlock,
    base: int,
)
    requires
        sites_bounded(o, a, base),
        low_bytes_preserved(o, a, insns, bb),
        b.jump_targets@ == a.jump_targets@,
        o.machine_code@.len() <= a.machine_code@.len() <= b.machine_code@.len(),
        forall|t: int|
            0 <= t < a.machine_code@.len() ==> (#[trigger] b.machine_code@[t])
                == a.machine_code@[t],
    ensures
        sites_bounded(o, b, base),
        low_bytes_preserved(o, b, insns, bb),
{
    assert forall|l: IrIdent, k: int| 0 <= k < b.pending(l).len() implies ((
    #[trigger] b.pending(l)[k]) as int >= base + 12 || o.pending(l).contains(
        b.pending(l)[k],
    )) by {
        assert(b.pending(l) == a.pending(l));
    }
    assert forall|t: int|
        0 <= t < o.machine_code@.len() && !resolved_site_covers(o, insns, bb, t) implies b
        .machine_code@[t] == o.machine_code@[t] by {
        assert(b.machine_code@[t] == a.machine_code@[t]);
    }
}

/// A step that appends the 4-byte field of a jump to `target` keeps the
/// low-byte frame and the site bound, since the new field sits past the
/// frame reservation.
proof fn lemma_rel32_step(
    o: X86Assembler,
    a: X86Assembler,
    b: X86Assembler,
    insns: Seq<IrInstruction>,
    bb: IrBasicBlock,
    base: int,
    target: IrIdent,
)
    requires
        sites_bounded(o, a, base),
        low_bytes_preserved(o, a, insns, bb),
        0 <= base,
        o.machine_code@.len() <= a.machine_code@.len(),
        base + 12 <= a.machine_code@.len(),
        forall|l: IrIdent| l != target ==> #[trigger] b.pending(l) == a.pending(l),
        b.pending(target) == a.pending(target).push(a.machine_code@.len() as usize)
            || b.pending(target) == a.pending(target),
        b.machine_code@.len() >= a.machine_code@.len(),
        forall|t: int|
            0 <= t < a.machine_code@.len() ==> (#[trigger] b.machine_code@[t])
                == a.machine_code@[t],
    ensures
        sites_bounded(o, b, base),
        low_bytes_preserved(o, b, insns, bb),
        b.machine_code@.subrange(base, base + 12) == a.machine_code@.subrange(base, base + 12),
{
    vstd::std_specs::vec::axiom_spec_len(&a.machine_code);
    assert forall|q: int| base <= q < base + 12 implies b.machine_code@[q]
        == a.machine_code@[q] by {}
    assert(b.machine_code@.subrange(base, base + 12) =~= a.machine_code@.subrange(
        base,
        base + 12,
    ));
    assert forall|l: IrIdent, k: int| 0 <= k < b.pending(l).len() implies ((
    #[trigger] b.pending(l)[k]) as int >= base + 12 || o.pending(l).contains(
        b.pending(l)[k],
    )) by {
        if l != target {
            assert(b.pending(l) == a.pending(l));
        } else {
            if b.pending(target) == a.pending(target) {
            } else {
                if k < a.pending(target).len() {
                    assert(b.pending(target)[k] == a.pending(target)[k]);
                } else {
                    assert(b.pending(target)[k] as int == a.machine_code@.len());
                }
            }
        }
    }
    assert forall|t: int|
        0 <= t < o.machine_code@.len() && !resolved_site_covers(o, insns, bb, t) implies b
        .machine_code@[t] == o.machine_code@[t] by {
        assert(b.machine_code@[t] == a.machine_code@[t]);
    }
}

/// A step that resolves a label of this function keeps the low-byte frame,
/// the site bound, and the twelve prologue bytes at `base`.
proof fn lemma_resolve_step(
    o: X86Assembler,
    a: X86Assembler,
    b: X86Assembler,
    insns: Seq<IrInstruction>,
    bb: IrBasicBlock,
    base: int,
    label: IrIdent,
)
    requires
        o.wf(),
        base == o.machine_code@.len(),
        sites_bounded(o, a, base),
        low_bytes_preserved(o, a, insns, bb),
        label == bb.enter_label || label == bb.exit_label || crate::ir::body_has_label(
            insns,
            label,
        ),
        b.machine_code@.len() == a.machine_code@.len(),
        base + 12 <= a.machine_code@.len(),
        forall|t: int|
            0 <= t < a.machine_code@.len() && !site_covers(a.pending(label), t)
                ==> b.machine_code@[t] == a.machine_code@[t],
        b.pending(label).len() == 0,
        forall|l: IrIdent| l != label ==> #[trigger] b.pending(l) == a.pending(l),
    ensures
        sites_bounded(o, b, base),
        low_bytes_preserved(o, b, insns, bb),
        b.machine_code@.subrange(base, base + 12) == a.machine_code@.subrange(base, base + 12),
{
    lemma_jt_index_of(o.jump_targets@, label);
    assert forall|l: IrIdent, k: int| 0 <= k < b.pending(l).len() implies ((
    #[trigger] b.pending(l)[k]) as int >= base + 12 || o.pending(l).contains(
        b.pending(l)[k],
    )) by {
        if l != label {
            assert(b.pending(l) == a.pending(l));
        }
    }
    assert forall|t: int|
        0 <= t < o.machine_code@.len() && !resolved_site_covers(o, insns, bb, t) implies b
        .machine_code@[t] == o.machine_code@[t] by {
        if site_covers(a.pending(label), t) {
            let k = choose|k: int|
                0 <= k < a.pending(label).len() && (#[trigger] a.pending(label)[k]) <= t < a
                    .pending(label)[k] + 4;
            let site = a.pending(label)[k];
            if site as int >= base + 12 {
                assert(t < base);
            } else {
                assert(o.pending(label).contains(site));
                let j = choose|j: int|
                    0 <= j < o.pending(label).len() && (#[trigger] o.pending(label)[j]) == site;
                assert(site_covers(o.pending(label), t));
                assert(resolved_site_covers(o, insns, bb, t));
            }
        } else {
            assert(b.machine_code@[t] == a.machine_code@[t]);
        }
    }
    assert forall|q: int| base <= q < base + 12 implies b.machine_code@[q]
        == a.machine_code@[q] by {
        if site_covers(a.pending(label), q) {
            let k = choose|k: int|
                0 <= k < a.pending(label).len() && (#[trigger] a.pending(label)[k]) <= q < a
                    .pending(label)[k] + 4;
            let site = a.pending(label)[k];
            if site as int >= base + 12 {
            } else {
                assert(o.pending(label).contains(site));
                let j = choose|j: int|
                    0 <= j < o.pending(label).len() && (#[trigger] o.pending(label)[j]) == site;
                assert(site as int + 4 <= base);
            }
        }
    }
    assert(b.machine_code@.subrange(base, base + 12) =~= a.machine_code@.subrange(
        base,
        base + 12,
    ));
}

/// Encode one control-transfer instruction: a call, a return, a branch or
/// an unconditional jump.
#[verifier::rlimit(100)]
fn encode_jump_insn(
    x86: &mut X86Assembler,
    insns: &[IrInstruction],
    i: usize,
    bb: &IrBasicBlock,
    variables: &mut Vec<(IrIdent, X86Operand)>,
    curr_stack_offset: &mut isize,
    Ghost(o): Ghost<X86Assembler>,
    Ghost(base): Ghost<int>,
)
    requires
        i < insns@.len(),
        insns@[i as int].opcode is Call || insns@[i as int].opcode is Return || insns@[
            i as int
        ].opcode is IfFalse || insns@[i as int].opcode is Jump,
        8 * insns@.len() < 0x4000_0000,
        o.wf(),
        old(x86).wf(),
        old(x86).addr_size == o.addr_size,
        o.addr_size == 4 || o.addr_size == 8,
        old(x86).functions@ == o.functions@,
        old(x86).debug_break_symbol == o.debug_break_symbol,
        base == o.machine_code@.len(),
        old(x86).machine_code@.len() >= base + 12,
        -8 * (i as int) <= *old(curr_stack_offset) <= 0,
        vars_in_frame(old(variables)@, *old(curr_stack_offset) as int),
        resolution_preserved(o, *old(x86)),
        old(x86).resolved(bb.enter_label),
        pending_bounded(o, *old(x86), insns@, *bb, o.functions@),
        sites_bounded(o, *old(x86), base),
        low_bytes_preserved(o, *old(x86), insns@, *bb),
        forall|j: int|
            0 <= j < 8 ==> (#[trigger] old(x86).machine_code@[base + j]) == prologue_bytes()[j],
        forall|j: int| 8 <= j < 12 ==> (#[trigger] old(x86).machine_code@[base + j]) == 0u8,
        (!o.resolved(bb.exit_label) && bb.enter_label != bb.exit_label
            && !crate::ir::body_has_label(insns@, bb.exit_label)) ==> !old(x86).resolved(
            bb.exit_label,
        ),
    ensures
        final(x86).wf(),
        final(x86).addr_size == o.addr_size,
        final(x86).functions@ == o.functions@,
        final(x86).debug_break_symbol == o.debug_break_symbol,
        final(x86).machine_code@.len() >= old(x86).machine_code@.len(),
        *old(curr_stack_offset) - 8 <= *final(curr_stack_offset) <= *old(curr_stack_offset),
        *final(curr_stack_offset) <= 0,
        vars_in_frame(final(variables)@, *final(curr_stack_offset) as int),
        resolution_preserved(o, *final(x86)),
        forall|l: IrIdent|
            #[trigger] old(x86).resolved(l) ==> final(x86).resolved(l) && final(x86).target_pos(
                l,
            ) == old(x86).target_pos(l),
        final(x86).resolved(bb.enter_label),
        insns@[i as int].opcode is Label ==> (insns@[i as int].op1 matches IrOperand::Ident(l)
            ==> final(x86).resolved(l)),
        pending_bounded(o, *final(x86), insns@, *bb, o.functions@),
        sites_bounded(o, *final(x86), base),
        low_bytes_preserved(o, *final(x86), insns@, *bb),
        forall|j: int|
            0 <= j < 8 ==> (#[trigger] final(x86).machine_code@[base + j]) == prologue_bytes()[j],
        forall|j: int| 8 <= j < 12 ==> (#[trigger] final(x86).machine_code@[base + j]) == 0u8,
        (!o.resolved(bb.exit_label) && bb.enter_label != bb.exit_label
            && !crate::ir::body_has_label(insns@, bb.exit_label)) ==> !final(x86).resolved(
            bb.exit_label,
        ),
{
    let num_insns = insns.len();
    let insn = insns[i];
    let ghost p0 = *x86;
    match insn.opcode {
        IrOpcode::Call => {
            if let IrOperand::Ident(ident) = insn.op2 {
                if ident.symbol == x86.debug_break_symbol {
                    x86.machine_code.push(0xcc);
                    proof {
                        lemma_jts_unchanged(o, p0, *x86, insns@, *bb, o.functions@, base);
                    }
                } else {
                    let callee = find_function(&x86.functions, ident);
                    match callee {
                        Some(f) => {
                            if f.is_foreign {
                                match f.func_address {
                                    Some(addr) => {
                                        // mov rax, imm64; call rax
                                        x86.machine_code.push(REX_W);
                                        x86.machine_code.push(0xb8);
                                        push_immediate(
                                            x86,
                                            X86Value::Int64(
                                                #[verifier::truncate] (addr as i64),
                                            ),
                                        );
                                        x86.machine_code.push(0xff);
                                        x86.machine_code.push(0xd0);
                                        proof {
                                            lemma_jts_unchanged(
                                                o,
                                                p0,
                                                *x86,
                                                insns@,
                                                *bb,
                                                o.functions@,
                                                base,
                                            );
                                        }
                                    }
                                    None => {}
                                }
                            } else {
                                x86.machine_code.push(0xe8);
                                let ghost p1 = *x86;
                                proof {
                                    lemma_jts_unchanged(o, p0, p1, insns@, *bb, o.functions@, base);
                                    assert(xfn_enter_ok(o.functions@, ident, f.enter_label));
                                    assert(body_pending_label(
                                        insns@,
                                        *bb,
                                        o.functions@,
                                        f.enter_label,
                                    ));
                                }
                                push_rel32_target(x86, f.enter_label);
                                proof {
                                    lemma_resolution_same(o, p1, *x86);
                                    lemma_pending_step(
                                        o,
                                        p1,
                                        *x86,
                                        insns@,
                                        *bb,
                                        o.functions@,
                                        f.enter_label,
                                    );
                                    lemma_rel32_step(
                                        o,
                                        p1,
                                        *x86,
                                        insns@,
                                        *bb,
                                        base,
                                        f.enter_label,
                                    );
                                }
                            }
                        }
                        None => {}
                    }
                }
            }
        }
        IrOpcode::Return => {
            match insn.op1 {
                IrOperand::Nil => {}
                _ => {
                    let src = to_x86_operand(variables, insn.op1);
                    match src {
                        X86Operand::Register(X86Reg::RAX) => {}
                        _ => {
                            proof {
                                if src matches X86Operand::Stack(d) {
                                    lemma_var_lookup_exists(variables@, insn.op1->Ident_0);
                                }
                            }
                            push_instruction(
                                x86,
                                X86Opcode::MOV,
                                insn.ty,
                                X86Operand::Register(X86Reg::RAX),
                                src,
                            );
                        }
                    }
                }
            }
            // jump over the rest of the body to the epilogue
            if i < num_insns - 1 {
                x86.machine_code.push(0xe9);
                let ghost p1 = *x86;
                proof {
                    lemma_jts_unchanged(o, p0, p1, insns@, *bb, o.functions@, base);
                    assert(body_pending_label(insns@, *bb, o.functions@, bb.exit_label));
                }
                push_rel32_target(x86, bb.exit_label);
                proof {
                    lemma_resolution_same(o, p1, *x86);
                    lemma_pending_step(
                        o,
                        p1,
                        *x86,
                        insns@,
                        *bb,
                        o.functions@,
                        bb.exit_label,
                    );
                    lemma_rel32_step(o, p1, *x86, insns@, *bb, base, bb.exit_label);
                }
            } else {
                proof {
                    lemma_jts_unchanged(o, p0, *x86, insns@, *bb, o.functions@, base);
                }
            }
        }
        IrOpcode::IfFalse => {
            if let IrOperand::Ident(l) = insn.op1 {
                let cond = to_x86_operand(variables, insn.op2);
                match cond {
                    X86Operand::Register(r) => {
                        push_instruction(
                            x86,
                            X86Opcode::TEST,
                            insn.ty,
                            X86Operand::Register(r),
                            X86Operand::Register(r),
                        );
                    }
                    X86Operand::Stack(d) => {
                        proof {
                            lemma_var_lookup_exists(variables@, insn.op2->Ident_0);
                        }
                        push_instruction(
                            x86,
                            X86Opcode::MOV,
                            insn.ty,
                            X86Operand::Register(X86Reg::RAX),
                            X86Operand::Stack(d),
                        );
                        push_instruction(
                            x86,
                            X86Opcode::TEST,
                            insn.ty,
                            X86Operand::Register(X86Reg::RAX),
                            X86Operand::Register(X86Reg::RAX),
                        );
                    }
                    X86Operand::Value(v) => {
                        push_instruction(
                            x86,
                            X86Opcode::MOV,
                            insn.ty,
                            X86Operand::Register(X86Reg::RAX),
                            X86Operand::Value(v),
                        );
                        push_instruction(
                            x86,
                            X86Opcode::TEST,
                            insn.ty,
                            X86Operand::Register(X86Reg::RAX),
                            X86Operand::Register(X86Reg::RAX),
                        );
                    }
                }
                // jz rel32
                x86.machine_code.push(0x0f);
                x86.machine_code.push(0x84);
                let ghost p1 = *x86;
                proof {
                    lemma_jts_unchanged(o, p0, p1, insns@, *bb, o.functions@, base);
                    assert(body_pending_label(insns@, *bb, o.functions@, l));
                }
                push_rel32_target(x86, l);
                proof {
                    lemma_resolution_same(o, p1, *x86);
                    lemma_pending_step(o, p1, *x86, insns@, *bb, o.functions@, l);
                    lemma_rel32_step(o, p1, *x86, insns@, *bb, base, l);
                }
            }
        }
        IrOpcode::Jump => {
            if let IrOperand::Ident(l) = insn.op1 {
                x86.machine_code.push(0xe9);
                let ghost p1 = *x86;
                proof {
                    lemma_jts_unchanged(o, p0, p1, insns@, *bb, o.functions@, base);
                    assert(body_pending_label(insns@, *bb, o.functions@, l));
                }
                push_rel32_target(x86, l);
                proof {
                    lemma_resolution_same(o, p1, *x86);
                    lemma_pending_step(o, p1, *x86, insns@, *bb, o.functions@, l);
                    lemma_rel32_step(o, p1, *x86, insns@, *bb, base, l);
                }
            }
        }
        _ => {}
    }
    proof {
        assert(x86.resolved(bb.enter_label)) by {
            if !p0.resolved(bb.enter_label) {
            } else {
                assert(resolution_preserved(p0, p0));
            }
        }
        assert forall|l2: IrIdent| #[trigger] p0.resolved(l2) implies x86.resolved(l2)
            && x86.target_pos(l2) == p0.target_pos(l2) by {}
    }
}

/// Encode one body instruction: the step of the encoding loop, preserving
/// every bookkeeping relation of the function being encoded.
#[verifier::rlimit(100)]
fn encode_body_insn(
    x86: &mut X86Assembler,
    insns: &[IrInstruction],
    i: usize,
    bb: &IrBasicBlock,
    variables: &mut Vec<(IrIdent, X86Operand)>,
    curr_stack_offset: &mut isize,
    Ghost(o): Ghost<X86Assembler>,
    Ghost(base): Ghost<int>,
)
    requires
        i < insns@.len(),
        8 * insns@.len() < 0x4000_0000,
        o.wf(),
        old(x86).wf(),
        old(x86).addr_size == o.addr_size,
        o.addr_size == 4 || o.addr_size == 8,
        old(x86).functions@ == o.functions@,
        old(x86).debug_break_symbol == o.debug_break_symbol,
        base == o.machine_code@.len(),
        old(x86).machine_code@.len() >= base + 12,
        -8 * (i as int) <= *old(curr_stack_offset) <= 0,
        vars_in_frame(old(variables)@, *old(curr_stack_offset) as int),
        resolution_preserved(o, *old(x86)),
        old(x86).resolved(bb.enter_label),
        pending_bounded(o, *old(x86), insns@, *bb, o.functions@),
        sites_bounded(o, *old(x86), base),
        low_bytes_preserved(o, *old(x86), insns@, *bb),
        forall|j: int|
            0 <= j < 8 ==> (#[trigger] old(x86).machine_code@[base + j]) == prologue_bytes()[j],
        forall|j: int| 8 <= j < 12 ==> (#[trigger] old(x86).machine_code@[base + j]) == 0u8,
        (!o.resolved(bb.exit_label) && bb.enter_label != bb.exit_label
            && !crate::ir::body_has_label(insns@, bb.exit_label)) ==> !old(x86).resolved(
            bb.exit_label,
        ),
    ensures
        final(x86).wf(),
        final(x86).addr_size == o.addr_size,
        final(x86).functions@ == o.functions@,
        final(x86).debug_break_symbol == o.debug_break_symbol,
        final(x86).machine_code@.len() >= old(x86).machine_code@.len(),
        *old(curr_stack_offset) - 8 <= *final(curr_stack_offset) <= *old(curr_stack_offset),
        *final(curr_stack_offset) <= 0,
        vars_in_frame(final(variables)@, *final(curr_stack_offset) as int),
        resolution_preserved(o, *final(x86)),
        forall|l: IrIdent|
            #[trigger] old(x86).resolved(l) ==> final(x86).resolved(l) && final(x86).target_pos(
                l,
            ) == old(x86).target_pos(l),
        final(x86).resolved(bb.enter_label),
        insns@[i as int].opcode is Label ==> (insns@[i as int].op1 matches IrOperand::Ident(l)
            ==> final(x86).resolved(l)),
        pending_bounded(o, *final(x86), insns@, *bb, o.functions@),
        sites_bounded(o, *final(x86), base),
        low_bytes_preserved(o, *final(x86), insns@, *bb),
        forall|j: int|
            0 <= j < 8 ==> (#[trigger] final(x86).machine_code@[base + j]) == prologue_bytes()[j],
        forall|j: int| 8 <= j < 12 ==> (#[trigger] final(x86).machine_code@[base + j]) == 0u8,
        (!o.resolved(bb.exit_label) && bb.enter_label != bb.exit_label
            && !crate::ir::body_has_label(insns@, bb.exit_label)) ==> !final(x86).resolved(
            bb.exit_label,
        ),
{
    let insn = insns[i];
    let ghost p0 = *x86;
    match insn.opcode {
        IrOpcode::Nop => {
            x86.machine_code.push(0x90);
            proof {
                lemma_jts_unchanged(o, p0, *x86, insns@, *bb, o.functions@, base);
            }
        }
        IrOpcode::Alloca => {
            let sz = size_of_ir_type(insn.ty, x86.addr_size);
            *curr_stack_offset = *curr_stack_offset - sz as isize;
            let dst = X86Operand::Stack(*curr_stack_offset);
            let src = to_x86_operand(variables, insn.op2);
            proof {
                if src matches X86Operand::Stack(d) {
                    lemma_var_lookup_exists(variables@, insn.op2->Ident_0);
                }
            }
            push_instruction(x86, X86Opcode::MOV, insn.ty, dst, src);
            insert_variable(variables, insn.op1, dst);
            proof {
                lemma_jts_unchanged(o, p0, *x86, insns@, *bb, o.functions@, base);
            }
        }
        IrOpcode::Copy => {
            let dst = to_x86_operand(variables, insn.op1);
            let src = to_x86_operand(variables, insn.op2);
            if !(matches!(dst, X86Operand::Value(_))) {
                proof {
                    if dst matches X86Operand::Stack(d) {
                        lemma_var_lookup_exists(variables@, insn.op1->Ident_0);
                    }
                    if src matches X86Operand::Stack(d) {
                        lemma_var_lookup_exists(variables@, insn.op2->Ident_0);
                    }
                }
                push_instruction(x86, X86Opcode::MOV, insn.ty, dst, src);
                insert_variable(variables, insn.op1, src);
                proof {
                    lemma_jts_unchanged(o, p0, *x86, insns@, *bb, o.functions@, base);
                }
            }
        }
        IrOpcode::Add | IrOpcode::Sub | IrOpcode::And | IrOpcode::Or | IrOpcode::Xor => {
            let x86_opcode = match insn.opcode {
                IrOpcode::Add => X86Opcode::ADD,
                IrOpcode::Sub => X86Opcode::SUB,
                IrOpcode::And => X86Opcode::AND,
                IrOpcode::Or => X86Opcode::OR,
                _ => X86Opcode::XOR,
            };
            let lhs = to_x86_operand(variables, insn.op2);
            let rhs = to_x86_operand(variables, insn.op3);
            if !(matches!(lhs, X86Operand::Value(_))) {
                proof {
                    if lhs matches X86Operand::Stack(d) {
                        lemma_var_lookup_exists(variables@, insn.op2->Ident_0);
                    }
                    if rhs matches X86Operand::Stack(d) {
                        lemma_var_lookup_exists(variables@, insn.op3->Ident_0);
                    }
                }
                push_instruction(x86, x86_opcode, insn.ty, lhs, rhs);
                insert_variable(variables, insn.op1, lhs);
                proof {
                    lemma_jts_unchanged(o, p0, *x86, insns@, *bb, o.functions@, base);
                }
            }
        }




        IrOpcode::Call | IrOpcode::Return | IrOpcode::IfFalse | IrOpcode::Jump => {
            encode_jump_insn(
                x86,
                insns,
                i,
                bb,
                variables,
                curr_stack_offset,
                Ghost(o),
                Ghost(base),
            );
        }
        IrOpcode::Label => {
            if let IrOperand::Ident(l) = insn.op1 {
                resolve_jump_target(x86, l);
                proof {
                    lemma_resolution_step(o, p0, *x86, l);
                    lemma_pending_step(o, p0, *x86, insns@, *bb, o.functions@, l);
                    assert(crate::ir::body_has_label(insns@, l)) by {
                        assert((#[trigger] insns@[i as int]).opcode is Label && insns@[
                            i as int
                        ].op1 == IrOperand::Ident(l));
                    }
                    lemma_resolve_step(o, p0, *x86, insns@, *bb, base, l);
                    assert forall|j: int|
                        0 <= j < 12 implies (#[trigger] x86.machine_code@[base + j])
                        == p0.machine_code@[base + j] by {
                        assert(x86.machine_code@.subrange(base, base + 12)[j]
                            == p0.machine_code@.subrange(base, base + 12)[j]);
                    }
                }
            }
        }
        _ => {}
    }
    proof {
        assert(x86.resolved(bb.enter_label)) by {
            if !p0.resolved(bb.enter_label) {
            } else {
                assert(resolution_preserved(p0, p0));
            }
        }
        assert forall|l2: IrIdent| #[trigger] p0.resolved(l2) implies x86.resolved(l2)
            && x86.target_pos(l2) == p0.target_pos(l2) by {}
    }
}

/// Encode one function: resolve its enter label, emit the prologue with a
/// patchable frame-reservation field, walk the body instructions, resolve
/// the exit label, patch the frame size (rounded up to 16 bytes) and emit
/// the epilogue.
#[verifier::rlimit(100)]
pub fn push_function(x86: &mut X86Assembler, insns: &[IrInstruction], bb: &IrBasicBlock)
    requires
        old(x86).wf(),
        old(x86).addr_size == 4 || old(x86).addr_size == 8,
        8 * insns@.len() < 0x4000_0000,
    ensures
        final(x86).wf(),
        final(x86).functions@ == old(x86).functions@,
        final(x86).debug_break_symbol == old(x86).debug_break_symbol,
        final(x86).addr_size == old(x86).addr_size,
        final(x86).machine_code@.len() >= old(x86).machine_code@.len(),
        resolution_preserved(*old(x86), *final(x86)),
        final(x86).resolved(bb.enter_label),
        final(x86).resolved(bb.exit_label),
        forall|j: int|
            0 <= j < insns@.len() && (#[trigger] insns@[j]).opcode is Label ==> (insns@[j].op1
                matches IrOperand::Ident(l) ==> final(x86).resolved(l)),
        pending_bounded(*old(x86), *final(x86), insns@, *bb, old(x86).functions@),
        final(x86).machine_code@.len() >= old(x86).machine_code@.len() + 22,
        final(x86).machine_code@.subrange(
            old(x86).machine_code@.len() as int,
            old(x86).machine_code@.len() as int + 8,
        ) == prologue_bytes(),
        exists|frame: u32|
            (#[trigger] epilogue_bytes(frame)) == final(x86).machine_code@.subrange(
                final(x86).machine_code@.len() as int - 10,
                final(x86).machine_code@.len() as int,
            ) && frame as int % 16 == 0 && final(x86).machine_code@.subrange(
                old(x86).machine_code@.len() as int + 8,
                old(x86).machine_code@.len() as int + 12,
            ) == le4(frame),
        low_bytes_preserved(*old(x86), *final(x86), insns@, *bb),
        sites_bounded(*old(x86), *final(x86), old(x86).machine_code@.len() as int),
        !old(x86).resolved(bb.enter_label) ==> final(x86).target_pos(bb.enter_label) == Some(
            old(x86).machine_code@.len() as usize,
        ),
        (!old(x86).resolved(bb.exit_label) && bb.enter_label != bb.exit_label
            && !crate::ir::body_has_label(insns@, bb.exit_label)) ==> final(x86).target_pos(
            bb.exit_label,
        ) == Some((final(x86).machine_code@.len() - 10) as usize),
{
    let ghost o = *old(x86);
    let base_pos = x86.machine_code.len();
    let ghost base = base_pos as int;
    let ghost a0 = *x86;
    resolve_jump_target(x86, bb.enter_label);
    proof {
        lemma_resolution_step(o, a0, *x86, bb.enter_label);
        lemma_pending_step(o, a0, *x86, insns@, *bb, o.functions@, bb.enter_label);
        // the initial resolution patches only old fields of the enter label
        assert forall|l: IrIdent, k: int| 0 <= k < x86.pending(l).len() implies ((
        #[trigger] x86.pending(l)[k]) as int >= base + 12 || o.pending(l).contains(
            x86.pending(l)[k],
        )) by {
            if l != bb.enter_label {
                assert(x86.pending(l) == o.pending(l));
                assert(o.pending(l)[k] == x86.pending(l)[k]);
            }
        }
        assert(sites_bounded(o, *x86, base));
        assert forall|t: int|
            0 <= t < o.machine_code@.len() && !resolved_site_covers(o, insns@, *bb, t) implies x86
            .machine_code@[t] == o.machine_code@[t] by {
            assert(!site_covers(o.pending(bb.enter_label), t));
        }
        assert(low_bytes_preserved(o, *x86, insns@, *bb));
    }

    // push rbp
    let ghost a1 = *x86;
    x86.machine_code.push(0xff);
    let m1 = modrm(6, reg_id(X86Reg::RBP));
    x86.machine_code.push(m1);

    // mov rbp, rsp
    push_instruction(
        x86,
        X86Opcode::MOV,
        IrType::I64,
        X86Operand::Register(X86Reg::RBP),
        X86Operand::Register(X86Reg::RSP),
    );

    // sub rsp, imm32; the immediate starts as zero and is patched below
    x86.machine_code.push(REX_W);
    x86.machine_code.push(0x81);
    x86.machine_code.push(0xec);
    let sub_byte_pos = x86.machine_code.len();
    x86.machine_code.push(0);
    x86.machine_code.push(0);
    x86.machine_code.push(0);
    x86.machine_code.push(0);
    proof {
        lemma_jts_unchanged(o, a1, *x86, insns@, *bb, o.functions@, base_pos as int);
        assert(x86.resolved(bb.enter_label)) by {
            assert(x86.target_pos(bb.enter_label) == a1.target_pos(bb.enter_label));
        }
        reveal(instruction_bytes);
        assert(spec_modrm(6, 5) == 0xf5u8) by (bit_vector);
        assert(spec_modrm(5, 4) == 0xecu8) by (bit_vector);
        assert forall|j: int| 0 <= j < 8 implies (#[trigger] x86.machine_code@[base + j])
            == prologue_bytes()[j] by {}
        assert forall|j: int| 8 <= j < 12 implies (#[trigger] x86.machine_code@[base + j])
            == 0u8 by {}
    }

    let mut variables: Vec<(IrIdent, X86Operand)> = Vec::new();
    let mut curr_stack_offset: isize = 0;
    let num_insns = insns.len();
    let mut i: usize = 0;
    while i < num_insns
        invariant
            num_insns == insns@.len(),
            i <= num_insns,
            8 * num_insns < 0x4000_0000,
            o == *old(x86),
            o.wf(),
            x86.wf(),
            x86.addr_size == o.addr_size,
            x86.addr_size == 4 || x86.addr_size == 8,
            x86.functions@ == o.functions@,
            x86.debug_break_symbol == o.debug_break_symbol,
            x86.machine_code@.len() >= sub_byte_pos + 4,
            sub_byte_pos >= o.machine_code@.len(),
            -8 * (i as int) <= curr_stack_offset <= 0,
            vars_in_frame(variables@, curr_stack_offset as int),
            resolution_preserved(o, *x86),
            x86.resolved(bb.enter_label),
            forall|j: int|
                0 <= j < i && (#[trigger] insns@[j]).opcode is Label ==> (insns@[j].op1
                    matches IrOperand::Ident(l) ==> x86.resolved(l)),
            pending_bounded(o, *x86, insns@, *bb, o.functions@),
            base == o.machine_code@.len(),
            base == base_pos,
            sub_byte_pos == base + 8,
            sites_bounded(o, *x86, base),
            low_bytes_preserved(o, *x86, insns@, *bb),
            forall|j: int|
                0 <= j < 8 ==> (#[trigger] x86.machine_code@[base + j]) == prologue_bytes()[j],
            forall|j: int| 8 <= j < 12 ==> (#[trigger] x86.machine_code@[base + j]) == 0u8,
            !o.resolved(bb.enter_label) ==> x86.target_pos(bb.enter_label) == Some(
                base_pos as usize,
            ),
            (!o.resolved(bb.exit_label) && bb.enter_label != bb.exit_label
                && !crate::ir::body_has_label(insns@, bb.exit_label)) ==> !x86.resolved(
                bb.exit_label,
            ),
        decreases num_insns - i,
    {
        let ghost pre = *x86;
        encode_body_insn(
            x86,
            insns,
            i,
            bb,
            &mut variables,
            &mut curr_stack_offset,
            Ghost(o),
            Ghost(base),
        );
        proof {
            assert forall|j: int|
                0 <= j < i + 1 && (#[trigger] insns@[j]).opcode is Label implies (insns@[j].op1
                matches IrOperand::Ident(l) ==> x86.resolved(l)) by {
                if j < i {
                    match insns@[j].op1 {
                        IrOperand::Ident(l) => {
                            assert(pre.resolved(l));
                        }
                        _ => {}
                    }
                }
            }
            if !o.resolved(bb.enter_label) {
                assert(pre.resolved(bb.enter_label));
                assert(x86.target_pos(bb.enter_label) == pre.target_pos(bb.enter_label));
            }
        }
        i = i + 1;
    }

    // exit label: the epilogue starts here
    let ghost q0 = *x86;
    resolve_jump_target(x86, bb.exit_label);
    proof {
        lemma_resolution_step(o, q0, *x86, bb.exit_label);
        lemma_pending_step(o, q0, *x86, insns@, *bb, o.functions@, bb.exit_label);
        lemma_resolve_step(o, q0, *x86, insns@, *bb, base, bb.exit_label);
    }

    // frame size, rounded up to a 16-byte boundary
    let ghost q1 = *x86;
    let frame_size: usize = (((-curr_stack_offset) as usize) + 15) / 16 * 16;
    let frame32: u32 = frame_size as u32;
    proof {
        assert(frame32 as int % 16 == 0) by (nonlinear_arith)
            requires
                frame32 as int == ((((-curr_stack_offset) as usize) + 15) / 16) * 16,
        ;
    }
    patch_u32_le(&mut x86.machine_code, sub_byte_pos, frame32);
    let ghost q2 = *x86;
    proof {
        // the patch fills the frame field and touches nothing else
        lemma_resolution_same(o, q1, q2);
        assert forall|l: IrIdent| #[trigger] q2.pending(l).len() > 0 implies o.pending(l).len()
            > 0 || body_pending_label(insns@, *bb, o.functions@, l) by {
            assert(q2.pending(l) == q1.pending(l));
        }
        assert forall|l: IrIdent, k: int| 0 <= k < q2.pending(l).len() implies ((
        #[trigger] q2.pending(l)[k]) as int >= base + 12 || o.pending(l).contains(
            q2.pending(l)[k],
        )) by {
            assert(q2.pending(l) == q1.pending(l));
        }
        assert forall|t: int|
            0 <= t < o.machine_code@.len() && !resolved_site_covers(o, insns@, *bb, t) implies q2
            .machine_code@[t] == o.machine_code@[t] by {
            assert(q2.machine_code@[t] == q1.machine_code@[t]);
        }
        assert(q2.wf());
        assert forall|j: int| 0 <= j < 12 implies (#[trigger] q1.machine_code@[base + j])
            == q0.machine_code@[base + j] by {
            assert(q1.machine_code@.subrange(base, base + 12)[j] == q0.machine_code@.subrange(
                base,
                base + 12,
            )[j]);
        }
        assert forall|j: int| 0 <= j < 8 implies (#[trigger] q2.machine_code@[base + j])
            == prologue_bytes()[j] by {
            assert(q2.machine_code@[base + j] == q1.machine_code@[base + j]);
        }
        assert(q2.machine_code@.subrange(base, base + 8) =~= prologue_bytes()) by {
            assert forall|j: int|
                0 <= j < 8 implies q2.machine_code@.subrange(base, base + 8)[j]
                == prologue_bytes()[j] by {
                assert(q2.machine_code@.subrange(base, base + 8)[j] == q2.machine_code@[base
                    + j]);
            }
        }
        assert(q2.machine_code@.subrange(base + 8, base + 12) == le4(frame32));
        assert(q2.resolved(bb.enter_label));
        assert(q2.resolved(bb.exit_label));
    }

    // add rsp, imm32
    x86.machine_code.push(REX_W);
    x86.machine_code.push(0x81);
    x86.machine_code.push(0xc4);
    push_u32_le(x86, frame32);

    // pop rbp
    x86.machine_code.push(0x8f);
    let m2 = modrm(0, reg_id(X86Reg::RBP));
    x86.machine_code.push(m2);

    // ret
    x86.machine_code.push(0xc3);
    proof {
        lemma_jts_unchanged(o, q2, *x86, insns@, *bb, o.functions@, base);
        assert(x86.resolved(bb.enter_label)) by {
            assert(x86.target_pos(bb.enter_label) == q2.target_pos(bb.enter_label));
        }
        assert(x86.resolved(bb.exit_label)) by {
            assert(x86.target_pos(bb.exit_label) == q2.target_pos(bb.exit_label));
        }
        assert forall|j: int|
            0 <= j < insns@.len() && (#[trigger] insns@[j]).opcode is Label implies (insns@[j].op1
            matches IrOperand::Ident(l) ==> x86.resolved(l)) by {
            match insns@[j].op1 {
                IrOperand::Ident(l) => {
                    assert(q0.resolved(l));
                    assert(x86.target_pos(l) == q2.target_pos(l));
                    assert(q2.target_pos(l) == q1.target_pos(l));
                }
                _ => {}
            }
        }
        let fin = x86.machine_code@;
        assert(spec_modrm(0, 5) == 0xc5u8) by (bit_vector);
        assert(fin =~= q2.machine_code@ + seq![REX_W, 0x81u8, 0xc4u8] + le4(frame32) + seq![
            0x8fu8,
            0xc5u8,
            0xc3u8,
        ]);
        assert(fin.len() == q2.machine_code@.len() + 10);
        assert(fin.subrange(fin.len() as int - 10, fin.len() as int) =~= epilogue_bytes(frame32));
        assert(fin.subrange(base, base + 8) =~= q2.machine_code@.subrange(base, base + 8));
        assert(fin.subrange(base + 8, base + 12) =~= q2.machine_code@.subrange(
            base + 8,
            base + 12,
        ));
        if !o.resolved(bb.enter_label) {
            assert(q0.target_pos(bb.enter_label) == Some(base_pos as usize));
            assert(q1.target_pos(bb.enter_label) == q0.target_pos(bb.enter_label)) by {
                if bb.exit_label == bb.enter_label {
                    assert(q0.resolved(bb.exit_label));
                }
            }
            assert(x86.target_pos(bb.enter_label) == q2.target_pos(bb.enter_label));
        }
        if !o.resolved(bb.exit_label) && bb.enter_label != bb.exit_label
            && !crate::ir::body_has_label(insns@, bb.exit_label) {
            assert(!q0.resolved(bb.exit_label));
            assert(q1.target_pos(bb.exit_label) == Some(q0.machine_code@.len() as usize));
            assert(x86.target_pos(bb.exit_label) == q2.target_pos(bb.exit_label));
            assert(fin.len() - 10 == q0.machine_code@.len());
        }
    }
}

/// The instructions of a function body: the range between its `Prologue`
/// and its `Epilogue`, both exclusive.
pub open spec fn body_of(insns: Seq<IrInstruction>, bb: IrBasicBlock) -> Seq<IrInstruction> {
    insns.subrange(bb.prologue_index + 1, bb.epilogue_index as int)
}

/// What holds of the encoder state once a whole program has been encoded:
/// the function list mirrors the table; every non-foreign function's enter
/// and exit labels and every `Label` instruction in an encoded body have
/// resolved; and pending sites can only wait for labels some encoded body
/// may leave pending.
pub open spec fn program_encoded(
    x86: X86Assembler,
    insns: Seq<IrInstruction>,
    entries: Seq<(IrIdent, IrBasicBlock)>,
) -> bool {
    &&& x86.wf()
    &&& x86.functions@.len() == entries.len()
    &&& forall|i: int|
        0 <= i < entries.len() ==> (#[trigger] x86.functions@[i]).0 == entries[i].0
            && x86.functions@[i].1.enter_label == entries[i].1.enter_label
            && x86.functions@[i].1.exit_label == entries[i].1.exit_label
            && x86.functions@[i].1.is_foreign == entries[i].1.is_foreign
    &&& forall|i: int|
        0 <= i < entries.len() && !(#[trigger] entries[i]).1.is_foreign ==> x86.resolved(
            entries[i].1.enter_label,
        ) && x86.resolved(entries[i].1.exit_label)
    &&& forall|i: int, m: int|
        0 <= i < entries.len() && !(#[trigger] entries[i]).1.is_foreign && 0 <= m < body_of(
            insns,
            entries[i].1,
        ).len() && (#[trigger] body_of(insns, entries[i].1)[m]).opcode is Label ==> (body_of(
            insns,
            entries[i].1,
        )[m].op1 matches IrOperand::Ident(l) ==> x86.resolved(l))
    &&& forall|l: IrIdent|
        #[trigger] x86.pending(l).len() > 0 ==> exists|i: int|
            0 <= i < entries.len() && !(#[trigger] entries[i]).1.is_foreign && body_pending_label(
                body_of(insns, entries[i].1),
                entries[i].1,
                x86.functions@,
                l,
            )
}

/// The conditions the encoder requires of its inputs: a well-formed table
/// that holds a non-foreign `main`, every block range well formed against
/// the instruction vector, and an instruction count the 32-bit stack
/// displacements can absorb.
pub open spec fn encode_inputs_wf(
    insns: Seq<IrInstruction>,
    ft: FunctionTable,
    main_ident: IrIdent,
) -> bool {
    &&& ft.wf()
    &&& ft.spec_contains(main_ident)
    &&& !ft.spec_get(main_ident).is_foreign
    &&& 8 * insns.len() < 0x4000_0000
    &&& forall|i: int|
        0 <= i < ft.entries@.len() ==> crate::ir::block_range_wf(
            insns,
            (#[trigger] ft.entries@[i]).1,
        )
}

/// Encode a whole program: register every function, emit `main` first, then
/// every other non-foreign function in table order.
pub fn encode_program(
    instructions: &Vec<IrInstruction>,
    functions: &FunctionTable,
    main_symbol: Symbol,
    debug_break_symbol: Symbol,
    addr_size: usize,
) -> (x86: X86Assembler)
    requires
        addr_size == 4 || addr_size == 8,
        encode_inputs_wf(instructions@, *functions, IrIdent { symbol: main_symbol, index: 0 }),
    ensures
        program_encoded(x86, instructions@, functions.entries@),
        x86.debug_break_symbol == debug_break_symbol,
        x86.addr_size == addr_size,
        x86.machine_code@.len() >= 22,
        x86.machine_code@.subrange(0, 8) == prologue_bytes(),
{
    let ghost entries = functions.entries@;
    let mut x86 = X86Assembler {
        machine_code: Vec::new(),
        functions: Vec::new(),
        jump_targets: Vec::new(),
        debug_break_symbol,
        addr_size,
    };

    // Register all functions
    let n = functions.len();
    let mut i: usize = 0;
    while i < n
        invariant
            n == entries.len(),
            entries == functions.entries@,
            i <= n,
            x86.functions@.len() == i,
            forall|j: int|
                0 <= j < i ==> (#[trigger] x86.functions@[j]).0 == entries[j].0
                    && x86.functions@[j].1.enter_label == entries[j].1.enter_label
                    && x86.functions@[j].1.exit_label == entries[j].1.exit_label
                    && x86.functions@[j].1.is_foreign == entries[j].1.is_foreign,
            x86.jump_targets@.len() == 0,
            x86.machine_code@.len() == 0,
            x86.debug_break_symbol == debug_break_symbol,
            x86.addr_size == addr_size,
        decreases n - i,
    {
        let (ident, bb) = functions.entry_at(i);
        let func = X86Function {
            prologue_byte_position: 0,
            epilogue_byte_offset: 0,
            byte_length: 0,
            enter_label: bb.enter_label,
            exit_label: bb.exit_label,
            return_type: bb.return_type,
            func_address: bb.func_address,
            is_foreign: bb.is_foreign,
        };
        x86.functions.push((ident, func));
        i = i + 1;
    }

    let ghost funcs0 = x86.functions@;
    proof {
        assert(x86.wf());
        assert(forall|l: IrIdent| !(#[trigger] x86.has_target(l))) by {
            assert forall|l: IrIdent| !(#[trigger] x86.has_target(l)) by {
                lemma_jt_index_of(x86.jump_targets@, l);
            }
        }
    }

    // Compile the main function first
    let main_ident = create_ir_ident(main_symbol, 0);
    let ghost pre_main = x86;
    let main_bb_opt = functions.get(main_ident);
    match main_bb_opt {
        Some(bb) => {
            proof {
                crate::ir::lemma_table_index_of(entries, main_ident);
                assert(crate::ir::block_range_wf(instructions@, bb));
            }
            let insns = vstd::slice::slice_subrange(
                instructions.as_slice(),
                bb.prologue_index + 1,
                bb.epilogue_index,
            );
            push_function(&mut x86, insns, &bb);
            proof {
                assert(pending_bounded(
                    pre_main,
                    x86,
                    body_of(instructions@, bb),
                    bb,
                    funcs0,
                ));
                assert(x86.machine_code@.subrange(0, 8) == prologue_bytes());
                assert forall|l: IrIdent, sx: int|
                    0 <= sx < x86.pending(l).len() implies (#[trigger] x86.pending(l)[sx])
                    >= 12 by {
                    assert(pre_main.pending(l).len() == 0) by {
                        lemma_jt_index_of(pre_main.jump_targets@, l);
                    }
                }
            }
        }
        None => {
            proof {
                assert(false);
            }
        }
    }

    // Compile the rest of the functions
    let ghost main_idx = crate::ir::table_index_of(entries, main_ident);
    proof {
        crate::ir::lemma_table_index_of(entries, main_ident);
        assert(entries[main_idx].0 == main_ident);
        assert(!entries[main_idx].1.is_foreign);
    }
    let mut k: usize = 0;
    while k < n
        invariant
            n == entries.len(),
            entries == functions.entries@,
            k <= n,
            functions.wf(),
            8 * instructions@.len() < 0x4000_0000,
            forall|j: int|
                0 <= j < entries.len() ==> crate::ir::block_range_wf(
                    instructions@,
                    (#[trigger] entries[j]).1,
                ),
            x86.wf(),
            x86.functions@ == funcs0,
            x86.debug_break_symbol == debug_break_symbol,
            x86.addr_size == addr_size,
            x86.addr_size == 4 || x86.addr_size == 8,
            funcs0.len() == entries.len(),
            forall|j: int|
                0 <= j < entries.len() ==> (#[trigger] funcs0[j]).0 == entries[j].0
                    && funcs0[j].1.enter_label == entries[j].1.enter_label
                    && funcs0[j].1.exit_label == entries[j].1.exit_label
                    && funcs0[j].1.is_foreign == entries[j].1.is_foreign,
            0 <= main_idx < entries.len(),
            entries[main_idx].0 == main_ident,
            forall|j: int|
                0 <= j < entries.len() && (j < k || j == main_idx) && !(
                #[trigger] entries[j]).1.is_foreign ==> x86.resolved(entries[j].1.enter_label)
                    && x86.resolved(entries[j].1.exit_label),
            forall|j: int, m: int|
                0 <= j < entries.len() && (j < k || j == main_idx) && !(
                #[trigger] entries[j]).1.is_foreign && 0 <= m < body_of(
                    instructions@,
                    entries[j].1,
                ).len() && (#[trigger] body_of(instructions@, entries[j].1)[m]).opcode is Label
                    ==> (body_of(instructions@, entries[j].1)[m].op1 matches IrOperand::Ident(l)
                    ==> x86.resolved(l)),
            forall|l: IrIdent|
                #[trigger] x86.pending(l).len() > 0 ==> exists|j: int|
                    0 <= j < entries.len() && (j < k || j == main_idx) && !(
                    #[trigger] entries[j]).1.is_foreign && body_pending_label(
                        body_of(instructions@, entries[j].1),
                        entries[j].1,
                        funcs0,
                        l,
                    ),
            x86.machine_code@.len() >= 22,
            x86.machine_code@.subrange(0, 8) == prologue_bytes(),
            forall|l: IrIdent, s: int|
                0 <= s < x86.pending(l).len() ==> (#[trigger] x86.pending(l)[s]) >= 12,
        decreases n - k,
    {
        let (ident, bb) = functions.entry_at(k);
        let skip_this = ident == main_ident || bb.is_foreign;
        if !skip_this {
            proof {
                assert(crate::ir::block_range_wf(instructions@, bb));
                crate::ir::lemma_table_index_of(entries, main_ident);
                assert(k as int != main_idx);
            }
            let ghost pre = x86;
            let insns = vstd::slice::slice_subrange(
                instructions.as_slice(),
                bb.prologue_index + 1,
                bb.epilogue_index,
            );
            push_function(&mut x86, insns, &bb);
            proof {
                assert forall|l: IrIdent, sx: int|
                    0 <= sx < x86.pending(l).len() implies (#[trigger] x86.pending(l)[sx])
                    >= 12 by {
                    if !((x86.pending(l)[sx]) as int >= pre.machine_code@.len() + 12) {
                        assert(pre.pending(l).contains(x86.pending(l)[sx]));
                        let j = choose|j: int|
                            0 <= j < pre.pending(l).len() && (#[trigger] pre.pending(l)[j])
                                == x86.pending(l)[sx];
                    }
                }
                assert forall|t: int| 0 <= t < 8 implies (#[trigger] x86.machine_code@[t])
                    == pre.machine_code@[t] by {
                    assert(!resolved_site_covers(pre, insns@, bb, t)) by {
                        if resolved_site_covers(pre, insns@, bb, t) {
                            let l = choose|l: IrIdent|
                                (l == bb.enter_label || l == bb.exit_label
                                    || crate::ir::body_has_label(insns@, l))
                                    && #[trigger] site_covers(pre.pending(l), t);
                            let sx = choose|sx: int|
                                0 <= sx < pre.pending(l).len() && (#[trigger] pre.pending(
                                    l,
                                )[sx]) <= t < pre.pending(l)[sx] + 4;
                        }
                    }
                }
                assert(x86.machine_code@.subrange(0, 8) =~= pre.machine_code@.subrange(0, 8));
                assert forall|j: int|
                    0 <= j < entries.len() && (j < k + 1 || j == main_idx) && !(
                    #[trigger] entries[j]).1.is_foreign implies x86.resolved(
                    entries[j].1.enter_label,
                ) && x86.resolved(entries[j].1.exit_label) by {
                    if j == k as int {
                    } else {
                        assert(pre.resolved(entries[j].1.enter_label));
                        assert(pre.resolved(entries[j].1.exit_label));
                    }
                }
                assert forall|l: IrIdent| #[trigger] x86.pending(l).len() > 0 implies exists|
                    j: int,
                |
                    0 <= j < entries.len() && (j < k + 1 || j == main_idx) && !(
                    #[trigger] entries[j]).1.is_foreign && body_pending_label(
                        body_of(instructions@, entries[j].1),
                        entries[j].1,
                        funcs0,
                        l,
                    ) by {
                    if pre.pending(l).len() > 0 {
                        let j = choose|j: int|
                            0 <= j < entries.len() && (j < k || j == main_idx) && !(
                            #[trigger] entries[j]).1.is_foreign && body_pending_label(
                                body_of(instructions@, entries[j].1),
                                entries[j].1,
                                funcs0,
                                l,
                            );
                        assert(0 <= j < entries.len() && (j < k + 1 || j == main_idx) && !(
                        entries[j]).1.is_foreign && body_pending_label(
                            body_of(instructions@, entries[j].1),
                            entries[j].1,
                            funcs0,
                            l,
                        ));
                    } else {
                        assert(body_pending_label(
                            body_of(instructions@, bb),
                            bb,
                            funcs0,
                            l,
                        ));
                        assert(0 <= (k as int) < entries.len() && !(entries[k as int]).1.is_foreign
                            && body_pending_label(
                            body_of(instructions@, entries[k as int].1),
                            entries[k as int].1,
                            funcs0,
                            l,
                        ));
                    }
                }
            }
        }
        k = k + 1;
    }
    x86
}

/// Encode the IR to raw x86-64 machine code: the byte buffer of a fully
/// encoded program whose `main` comes first.
pub fn compile_ir_to_x86_machine_code(
    instructions: Vec<IrInstruction>,
    functions: FunctionTable,
    main_symbol: Symbol,
    debug_break_symbol: Symbol,
    addr_size: usize,
) -> (machine_code: Vec<u8>)
    requires
        addr_size == 4 || addr_size == 8,
        encode_inputs_wf(instructions@, functions, IrIdent { symbol: main_symbol, index: 0 }),
    ensures
        exists|x86: X86Assembler|
            #[trigger] program_encoded(x86, instructions@, functions.entries@)
                && machine_code == x86.machine_code && x86.debug_break_symbol == debug_break_symbol
                && x86.addr_size == addr_size,
        machine_code@.len() >= 22,
        machine_code@.subrange(0, 8) == prologue_bytes(),
{
    let x86 = encode_program(&instructions, &functions, main_symbol, debug_break_symbol, addr_size);
    proof {
        let w = x86;
        assert(program_encoded(w, instructions@, functions.entries@) && x86.machine_code
            == w.machine_code && w.debug_break_symbol == debug_break_symbol && w.addr_size
            == addr_size);
    }
    x86.machine_code
}

/// A resolved label keeps no pending sites.
pub proof fn lemma_resolved_no_pending(x86: X86Assembler, l: IrIdent)
    requires
        x86.wf(),
        x86.resolved(l),
    ensures
        x86.pending(l).len() == 0,
{
    lemma_jt_index_of(x86.jump_targets@, l);
}

/// After encoding concludes, no jump target retains unresolved pending
/// sites: provided every `Jump`/`IfFalse` in each encoded body targets a
/// label declared in that same body, every pending list is empty.
pub proof fn lemma_no_pending_after_encoding(
    x86: X86Assembler,
    insns: Seq<IrInstruction>,
    entries: Seq<(IrIdent, IrBasicBlock)>,
)
    requires
        program_encoded(x86, insns, entries),
        forall|i: int|
            0 <= i < entries.len() && !(#[trigger] entries[i]).1.is_foreign
                ==> crate::ir::jumps_closed(body_of(insns, entries[i].1)),
    ensures
        forall|l: IrIdent| #[trigger] x86.pending(l).len() == 0,
{
    assert forall|l: IrIdent| #[trigger] x86.pending(l).len() == 0 by {
        if x86.pending(l).len() > 0 {
            let i = choose|i: int|
                0 <= i < entries.len() && !(#[trigger] entries[i]).1.is_foreign
                    && body_pending_label(body_of(insns, entries[i].1), entries[i].1, x86.functions@, l);
            let bb = entries[i].1;
            let body = body_of(insns, bb);
            if l == bb.exit_label {
                lemma_resolved_no_pending(x86, l);
            } else if exists|m: int|
                0 <= m < body.len() && ((#[trigger] body[m]).opcode is Jump || body[m].opcode
                    is IfFalse) && body[m].op1 == IrOperand::Ident(l) {
                let m = choose|m: int|
                    0 <= m < body.len() && ((#[trigger] body[m]).opcode is Jump || body[m].opcode
                        is IfFalse) && body[m].op1 == IrOperand::Ident(l);
                assert(crate::ir::jumps_closed(body));
                assert(crate::ir::body_has_label(body, l));
                let m2 = choose|m2: int|
                    0 <= m2 < body.len() && (#[trigger] body[m2]).opcode is Label && body[m2].op1
                        == IrOperand::Ident(l);
                assert(x86.resolved(l));
                lemma_resolved_no_pending(x86, l);
            } else {
                let (m, c): (int, IrIdent) = choose|m: int, c: IrIdent|
                    0 <= m < body.len() && (#[trigger] body[m]).opcode is Call && body[m].op2
                        == IrOperand::Ident(c) && #[trigger] xfn_enter_ok(x86.functions@, c, l);
                lemma_xfn_lookup_exists(x86.functions@, c);
                let j = choose|j: int|
                    0 <= j < x86.functions@.len() && #[trigger] x86.functions@[j] == (
                    c,
                    xfn_lookup(x86.functions@, c)->Some_0,
                    );
                assert(x86.functions@[j].1.enter_label == l);
                assert(!entries[j].1.is_foreign);
                assert(entries[j].1.enter_label == l);
                assert(x86.resolved(l));
                lemma_resolved_no_pending(x86, l);
            }
        }
    }
}

} // verus!
