//! The linear three-address intermediate representation.
//!
//! A program lowers to one ordered instruction vector plus a per-function
//! table of basic blocks. Each function occupies the index range from its
//! `Prologue` instruction to its `Epilogue` instruction; labels are
//! identifiers, and every `Jump`/`IfFalse` carries its target label as the
//! first operand.

use vstd::prelude::*;

use crate::ast::Span;
use crate::ast::Symbol;

verus! {

/// An IR identifier: an interned symbol plus a version that disambiguates
/// shadowed names and freshly minted temporaries.
#[derive(Debug, Clone, Copy, PartialEq, Eq, Structural)]
pub struct IrIdent {
    pub symbol: Symbol,
    pub index: u32,
}

/// Build an [`IrIdent`] from its parts.
pub fn create_ir_ident(symbol: Symbol, index: u32) -> (r: IrIdent)
    ensures
        r == (IrIdent { symbol, index }),
{
    IrIdent { symbol, index }
}

/// The primitive types the IR distinguishes.
#[derive(Debug, Clone, Copy, PartialEq, Eq, Structural)]
pub enum IrType {
    I8,
    I32,
    U32,
    I64,
    U64,
    Bool,
    Ptr,
    Unit,
}

/// A typed constant.
#[derive(Debug, Clone, Copy, PartialEq, Eq, Structural)]
pub enum IrValue {
    I32(i32),
    U32(u32),
    U64(u64),
    Bool(bool),
}

/// An instruction operand: an identifier, a constant, or nothing.
#[derive(Debug, Clone, Copy, PartialEq, Eq, Structural)]
pub enum IrOperand {
    Ident(IrIdent),
    Value(IrValue),
    Nil,
}

/// The IR opcodes.
#[derive(Debug, Clone, Copy, PartialEq, Eq, Structural)]
pub enum IrOpcode {
    Nop,
    Alloca,
    Copy,
    Add,
    Sub,
    Mul,
    Div,
    Mod,
    And,
    Or,
    Xor,
    Lt,
    Le,
    Gt,
    Ge,
    Eq,
    Ne,
    IfFalse,
    Jump,
    Label,
    Param,
    Call,
    Return,
    Prologue,
    Epilogue,
}

/// One three-operand instruction. `op1` is the destination, except for
/// `Jump`/`IfFalse`/`Label`, which carry the label in `op1` (`IfFalse` holds
/// the condition in `op2`), and `Return`, whose `op1` is the returned value.
#[derive(Debug, Clone, Copy, PartialEq, Eq, Structural)]
pub struct IrInstruction {
    pub opcode: IrOpcode,
    pub ty: IrType,
    pub op1: IrOperand,
    pub op2: IrOperand,
    pub op3: IrOperand,
    pub span: Span,
}

/// Per-function block descriptor: enter/exit labels, return type, the index
/// range of the function in the instruction vector, and the foreign-call
/// information.
#[derive(Debug, Clone, Copy)]
pub struct IrBasicBlock {
    pub enter_label: IrIdent,
    pub exit_label: IrIdent,
    pub return_type: IrType,
    pub prologue_index: usize,
    pub epilogue_index: usize,
    pub func_address: Option<usize>,
    pub is_foreign: bool,
}

/// Byte size of an IR type on a host whose pointers are `addr_size` bytes.
pub open spec fn spec_size_of_ir_type(ty: IrType, addr_size: usize) -> usize {
    match ty {
        IrType::I8 => 1usize,
        IrType::I32 => 4usize,
        IrType::U32 => 4usize,
        IrType::I64 => 8usize,
        IrType::U64 => 8usize,
        IrType::Bool => 1usize,
        IrType::Ptr => addr_size,
        IrType::Unit => 0usize,
    }
}

/// Executable twin of [`spec_size_of_ir_type`].
#[verifier::when_used_as_spec(spec_size_of_ir_type)]
pub fn size_of_ir_type(ty: IrType, addr_size: usize) -> (r: usize)
    ensures
        r == spec_size_of_ir_type(ty, addr_size),
{
    match ty {
        IrType::I8 => 1,
        IrType::I32 => 4,
        IrType::U32 => 4,
        IrType::I64 => 8,
        IrType::U64 => 8,
        IrType::Bool => 1,
        IrType::Ptr => addr_size,
        IrType::Unit => 0,
    }
}

/// The function table: an association list from function identifier to its
/// basic block, with unique keys, iterated in insertion order.
pub struct FunctionTable {
    pub entries: Vec<(IrIdent, IrBasicBlock)>,
}

/// First index whose key equals `key`, or -1.
pub open spec fn table_index_of(entries: Seq<(IrIdent, IrBasicBlock)>, key: IrIdent) -> int
    decreases entries.len(),
{
    if entries.len() == 0 {
        -1
    } else if entries[0].0 == key {
        0
    } else {
        let rest = table_index_of(entries.skip(1), key);
        if rest == -1 {
            -1
        } else {
            rest + 1
        }
    }
}

pub proof fn lemma_table_index_of(entries: Seq<(IrIdent, IrBasicBlock)>, key: IrIdent)
    ensures
        -1 <= table_index_of(entries, key) < entries.len(),
        table_index_of(entries, key) >= 0 ==> entries[table_index_of(entries, key)].0 == key,
        table_index_of(entries, key) == -1 ==> forall|i: int|
            0 <= i < entries.len() ==> (#[trigger] entries[i]).0 != key,
    decreases entries.len(),
{
    if entries.len() > 0 && entries[0].0 != key {
        lemma_table_index_of(entries.skip(1), key);
        if table_index_of(entries, key) == -1 {
            assert forall|i: int| 0 <= i < entries.len() implies (#[trigger] entries[i]).0
                != key by {
                if i > 0 {
                    assert(entries[i] == entries.skip(1)[i - 1]);
                }
            }
        }
    }
}

impl FunctionTable {
    /// Whether `key` is present.
    pub open spec fn spec_contains(&self, key: IrIdent) -> bool {
        table_index_of(self.entries@, key) >= 0
    }

    /// The block bound to `key` (meaningful only when present).
    pub open spec fn spec_get(&self, key: IrIdent) -> IrBasicBlock {
        self.entries@[table_index_of(self.entries@, key)].1
    }

    /// Keys are unique.
    pub open spec fn wf(&self) -> bool {
        forall|i: int, j: int|
            0 <= i < j < self.entries@.len() ==> (#[trigger] self.entries@[i]).0 != (
            #[trigger] self.entries@[j]).0
    }

    /// An empty table.
    pub fn new() -> (r: FunctionTable)
        ensures
            r.wf(),
            r.entries@.len() == 0,
    {
        FunctionTable { entries: Vec::new() }
    }

    /// Number of functions.
    pub fn len(&self) -> (n: usize)
        ensures
            n == self.entries@.len(),
    {
        self.entries.len()
    }

    /// The entry at position `i`, in insertion order.
    pub fn entry_at(&self, i: usize) -> (e: (IrIdent, IrBasicBlock))
        requires
            i < self.entries@.len(),
        ensures
            e == self.entries@[i as int],
    {
        self.entries[i]
    }

    /// Bind `key` to `bb`; `key` must be new.
    pub fn insert(&mut self, key: IrIdent, bb: IrBasicBlock)
        requires
            old(self).wf(),
            !old(self).spec_contains(key),
        ensures
            final(self).wf(),
            final(self).entries@ == old(self).entries@.push((key, bb)),
            final(self).spec_contains(key),
            final(self).spec_get(key) == bb,
            forall|k: IrIdent|
                k != key ==> #[trigger] final(self).spec_contains(k) == old(self).spec_contains(k),
            forall|k: IrIdent|
                k != key && old(self).spec_contains(k) ==> #[trigger] final(self).spec_get(k)
                    == old(self).spec_get(k),
    {
        proof {
            lemma_table_index_of(self.entries@, key);
        }
        self.entries.push((key, bb));
        proof {
            lemma_table_push(old(self).entries@, key, bb);
            assert forall|k: IrIdent| k != key && old(self).spec_contains(k) implies #[trigger] self
                .spec_get(k) == old(self).spec_get(k) by {
                lemma_table_index_of(old(self).entries@, k);
                let i = table_index_of(old(self).entries@, k);
                assert(self.entries@[i] == old(self).entries@[i]);
            }
        }
    }

    /// Look `key` up.
    pub fn get(&self, key: IrIdent) -> (r: Option<IrBasicBlock>)
        ensures
            r matches Some(bb) ==> self.spec_contains(key) && bb == self.spec_get(key),
            r is None ==> !self.spec_contains(key),
    {
        proof {
            lemma_table_index_of(self.entries@, key);
        }
        let n = self.entries.len();
        let mut i: usize = 0;
        while i < n
            invariant
                n == self.entries@.len(),
                i <= n,
                forall|j: int| 0 <= j < i ==> (#[trigger] self.entries@[j]).0 != key,
            decreases n - i,
        {
            let e = self.entries[i];
            if e.0 == key {
                proof {
                    lemma_table_first_match(self.entries@, key, i as int);
                }
                return Some(e.1);
            }
            i = i + 1;
        }
        proof {
            lemma_table_index_of(self.entries@, key);
        }
        None
    }
}

proof fn lemma_table_first_match(entries: Seq<(IrIdent, IrBasicBlock)>, key: IrIdent, i: int)
    requires
        0 <= i < entries.len(),
        entries[i].0 == key,
        forall|j: int| 0 <= j < i ==> (#[trigger] entries[j]).0 != key,
    ensures
        table_index_of(entries, key) == i,
    decreases entries.len(),
{
    if i > 0 {
        assert(entries[0].0 != key);
        lemma_table_first_match(entries.skip(1), key, i - 1);
        assert(forall|k: int|
            0 <= k < entries.skip(1).len() ==> entries.skip(1)[k] == entries[k + 1]);
    }
}

proof fn lemma_table_push(entries: Seq<(IrIdent, IrBasicBlock)>, key: IrIdent, bb: IrBasicBlock)
    requires
        table_index_of(entries, key) == -1,
    ensures
        table_index_of(entries.push((key, bb)), key) == entries.len(),
        forall|k: IrIdent|
            k != key ==> #[trigger] table_index_of(entries.push((key, bb)), k) == table_index_of(
                entries,
                k,
            ),
    decreases entries.len(),
{
    let e2 = entries.push((key, bb));
    lemma_table_index_of(entries, key);
    lemma_table_first_match(e2, key, entries.len() as int);
    assert forall|k: IrIdent| k != key implies #[trigger] table_index_of(e2, k) == table_index_of(
        entries,
        k,
    ) by {
        lemma_table_index_of(entries, k);
        if table_index_of(entries, k) >= 0 {
            let i = table_index_of(entries, k);
            assert forall|j: int| 0 <= j < i implies (#[trigger] e2[j]).0 != k by {
                lemma_table_prefix_distinct(entries, k, j);
            }
            lemma_table_first_match(e2, k, i);
        } else {
            lemma_table_index_of(e2, k);
            if table_index_of(e2, k) >= 0 {
                let i = table_index_of(e2, k);
                assert(e2[i].0 == k);
                assert(i < e2.len());
                if i < entries.len() {
                    assert(entries[i].0 == k);
                } else {
                    assert(e2[i] == (key, bb));
                }
            }
        }
    }
}

proof fn lemma_table_prefix_distinct(entries: Seq<(IrIdent, IrBasicBlock)>, k: IrIdent, j: int)
    requires
        0 <= j < entries.len(),
        j < table_index_of(entries, k),
    ensures
        entries[j].0 != k,
    decreases j,
{
    if j == 0 {
        assert(entries[0].0 != k);
    } else {
        assert(entries[0].0 != k);
        lemma_table_prefix_distinct(entries.skip(1), k, j - 1);
        assert(entries.skip(1)[j - 1] == entries[j]);
    }
}

/// Whether `insns` contains a `Label` instruction for label `l`.
pub open spec fn body_has_label(insns: Seq<IrInstruction>, l: IrIdent) -> bool {
    exists|i: int|
        0 <= i < insns.len() && (#[trigger] insns[i]).opcode is Label && insns[i].op1
            == IrOperand::Ident(l)
}

/// Every `Jump`/`IfFalse` in `insns` targets a label declared in `insns`.
pub open spec fn jumps_closed(insns: Seq<IrInstruction>) -> bool {
    forall|i: int|
        0 <= i < insns.len() && ((#[trigger] insns[i]).opcode is Jump || insns[i].opcode
            is IfFalse) ==> (insns[i].op1 matches IrOperand::Ident(l) && body_has_label(insns, l))
}

/// `insns` contains no function boundaries.
pub open spec fn body_has_no_boundaries(insns: Seq<IrInstruction>) -> bool {
    forall|i: int|
        0 <= i < insns.len() ==> !((#[trigger] insns[i]).opcode is Prologue) && !(insns[i].opcode
            is Epilogue)
}

/// The block's index range is well formed against the instruction vector:
/// a `Prologue` at `prologue_index`, an `Epilogue` at `epilogue_index`,
/// nothing of either kind in between.
pub open spec fn block_range_wf(insns: Seq<IrInstruction>, bb: IrBasicBlock) -> bool {
    &&& bb.prologue_index < bb.epilogue_index < insns.len()
    &&& insns[bb.prologue_index as int].opcode is Prologue
    &&& insns[bb.epilogue_index as int].opcode is Epilogue
    &&& body_has_no_boundaries(
        insns.subrange(bb.prologue_index + 1, bb.epilogue_index as int),
    )
}

} // verus!
