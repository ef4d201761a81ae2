//! Symbols, source spans and the abstract syntax tree.
//!
//! Identifiers are interned: a process-wide [`Interner`] maps each distinct
//! string to a small integer handle ([`Symbol`]), and two symbols compare
//! equal exactly when their source strings are equal. Spans are plain
//! `(file, offset, length)` triples and never affect semantics.

use vstd::prelude::*;

verus! {

/// Handle produced by the interner; equal handles mean equal source strings.
pub type Symbol = u32;

/// Source location: file id, byte offset and byte length. Purely diagnostic.
#[derive(Debug, Clone, Copy, PartialEq, Eq, Structural)]
pub struct Span {
    pub file: u32,
    pub offset: u32,
    pub len: u32,
}

impl Span {
    /// A span that points nowhere, for nodes without a source position.
    pub fn none() -> (s: Span)
        ensures
            s == (Span { file: 0, offset: 0, len: 0 }),
    {
        Span { file: 0, offset: 0, len: 0 }
    }
}

/// A literal value of the source language: a 32-bit signed integer or a bool.
#[derive(Debug, Clone, Copy, PartialEq, Eq, Structural)]
pub enum Val {
    Num(i32),
    Bool(bool),
}

/// Unary and binary operators of the source language. `Sub` doubles as unary
/// negation; `Not` is unary only.
#[derive(Debug, Clone, Copy, PartialEq, Eq, Structural)]
pub enum Op {
    Add,
    Sub,
    Mul,
    Div,
    Mod,
    Equal,
    NotEq,
    LessThan,
    LessEq,
    LargerThan,
    LargerEq,
    And,
    Or,
    Not,
}

/// The index of the first entry equal to `s`, or -1 when no entry is.
pub open spec fn interned_index(table: Seq<Seq<char>>, s: Seq<char>) -> int
    decreases table.len(),
{
    if table.len() == 0 {
        -1
    } else if table[0] == s {
        0
    } else {
        let rest = interned_index(table.skip(1), s);
        if rest == -1 {
            -1
        } else {
            rest + 1
        }
    }
}

/// The handle `intern_string` hands out for `s` against table `table`.
pub open spec fn intern_result(table: Seq<Seq<char>>, s: Seq<char>) -> int {
    if interned_index(table, s) >= 0 {
        interned_index(table, s)
    } else {
        table.len() as int
    }
}

/// The table after interning `s`: unchanged when `s` is present, extended
/// by `s` otherwise.
pub open spec fn intern_table(table: Seq<Seq<char>>, s: Seq<char>) -> Seq<Seq<char>> {
    if interned_index(table, s) >= 0 {
        table
    } else {
        table.push(s)
    }
}

proof fn lemma_interned_index_bounds(table: Seq<Seq<char>>, s: Seq<char>)
    ensures
        -1 <= interned_index(table, s) < table.len(),
        interned_index(table, s) >= 0 ==> table[interned_index(table, s)] == s,
        interned_index(table, s) == -1 ==> forall|i: int| 0 <= i < table.len() ==> table[i] != s,
    decreases table.len(),
{
    if table.len() > 0 && table[0] != s {
        lemma_interned_index_bounds(table.skip(1), s);
        if interned_index(table, s) == -1 {
            assert forall|i: int| 0 <= i < table.len() implies table[i] != s by {
                if i > 0 {
                    assert(table[i] == table.skip(1)[i - 1]);
                }
            }
        }
    }
}

/// String-to-symbol interner. Entries are never reclaimed; the table lives
/// as long as the compilation does.
pub struct Interner {
    pub table: Vec<String>,
}

impl Interner {
    /// The mathematical table: the sequence of interned strings.
    pub open spec fn view_table(&self) -> Seq<Seq<char>> {
        Seq::new(self.table@.len(), |i: int| self.table@[i]@)
    }

    /// No two entries hold the same string.
    pub open spec fn wf(&self) -> bool {
        forall|i: int, j: int|
            0 <= i < j < self.view_table().len() ==> self.view_table()[i] != self.view_table()[j]
    }

    /// An empty interner.
    pub fn new() -> (r: Interner)
        ensures
            r.wf(),
            r.view_table().len() == 0,
    {
        let r = Interner { table: Vec::new() };
        proof {
            assert(r.view_table() =~= Seq::<Seq<char>>::empty());
        }
        r
    }

    /// Return the handle for `s`, adding `s` to the table when it is new.
    /// Equal strings get equal handles; distinct strings distinct handles.
    pub fn intern_string(&mut self, s: &str) -> (sym: Symbol)
        requires
            old(self).wf(),
            old(self).view_table().len() < u32::MAX,
        ensures
            final(self).wf(),
            final(self).view_table() == intern_table(old(self).view_table(), s@),
            sym as int == intern_result(old(self).view_table(), s@),
            sym < final(self).view_table().len(),
            final(self).view_table()[sym as int] == s@,
    {
        proof {
            lemma_interned_index_bounds(self.view_table(), s@);
        }
        let ghost table0 = self.view_table();
        let owned: String = s.to_owned();
        let n = self.table.len();
        let mut i: usize = 0;
        while i < n
            invariant
                n == self.table@.len(),
                i <= n,
                self.view_table() == table0,
                old(self).wf(),
                self == old(self),
                owned@ == s@,
                n < u32::MAX,
                forall|j: int| 0 <= j < i ==> table0[j] != s@,
            decreases n - i,
        {
            if self.table[i] == owned {
                proof {
                    assert(table0[i as int] == s@);
                    lemma_interned_first_match(table0, s@, i as int);
                }
                return i as u32;
            }
            proof {
                assert(table0[i as int] != s@);
            }
            i = i + 1;
        }
        let sym = n as u32;
        self.table.push(owned);
        proof {
            assert(interned_index(table0, s@) == -1) by {
                lemma_interned_index_bounds(table0, s@);
            }
            assert(self.view_table() =~= table0.push(s@));
        }
        sym
    }
}

proof fn lemma_interned_first_match(table: Seq<Seq<char>>, s: Seq<char>, i: int)
    requires
        0 <= i < table.len(),
        table[i] == s,
        forall|j: int| 0 <= j < i ==> table[j] != s,
        forall|p: int, q: int| 0 <= p < q < table.len() ==> table[p] != table[q],
    ensures
        interned_index(table, s) == i,
    decreases table.len(),
{
    if i > 0 {
        assert(table[0] != s);
        lemma_interned_first_match(table.skip(1), s, i - 1);
        assert(forall|k: int| 0 <= k < table.skip(1).len() ==> table.skip(1)[k] == table[k + 1]);
    } else {
        assert(table[0] == s);
    }
}

/// Interning is injective: starting from any well-formed table, interning
/// `s1` and then `s2` yields equal handles exactly when the strings are equal.
pub proof fn lemma_intern_string_injective(table: Seq<Seq<char>>, s1: Seq<char>, s2: Seq<char>)
    requires
        forall|i: int, j: int| 0 <= i < j < table.len() ==> table[i] != table[j],
    ensures
        intern_result(table, s1) == intern_result(intern_table(table, s1), s2) <==> s1 == s2,
{
    lemma_interned_index_bounds(table, s1);
    let t1 = intern_table(table, s1);
    let y1 = intern_result(table, s1);
    lemma_interned_index_bounds(t1, s2);
    assert(t1[y1] == s1);
    if s1 == s2 {
        if interned_index(table, s1) >= 0 {
            lemma_interned_first_match(table, s1, y1);
        } else {
            assert(forall|p: int, q: int| 0 <= p < q < t1.len() ==> t1[p] != t1[q]);
            lemma_interned_first_match(t1, s1, y1);
        }
        assert(intern_result(t1, s2) == y1);
    } else {
        let y2 = intern_result(t1, s2);
        if interned_index(t1, s2) >= 0 {
            assert(t1[y2] == s2);
        } else {
            assert(y2 == t1.len());
            assert(y1 < t1.len());
        }
    }
}

/// A type annotation of the source language.
#[derive(Debug, Clone, Copy, PartialEq, Eq, Structural)]
pub enum TyAnn {
    I32,
    Bool,
    Unit,
}

/// An identifier occurrence: interned symbol plus its source span.
#[derive(Debug, Clone, Copy, PartialEq, Eq, Structural)]
pub struct Ident {
    pub sym: Symbol,
    pub span: Span,
}

/// An operator occurrence: operator plus its source span.
#[derive(Debug, Clone, Copy, PartialEq, Eq, Structural)]
pub struct SpanOp {
    pub span: Span,
    pub op: Op,
}

/// An expression paired with its source span.
pub struct SpanExpr {
    pub span: Span,
    pub expr: Expr,
}

/// Expressions of the source language.
pub enum Expr {
    /// Integer or boolean literal.
    Val(Val),
    /// Identifier load.
    Ident(Symbol),
    /// Parenthesized expression.
    Paren(Box<SpanExpr>),
    /// Unary operation (`-e`, `!e`).
    UnOp(SpanOp, Box<SpanExpr>),
    /// Binary operation, evaluated left to right.
    BinOp(Box<SpanExpr>, SpanOp, Box<SpanExpr>),
    /// `let` declaration: mutability, identifier, annotation, initializer.
    Local(bool, Ident, TyAnn, Box<SpanExpr>),
    /// Assignment to the nearest enclosing binding.
    Assign(Ident, Box<SpanExpr>),
    /// Function call by identifier, arguments evaluated left to right.
    Call(Ident, Vec<SpanExpr>),
    /// Statement block; its value is the value of the last statement.
    Block(Vec<SpanExpr>),
    /// `if cond { then } else { else }`.
    If(Box<SpanExpr>, Box<SpanExpr>, Box<SpanExpr>),
    /// `while cond { body }`.
    While(Box<SpanExpr>, Box<SpanExpr>),
    /// `return e`.
    Return(Box<SpanExpr>),
}

/// A function parameter: identifier, declared type, mutability.
#[derive(Debug, Clone, Copy)]
pub struct Param {
    pub ident: Ident,
    pub ty: TyAnn,
    pub mutable: bool,
}

/// A function declaration.
pub struct FnDecl {
    pub ident: Ident,
    pub params: Vec<Param>,
    pub ret_ty: TyAnn,
    pub body: SpanExpr,
    /// A foreign function has no body in source; its address is supplied.
    pub is_foreign: bool,
    pub address: Option<usize>,
}

/// A top-level item.
pub enum Item {
    Fn(FnDecl),
}

/// A parsed source file: its items and the number of parse errors reported.
pub struct File {
    pub items: Vec<Item>,
    pub error_count: u32,
}

/// True when some item is a function named `sym`.
pub open spec fn spec_has_function(items: Seq<Item>, sym: Symbol) -> bool {
    exists|i: int|
        0 <= i < items.len() && ((#[trigger] items[i]) matches Item::Fn(f) && f.ident.sym == sym)
}

/// Whether the file declares a function named `main_symbol`. The driver
/// refuses to run code generation when it does not.
pub fn has_main_function(ast: &File, main_symbol: Symbol) -> (r: bool)
    ensures
        r == spec_has_function(ast.items@, main_symbol),
{
    let n = ast.items.len();
    let mut i: usize = 0;
    while i < n
        invariant
            n == ast.items@.len(),
            i <= n,
            forall|j: int|
                0 <= j < i ==> !((#[trigger] ast.items@[j]) matches Item::Fn(f)
                    && f.ident.sym == main_symbol),
        decreases n - i,
    {
        match &ast.items[i] {
            Item::Fn(f) => {
                if f.ident.sym == main_symbol {
                    return true;
                }
            }
        }
        i = i + 1;
    }
    false
}

} // verus!
