//! Arena-based model of the subset of C declaration nodes that the
//! bitfield recovery pipeline reads: record declarations, field
//! declarations and integer literals, each with byte source ranges.
//!
//! Nodes live in one flat arena and refer to their children by index;
//! a well-formed arena is one in which every child index points past its
//! parent, which makes every walk of the tree terminate.

use vstd::prelude::*;

verus! {

/// A fatal violation of the pipeline's packing or reconciliation
/// assumptions.  The pipeline never guesses a layout: any of these
/// aborts the run.
#[derive(Debug, Clone, Copy, PartialEq, Eq, Structural)]
pub enum BitfieldError {
    /// A bit-field's declared storage type is not the 32-bit unsigned
    /// integer this header dialect is assumed to use.
    StorageTypeNotU32,
    /// A bit-field declaration has no integer-literal descendant giving
    /// its width.
    MissingWidth,
    /// A bit-field is wider than one 32-bit storage unit.
    WidthTooLarge,
    /// A zero-width bit-field appeared while no storage group was open.
    ZeroWidthWithoutGroup,
    /// A field that must anchor a source range or appear in the info
    /// table has no name.
    UnnamedField,
    /// A record containing bit-fields has no name to key its info by.
    UnnamedRecord,
    /// A storage group in the table holds no fields.
    EmptyGroup,
    /// A group's first field name could not be found inside the group's
    /// source span.
    AnchorNotFound,
    /// A computed splice range does not fit inside the source text.
    RangeOutOfBounds,
    /// Two computed splice ranges overlap, or share a start offset.
    OverlappingRanges,
    /// A regenerated struct declaration has no entry in the info table.
    MissingInfo,
    /// An info table entry was never matched by a regenerated struct.
    UnmatchedInfo,
}

/// A byte position in the source text: the offset of a token's first
/// byte and the token's length in bytes.
#[derive(Debug, Clone, Copy, PartialEq, Eq, Structural)]
pub struct SrcPos {
    pub offset: usize,
    pub tok_len: usize,
}

/// A source span, as begin and end token positions.
#[derive(Debug, Clone, Copy, PartialEq, Eq, Structural)]
pub struct SrcRange {
    pub begin: SrcPos,
    pub end: SrcPos,
}

/// The declared type of a field: the spelled type plus, where the
/// spelling is a typedef, the desugared canonical type.
#[derive(Debug)]
pub struct FieldType {
    pub qual_type: String,
    pub desugared_qual_type: Option<String>,
}

/// A struct/union member declaration.
#[derive(Debug)]
pub struct FieldDecl {
    pub name: Option<String>,
    pub is_bitfield: Option<bool>,
    pub field_type: FieldType,
    pub range: SrcRange,
}

/// A struct/union declaration.
#[derive(Debug)]
pub struct RecordDecl {
    pub name: Option<String>,
    pub complete_definition: Option<bool>,
}

/// An integer constant; for a bit-field it is the width, and its range
/// locates the width specifier in the source text.
#[derive(Debug, Clone, Copy, PartialEq, Eq, Structural)]
pub struct IntegerLiteral {
    pub value: u64,
    pub range: SrcRange,
}

/// The discriminated kind of a node.  Kinds the pipeline does not read
/// collapse to `Other`, carrying only the raw kind tag, so a walk can
/// skip irrelevant subtrees without failing.
#[derive(Debug)]
pub enum Clang {
    RecordDecl(RecordDecl),
    FieldDecl(FieldDecl),
    IntegerLiteral(IntegerLiteral),
    Other { kind: String },
}

/// One node of the declaration tree: its kind and the arena indices of
/// its children, in declaration order.
#[derive(Debug)]
pub struct Node {
    pub kind: Clang,
    pub inner: Vec<usize>,
}

/// The declaration tree: an arena of nodes rooted at index 0.
#[derive(Debug)]
pub struct Ast {
    pub nodes: Vec<Node>,
}

impl Ast {
    /// Every child index points strictly past its parent and into the
    /// arena.  This is the invariant every tree walk rests on.
    pub open spec fn wf(self) -> bool {
        forall|i: int, j: int|
            0 <= i < self.nodes@.len() && 0 <= j < self.nodes@[i].inner@.len()
                ==> i < (#[trigger] self.nodes@[i].inner@[j]) as int
                    && (self.nodes@[i].inner@[j] as int) < self.nodes@.len()
    }

    pub open spec fn len(self) -> int {
        self.nodes@.len() as int
    }

    pub open spec fn node(self, i: int) -> Node {
        self.nodes@[i]
    }

    pub open spec fn is_record(self, i: int) -> bool {
        self.node(i).kind is RecordDecl
    }

    pub open spec fn is_field(self, i: int) -> bool {
        self.node(i).kind is FieldDecl
    }

    pub open spec fn record_at(self, i: int) -> RecordDecl
        recommends
            self.is_record(i),
    {
        match self.node(i).kind {
            Clang::RecordDecl(r) => r,
            _ => arbitrary(),
        }
    }

    pub open spec fn field_at(self, i: int) -> FieldDecl
        recommends
            self.is_field(i),
    {
        match self.node(i).kind {
            Clang::FieldDecl(f) => f,
            _ => arbitrary(),
        }
    }

    /// A bit-field's width literal sits as the only grandchild of the
    /// field node: field -> width expression -> integer literal.
    pub open spec fn has_width_lit(self, f: int) -> bool {
        &&& self.node(f).inner@.len() >= 1
        &&& self.node(self.node(f).inner@[0] as int).inner@.len() >= 1
        &&& self.node(
            self.node(self.node(f).inner@[0] as int).inner@[0] as int,
        ).kind is IntegerLiteral
    }

    pub open spec fn width_lit(self, f: int) -> IntegerLiteral
        recommends
            self.has_width_lit(f),
    {
        match self.node(self.node(self.node(f).inner@[0] as int).inner@[0] as int).kind {
            Clang::IntegerLiteral(l) => l,
            _ => arbitrary(),
        }
    }

    pub open spec fn width_of(self, f: int) -> u64
        recommends
            self.has_width_lit(f),
    {
        self.width_lit(f).value
    }

    /// Wraps an arena in an `Ast` after checking well-formedness, so
    /// that everything downstream can rely on `wf` without trusting the
    /// producer of the tree.
    pub fn from_nodes(nodes: Vec<Node>) -> (r: Option<Ast>)
        ensures
            match r {
                Some(a) => a == (Ast { nodes }) && a.wf(),
                None => !(Ast { nodes }).wf(),
            },
    {
        let n = nodes.len();
        let mut i: usize = 0;
        while i < n
            invariant
                n == nodes.len(),
                i <= n,
                forall|p: int, q: int|
                    0 <= p < i && 0 <= q < nodes@[p].inner@.len()
                        ==> p < (#[trigger] nodes@[p].inner@[q]) as int
                            && (nodes@[p].inner@[q] as int) < nodes@.len(),
            decreases n - i,
        {
            let m = nodes[i].inner.len();
            let mut j: usize = 0;
            while j < m
                invariant
                    n == nodes.len(),
                    i < n,
                    m == nodes@[i as int].inner@.len(),
                    j <= m,
                    forall|q: int|
                        0 <= q < j
                            ==> i < (#[trigger] nodes@[i as int].inner@[q]) as int
                                && (nodes@[i as int].inner@[q] as int) < nodes@.len(),
                decreases m - j,
            {
                let c = nodes[i].inner[j];
                if c <= i || c >= n {
                    assert(!(Ast { nodes }).wf());
                    return None;
                }
                j += 1;
            }
            i += 1;
        }
        Some(Ast { nodes })
    }
}

/// The storage-type assumption of this header dialect: a bit-field
/// must be declared with 32-bit unsigned storage, spelled
/// `unsigned int` either directly or after desugaring.
pub open spec fn storage_type_ok(ft: FieldType) -> bool {
    ||| ft.qual_type@ == "unsigned int"@
    ||| match ft.desugared_qual_type {
        Some(d) => d@ == "unsigned int"@,
        None => false,
    }
}

pub fn check_storage_type(ft: &FieldType) -> (r: bool)
    ensures
        r == storage_type_ok(*ft),
{
    let expected = String::from_str("unsigned int");
    if ft.qual_type == expected {
        return true;
    }
    match &ft.desugared_qual_type {
        Some(d) => *d == expected,
        None => false,
    }
}

} // verus!
