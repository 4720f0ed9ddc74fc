//! The Rholang syntax tree that the semantic analysis works on.
//!
//! Every node carries plain values only: identifiers are strings, positions are
//! line/column pairs.  A front end builds this tree; the analyses in this crate
//! never look at source text.
use vstd::prelude::*;

verus! {

/// A position in the source text (1-based line and column by convention).
#[derive(Clone, Copy, Debug, PartialEq, Eq, Structural)]
pub struct SourcePos {
    pub line: usize,
    pub col: usize,
}

/// A half-open range `[start, end)` of source positions.
#[derive(Clone, Copy, Debug, PartialEq, Eq, Structural)]
pub struct SourceSpan {
    pub start: SourcePos,
    pub end: SourcePos,
}

/// `a` comes strictly before `b` in reading order.
pub open spec fn pos_lt(a: SourcePos, b: SourcePos) -> bool {
    a.line < b.line || (a.line == b.line && a.col < b.col)
}

impl SourcePos {
    pub fn new(line: usize, col: usize) -> (r: SourcePos)
        ensures
            r.line == line,
            r.col == col,
    {
        SourcePos { line, col }
    }

    /// The position where source text starts.
    pub fn origin() -> (r: SourcePos)
        ensures
            r.line == 0,
            r.col == 0,
    {
        SourcePos { line: 0, col: 0 }
    }

    /// Reading-order comparison: `self` comes strictly before `other`.
    pub fn before(&self, other: &SourcePos) -> (r: bool)
        ensures
            r == pos_lt(*self, *other),
    {
        self.line < other.line || (self.line == other.line && self.col < other.col)
    }
}

/// An identifier occurrence.
#[derive(Clone, Debug, PartialEq, Eq)]
pub struct Id {
    pub name: String,
    pub pos: SourcePos,
}

/// A variable: a named identifier or the wildcard `_`.
#[derive(Clone, Debug, PartialEq, Eq)]
pub enum Var {
    Wildcard,
    Id(Id),
}

/// A name: a name variable or a quoted process `@P`.
#[derive(Debug, PartialEq, Eq)]
pub enum Name {
    NameVar(Var),
    Quote(Box<AnnProc>),
}

/// A list of name patterns with an optional remainder `...@rest`.
#[derive(Debug, PartialEq, Eq)]
pub struct Names {
    pub names: Vec<Name>,
    pub remainder: Option<Var>,
}

/// A declaration in `new x, y(`uri`) in ...`.
#[derive(Clone, Debug, PartialEq, Eq)]
pub struct NameDecl {
    pub id: Id,
    pub uri: Option<String>,
}

/// The right-hand side of a linear bind.
#[derive(Debug, PartialEq, Eq)]
pub enum Source {
    Simple { name: Name },
    ReceiveSend { name: Name },
    SendReceive { name: Name, inputs: Vec<AnnProc> },
}

/// One binding of a `for` comprehension.
#[derive(Debug, PartialEq, Eq)]
pub enum Bind {
    /// `lhs <- rhs`
    Linear { lhs: Names, rhs: Source, pos: SourcePos },
    /// `lhs <= rhs`
    Repeated { lhs: Names, rhs: Name, pos: SourcePos },
    /// `lhs <<- rhs`
    Peek { lhs: Names, rhs: Name, pos: SourcePos },
}

/// A case `pattern => proc` of a `match`.
#[derive(Debug, PartialEq, Eq)]
pub struct Case {
    pub pattern: AnnProc,
    pub proc: AnnProc,
}

/// One declaration `lhs = rhs` of a `let`.
#[derive(Debug, PartialEq, Eq)]
pub struct LetBinding {
    pub lhs: Names,
    pub rhs: Vec<AnnProc>,
}

/// A key-value pair of a map literal.
#[derive(Debug, PartialEq, Eq)]
pub struct KeyValue {
    pub key: AnnProc,
    pub value: AnnProc,
}

#[derive(Debug, PartialEq, Eq)]
pub enum Collection {
    List { elements: Vec<AnnProc>, remainder: Option<Var> },
    Tuple(Vec<AnnProc>),
    SetOf { elements: Vec<AnnProc>, remainder: Option<Var> },
    MapOf { elements: Vec<KeyValue>, remainder: Option<Var> },
}

#[derive(Clone, Copy, Debug, PartialEq, Eq, Structural)]
pub enum BinaryExpOp {
    Or,
    And,
    Matches,
    Eq,
    Neq,
    Lt,
    Lte,
    Gt,
    Gte,
    Concat,
    Diff,
    Add,
    Sub,
    Interpolation,
    Mult,
    Div,
    Mod,
    Disjunction,
    Conjunction,
}

#[derive(Clone, Copy, Debug, PartialEq, Eq, Structural)]
pub enum UnaryExpOp {
    Not,
    Neg,
    Negation,
}

#[derive(Clone, Copy, Debug, PartialEq, Eq, Structural)]
pub enum SimpleType {
    Bool,
    Int,
    String,
    Uri,
    ByteArray,
}

#[derive(Clone, Copy, Debug, PartialEq, Eq, Structural)]
pub enum SendType {
    Single,
    Multiple,
}

#[derive(Clone, Copy, Debug, PartialEq, Eq, Structural)]
pub enum BundleType {
    BundleEquiv,
    BundleWrite,
    BundleRead,
    BundleReadWrite,
}

#[derive(Clone, Copy, Debug, PartialEq, Eq, Structural)]
pub enum VarRefKind {
    Proc,
    Name,
}

/// The continuation of a synchronous send `ch!?(args); P`.
#[derive(Debug, PartialEq, Eq)]
pub enum SyncSendCont {
    Empty,
    NonEmpty(Box<AnnProc>),
}

/// A process together with its source span.
#[derive(Debug, PartialEq, Eq)]
pub struct AnnProc {
    pub proc: Proc,
    pub span: SourceSpan,
}

/// Rholang processes.
#[derive(Debug, PartialEq, Eq)]
pub enum Proc {
    Nil,
    Unit,
    BoolLiteral(bool),
    LongLiteral(i64),
    StringLiteral(String),
    UriLiteral(String),
    /// A sized signed integer literal; `value` is its text.
    SignedIntLiteral { value: String, bits: u32 },
    /// A sized unsigned integer literal; `value` is its text.
    UnsignedIntLiteral { value: String, bits: u32 },
    BigIntLiteral(String),
    BigRatLiteral(String),
    /// A floating-point literal kept as text, with its width in bits.
    FloatLiteral { value: String, bits: u32 },
    /// A fixed-point literal kept as text, with its scale.
    FixedPointLiteral { value: String, scale: u32 },
    SimpleType(SimpleType),
    Collection(Collection),
    ProcVar(Var),
    Par { left: Box<AnnProc>, right: Box<AnnProc> },
    IfThenElse { condition: Box<AnnProc>, if_true: Box<AnnProc>, if_false: Option<Box<AnnProc>> },
    Send { channel: Name, send_type: SendType, inputs: Vec<AnnProc> },
    SendSync { channel: Name, inputs: Vec<AnnProc>, cont: SyncSendCont },
    ForComprehension { receipts: Vec<Vec<Bind>>, proc: Box<AnnProc> },
    Match { expression: Box<AnnProc>, cases: Vec<Case> },
    Bundle { bundle_type: BundleType, proc: Box<AnnProc> },
    Let { bindings: Vec<LetBinding>, body: Box<AnnProc>, concurrent: bool },
    New { decls: Vec<NameDecl>, proc: Box<AnnProc> },
    Contract { name: Name, formals: Names, body: Box<AnnProc> },
    Eval { name: Name },
    Method { receiver: Box<AnnProc>, name: Id, args: Vec<AnnProc> },
    UnaryExp { op: UnaryExpOp, arg: Box<AnnProc> },
    BinaryExp { op: BinaryExpOp, left: Box<AnnProc>, right: Box<AnnProc> },
    VarRef { kind: VarRefKind, var: Id },
    Bad,
}

impl BinaryExpOp {
    pub open spec fn spec_is_connective(self) -> bool {
        self == BinaryExpOp::Disjunction || self == BinaryExpOp::Conjunction
    }

    /// Pattern connectives `/\` and `\/`.
    pub fn is_connective(&self) -> (r: bool)
        ensures
            r == self.spec_is_connective(),
    {
        match self {
            BinaryExpOp::Disjunction | BinaryExpOp::Conjunction => true,
            _ => false,
        }
    }
}

impl UnaryExpOp {
    pub open spec fn spec_is_connective(self) -> bool {
        self == UnaryExpOp::Negation
    }

    /// The pattern connective `~`.
    pub fn is_connective(&self) -> (r: bool)
        ensures
            r == self.spec_is_connective(),
    {
        match self {
            UnaryExpOp::Negation => true,
            _ => false,
        }
    }
}

impl Var {
    /// The position of a named variable; wildcards carry none.
    pub fn get_position(&self) -> (r: Option<SourcePos>)
        ensures
            r == (match self {
                Var::Wildcard => None,
                Var::Id(id) => Some(id.pos),
            }),
    {
        match self {
            Var::Wildcard => None,
            Var::Id(id) => Some(id.pos),
        }
    }
}

impl Names {
    pub open spec fn spec_is_empty(&self) -> bool {
        self.names@.len() == 0 && self.remainder.is_none()
    }

    /// No names and no remainder.
    pub fn is_empty(&self) -> (r: bool)
        ensures
            r == self.spec_is_empty(),
    {
        self.names.len() == 0 && self.remainder.is_none()
    }

    pub open spec fn spec_is_single_name(&self) -> bool {
        self.names@.len() == 1 && self.remainder.is_none()
    }

    /// Exactly one name and no remainder.
    pub fn is_single_name(&self) -> (r: bool)
        ensures
            r == self.spec_is_single_name(),
    {
        self.names.len() == 1 && self.remainder.is_none()
    }
}

impl Bind {
    pub open spec fn spec_source_name(&self) -> &Name {
        match self {
            Bind::Linear { rhs, .. } => match rhs {
                Source::Simple { name } => name,
                Source::ReceiveSend { name } => name,
                Source::SendReceive { name, .. } => name,
            },
            Bind::Repeated { rhs, .. } => rhs,
            Bind::Peek { rhs, .. } => rhs,
        }
    }

    /// The channel that a bind reads from.
    pub fn source_name(&self) -> (r: &Name)
        ensures
            r == self.spec_source_name(),
    {
        match self {
            Bind::Linear { rhs, .. } => match rhs {
                Source::Simple { name } => name,
                Source::ReceiveSend { name } => name,
                Source::SendReceive { name, .. } => name,
            },
            Bind::Repeated { rhs, .. } => rhs,
            Bind::Peek { rhs, .. } => rhs,
        }
    }

    pub open spec fn spec_position(&self) -> SourcePos {
        match self {
            Bind::Linear { pos, .. } => *pos,
            Bind::Repeated { pos, .. } => *pos,
            Bind::Peek { pos, .. } => *pos,
        }
    }

    /// Where the bind starts in the source.
    pub fn position(&self) -> (r: SourcePos)
        ensures
            r == self.spec_position(),
    {
        match self {
            Bind::Linear { pos, .. } => *pos,
            Bind::Repeated { pos, .. } => *pos,
            Bind::Peek { pos, .. } => *pos,
        }
    }

    pub open spec fn spec_names(&self) -> &Names {
        match self {
            Bind::Linear { lhs, .. } => lhs,
            Bind::Repeated { lhs, .. } => lhs,
            Bind::Peek { lhs, .. } => lhs,
        }
    }

    /// The pattern on the left of the arrow.
    pub fn names(&self) -> (r: &Names)
        ensures
            r == self.spec_names(),
    {
        match self {
            Bind::Linear { lhs, .. } => lhs,
            Bind::Repeated { lhs, .. } => lhs,
            Bind::Peek { lhs, .. } => lhs,
        }
    }
}

impl Collection {
    /// The remainder variable of a list, set or map pattern.
    pub fn remainder(&self) -> (r: Option<&Var>)
        ensures
            r == (match self {
                Collection::List { remainder, .. } => match remainder {
                    Some(v) => Some(v),
                    None => None,
                },
                Collection::SetOf { remainder, .. } => match remainder {
                    Some(v) => Some(v),
                    None => None,
                },
                Collection::MapOf { remainder, .. } => match remainder {
                    Some(v) => Some(v),
                    None => None,
                },
                Collection::Tuple(_) => None::<&Var>,
            }),
    {
        match self {
            Collection::List { remainder, .. } => remainder.as_ref(),
            Collection::SetOf { remainder, .. } => remainder.as_ref(),
            Collection::MapOf { remainder, .. } => remainder.as_ref(),
            Collection::Tuple(_) => None,
        }
    }
}

impl Proc {
    /// A literal without variables: nil, unit or a boolean, number, string or
    /// URI literal.
    pub open spec fn spec_is_ground(&self) -> bool {
        match self {
            Proc::Nil | Proc::Unit | Proc::BoolLiteral(_) | Proc::LongLiteral(_)
            | Proc::StringLiteral(_) | Proc::UriLiteral(_) | Proc::SignedIntLiteral { .. }
            | Proc::UnsignedIntLiteral { .. } | Proc::BigIntLiteral(_) | Proc::BigRatLiteral(_)
            | Proc::FloatLiteral { .. } | Proc::FixedPointLiteral { .. } => true,
            _ => false,
        }
    }

    pub fn is_ground(&self) -> (r: bool)
        ensures
            r == self.spec_is_ground(),
    {
        match self {
            Proc::Nil | Proc::Unit | Proc::BoolLiteral(_) | Proc::LongLiteral(_)
            | Proc::StringLiteral(_) | Proc::UriLiteral(_) | Proc::SignedIntLiteral { .. }
            | Proc::UnsignedIntLiteral { .. } | Proc::BigIntLiteral(_) | Proc::BigRatLiteral(_)
            | Proc::FloatLiteral { .. } | Proc::FixedPointLiteral { .. } => true,
            _ => false,
        }
    }
}

} // verus!
