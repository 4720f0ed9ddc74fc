//! Identifiers and facts that the semantic database records.
use crate::ast::{pos_lt, BinaryExpOp, SourcePos, SourceSpan};
use vstd::prelude::*;

verus! {

/// Index of a process in the semantic database (preorder position).
#[derive(Clone, Copy, Debug, PartialEq, Eq, Structural)]
pub struct PID(pub u32);

impl PID {
    /// The sentinel that stands for the top level, outside every process.
    pub open spec fn spec_top_level() -> PID {
        PID(u32::MAX)
    }

    pub fn top_level() -> (r: PID)
        ensures
            r == PID::spec_top_level(),
    {
        PID(u32::MAX)
    }
}

/// An interned string.
#[derive(Clone, Copy, Debug, PartialEq, Eq, Structural)]
pub struct Symbol(pub u32);

impl Symbol {
    /// The smallest symbol; used as the lower bound of range queries.
    pub fn min() -> (r: Symbol)
        ensures
            r.0 == 0,
    {
        Symbol(0)
    }
}

/// An occurrence of a symbol in the source text.
#[derive(Clone, Copy, Debug, PartialEq, Eq, Structural)]
pub struct SymbolOccurrence {
    pub position: SourcePos,
    pub symbol: Symbol,
}

/// Occurrences are ordered by position, then by symbol.
pub open spec fn occ_lt(a: SymbolOccurrence, b: SymbolOccurrence) -> bool {
    pos_lt(a.position, b.position) || (a.position == b.position && a.symbol.0 < b.symbol.0)
}

impl SymbolOccurrence {
    /// Reading-order comparison of occurrences.
    pub fn less(&self, other: &SymbolOccurrence) -> (r: bool)
        ensures
            r == occ_lt(*self, *other),
    {
        self.position.before(&other.position) || (self.position == other.position
            && self.symbol.0 < other.symbol.0)
    }

    /// The occurrence at which a binder is declared.
    pub fn from_binder(b: &Binder) -> (r: SymbolOccurrence)
        ensures
            r.symbol == b.name,
            r.position == b.source_position,
    {
        SymbolOccurrence { symbol: b.name, position: b.source_position }
    }
}

/// Identifier of a binder (a variable or a name).
#[derive(Clone, Copy, Debug, PartialEq, Eq, Structural)]
pub struct BinderId(pub u32);

impl BinderId {
    pub fn max_id() -> (r: BinderId)
        ensures
            r.0 == u32::MAX,
    {
        BinderId(u32::MAX)
    }

    /// `self - rhs`, or `None` when `rhs` is larger.
    pub fn checked_sub(self, rhs: Self) -> (r: Option<Self>)
        ensures
            r == (if self.0 >= rhs.0 {
                Some(BinderId((self.0 - rhs.0) as u32))
            } else {
                None
            }),
    {
        if self.0 >= rhs.0 {
            Some(BinderId(self.0 - rhs.0))
        } else {
            None
        }
    }

    /// `self + rhs`; the sum must fit.
    pub fn add(self, rhs: u32) -> (r: Self)
        requires
            self.0 + rhs <= u32::MAX,
        ensures
            r.0 == self.0 + rhs,
    {
        BinderId(self.0 + rhs)
    }
}

/// Distinguishes between name-valued and proc-valued binders.
#[derive(Clone, Copy, Debug, PartialEq, Eq, Structural)]
pub enum BinderKind {
    /// A name binder, with the interned URI of `new x(`uri`)` when there is one.
    Name(Option<Symbol>),
    Proc,
}

/// What the database knows of one binder.
#[derive(Clone, Copy, Debug, PartialEq, Eq, Structural)]
pub struct Binder {
    pub name: Symbol,
    pub kind: BinderKind,
    pub scope: PID,
    pub index: usize,
    pub source_position: SourcePos,
}

/// How a variable occurrence is bound.
#[derive(Clone, Copy, Debug, PartialEq, Eq, Structural)]
pub enum VarBinding {
    /// Resolved to a binder.
    Bound(BinderId),
    /// Introduced by a pattern; `index` is its position among the pattern's binders.
    Free { index: usize },
}

impl VarBinding {
    pub fn is_free(self) -> (r: bool)
        ensures
            r == (self is Free),
    {
        match self {
            VarBinding::Bound(_) => false,
            VarBinding::Free { .. } => true,
        }
    }
}

/// A variable occurrence with its binding.
#[derive(Clone, Copy, Debug, PartialEq, Eq, Structural)]
pub struct BoundOccurence {
    pub occurence: SymbolOccurrence,
    pub binding: VarBinding,
}

/// Numeric types of literals, as far as arithmetic checks need them.
#[derive(Clone, Copy, Debug, PartialEq, Eq, Structural)]
pub enum NumericType {
    Int64,
    SignedInt { bits: u32 },
    UnsignedInt { bits: u32 },
    BigInt,
    BigRat,
    Float { bits: u32 },
    FixedPoint { scale: u32 },
}

/// The arrow of a `for` binding.
#[derive(Clone, Copy, Debug, PartialEq, Eq, Structural)]
pub enum ArrowKind {
    Linear,
    Repeated,
    Peek,
}

impl ArrowKind {
    pub open spec fn spec_label(self) -> &'static str {
        match self {
            ArrowKind::Linear => "linear (<-)",
            ArrowKind::Repeated => "repeated (<=)",
            ArrowKind::Peek => "peek (<<-)",
        }
    }

    /// The text that diagnostics print for this arrow.
    pub fn label(self) -> (r: &'static str)
        ensures
            r == self.spec_label(),
    {
        match self {
            ArrowKind::Linear => "linear (<-)",
            ArrowKind::Repeated => "repeated (<=)",
            ArrowKind::Peek => "peek (<<-)",
        }
    }
}

#[derive(Clone, Copy, Debug, PartialEq, Eq, Structural)]
pub enum InfoKind {
    /// Informational notes carry no payload yet.
    Note,
}

#[derive(Clone, Copy, Debug, PartialEq, Eq, Structural)]
pub enum WarningKind {
    ShadowedVar { original: SymbolOccurrence },
    UnusedVariable(BinderId, Symbol),
    TopLevelPatternExpr { span: SourceSpan },
}

#[derive(Clone, Copy, Debug, PartialEq, Eq, Structural)]
pub enum ErrorKind {
    UnboundVariable,
    DuplicateVarDef { original: SymbolOccurrence },
    NameInProcPosition(BinderId, Symbol),
    ProcInNamePosition(BinderId, Symbol),
    ConnectiveOutsidePattern,
    BundleInsidePattern,
    UnmatchedVarInDisjunction(Symbol),
    MixedArrowTypes { receipt_index: usize, expected: ArrowKind, found: ArrowKind },
    MixedNumericTypes { op: BinaryExpOp, left: NumericType, right: NumericType },
    UnsupportedNumericOperator { op: BinaryExpOp, arg: NumericType },
    BadCode,
}

impl ErrorKind {
    pub open spec fn kind_mismatch_spec(binder: BinderId, sym: Symbol, expects_name: bool) -> Self {
        if expects_name {
            ErrorKind::ProcInNamePosition(binder, sym)
        } else {
            ErrorKind::NameInProcPosition(binder, sym)
        }
    }

    /// The error for a binder of the wrong kind at a use site.
    pub fn kind_mismatch(binder: BinderId, sym: Symbol, expects_name: bool) -> (r: Self)
        ensures
            r == Self::kind_mismatch_spec(binder, sym, expects_name),
    {
        if expects_name {
            ErrorKind::ProcInNamePosition(binder, sym)
        } else {
            ErrorKind::NameInProcPosition(binder, sym)
        }
    }
}

#[derive(Clone, Copy, Debug, PartialEq, Eq, Structural)]
pub enum DiagnosticKind {
    Info(InfoKind),
    Warning(WarningKind),
    Error(ErrorKind),
}

/// A finding of an analysis, attached to a process.
#[derive(Clone, Copy, Debug, PartialEq, Eq, Structural)]
pub struct Diagnostic {
    pub pid: PID,
    pub kind: DiagnosticKind,
    pub exact_position: Option<SourcePos>,
}

impl Diagnostic {
    pub fn error(pid: PID, kind: ErrorKind, pos: Option<SourcePos>) -> (r: Self)
        ensures
            r == (Diagnostic { pid, kind: DiagnosticKind::Error(kind), exact_position: pos }),
    {
        Diagnostic { pid, kind: DiagnosticKind::Error(kind), exact_position: pos }
    }

    pub fn warning(pid: PID, kind: WarningKind, pos: Option<SourcePos>) -> (r: Self)
        ensures
            r == (Diagnostic { pid, kind: DiagnosticKind::Warning(kind), exact_position: pos }),
    {
        Diagnostic { pid, kind: DiagnosticKind::Warning(kind), exact_position: pos }
    }

    pub open spec fn spec_is_error(self) -> bool {
        self.kind is Error
    }

    pub fn is_error(&self) -> (r: bool)
        ensures
            r == self.spec_is_error(),
    {
        match self.kind {
            DiagnosticKind::Error(_) => true,
            _ => false,
        }
    }

    pub fn is_warning(&self) -> (r: bool)
        ensures
            r == (self.kind is Warning),
    {
        match self.kind {
            DiagnosticKind::Warning(_) => true,
            _ => false,
        }
    }
}

/// The occurrence at which a binder is declared.
impl From<Binder> for SymbolOccurrence {
    fn from(b: Binder) -> (r: SymbolOccurrence) {
        SymbolOccurrence::from_binder(&b)
    }
}

impl vstd::std_specs::convert::FromSpecImpl<Binder> for SymbolOccurrence {
    open spec fn obeys_from_spec() -> bool {
        true
    }

    open spec fn from_spec(b: Binder) -> SymbolOccurrence {
        SymbolOccurrence { symbol: b.name, position: b.source_position }
    }
}

} // verus!
