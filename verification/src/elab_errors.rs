//! Errors of the `for`-comprehension elaborator and their diagnostics.
use crate::ast::SourcePos;
use crate::text::{decimal, u32_to_string};
use crate::types::{
    ArrowKind, BinderId, Diagnostic, DiagnosticKind, ErrorKind, Symbol, SymbolOccurrence, PID,
};
use vstd::prelude::*;
use vstd::string::StringExecFns;

verus! {

#[derive(Debug)]
pub enum ElaborationError {
    /// An AST node is incomplete or invalid.
    IncompleteAstNode { pid: PID, position: Option<SourcePos>, reason: String },
    /// A PID that is not in the semantic database.
    InvalidPid { pid: PID },
    /// A variable reference without a binder.
    UnboundVariable { pid: PID, var: Symbol, pos: SourcePos },
    /// A connective outside a pattern.
    ConnectiveOutsidePattern { pid: PID, pos: SourcePos },
    /// A pattern that no value can match.
    UnsatisfiablePattern { pid: PID, pattern: String, pos: SourcePos },
    /// A potential deadlock.
    DeadlockPotential { pid: PID, receipts: String, pos: SourcePos },
    /// A malformed pattern of a `for` comprehension.
    InvalidPattern { pid: PID, position: Option<SourcePos>, reason: String },
    /// A variable bound twice in one pattern.
    DuplicateVarDef { pid: PID, original: SymbolOccurrence, duplicate: SymbolOccurrence },
    /// A process-valued binder used where a name is expected.
    ProcInNamePosition { pid: PID, binder: BinderId, symbol: Symbol, pos: Option<SourcePos> },
    /// A name-valued binder used where a process is expected.
    NameInProcPosition { pid: PID, binder: BinderId, symbol: Symbol, pos: Option<SourcePos> },
}

pub type ElaborationResult<T> = Result<T, ElaborationError>;

#[derive(Debug)]
pub enum ValidationError {
    /// A pattern with an invalid structure.
    InvalidPatternStructure { pid: PID, position: Option<SourcePos>, reason: String },
    /// A variable reference without a binder.
    UnboundVariable { var: Symbol, pos: SourcePos },
    /// A connective outside a pattern.
    ConnectiveOutsidePattern { pos: SourcePos },
    /// A pattern that no value can match.
    UnsatisfiablePattern { pattern: String, pos: Option<SourcePos> },
    /// A potential deadlock.
    DeadlockPotential { receipts: String, pos: Option<SourcePos> },
    /// Bindings of one join group that use different arrows.
    MixedArrowTypes { receipt_index: usize, found_types: Vec<ArrowKind>, pos: Option<SourcePos> },
}

pub type ValidationResult = Result<(), ValidationError>;

/// A validation error with its texts as character sequences.
pub enum ValidationErrorSpec {
    InvalidPatternStructure { pid: PID, position: Option<SourcePos>, reason: Seq<char> },
    UnboundVariable { var: Symbol, pos: SourcePos },
    ConnectiveOutsidePattern { pos: SourcePos },
    UnsatisfiablePattern { pattern: Seq<char>, pos: Option<SourcePos> },
    DeadlockPotential { receipts: Seq<char>, pos: Option<SourcePos> },
    MixedArrowTypes { receipt_index: usize, found_types: Seq<ArrowKind>, pos: Option<SourcePos> },
}

impl View for ValidationError {
    type V = ValidationErrorSpec;

    open spec fn view(&self) -> ValidationErrorSpec {
        match self {
            ValidationError::InvalidPatternStructure { pid, position, reason } =>
                ValidationErrorSpec::InvalidPatternStructure {
                pid: *pid,
                position: *position,
                reason: reason@,
            },
            ValidationError::UnboundVariable { var, pos } => ValidationErrorSpec::UnboundVariable {
                var: *var,
                pos: *pos,
            },
            ValidationError::ConnectiveOutsidePattern { pos } =>
                ValidationErrorSpec::ConnectiveOutsidePattern { pos: *pos },
            ValidationError::UnsatisfiablePattern { pattern, pos } =>
                ValidationErrorSpec::UnsatisfiablePattern { pattern: pattern@, pos: *pos },
            ValidationError::DeadlockPotential { receipts, pos } =>
                ValidationErrorSpec::DeadlockPotential { receipts: receipts@, pos: *pos },
            ValidationError::MixedArrowTypes { receipt_index, found_types, pos } =>
                ValidationErrorSpec::MixedArrowTypes {
                receipt_index: *receipt_index,
                found_types: found_types@,
                pos: *pos,
            },
        }
    }
}

/// A validation result with its error seen through its view.
pub open spec fn vresult(r: ValidationResult) -> Result<(), ValidationErrorSpec> {
    match r {
        Ok(()) => Ok(()),
        Err(e) => Err(e@),
    }
}

/// The diagnostic that stands for an elaboration error.
pub open spec fn elaboration_diagnostic(e: ElaborationError) -> Diagnostic {
    match e {
        ElaborationError::IncompleteAstNode { pid, position, .. } => Diagnostic {
            pid,
            kind: DiagnosticKind::Error(ErrorKind::BadCode),
            exact_position: position,
        },
        ElaborationError::InvalidPid { pid } => Diagnostic {
            pid,
            kind: DiagnosticKind::Error(ErrorKind::BadCode),
            exact_position: None,
        },
        ElaborationError::UnboundVariable { pid, pos, .. } => Diagnostic {
            pid,
            kind: DiagnosticKind::Error(ErrorKind::UnboundVariable),
            exact_position: Some(pos),
        },
        ElaborationError::ConnectiveOutsidePattern { pid, pos } => Diagnostic {
            pid,
            kind: DiagnosticKind::Error(ErrorKind::ConnectiveOutsidePattern),
            exact_position: Some(pos),
        },
        ElaborationError::UnsatisfiablePattern { pid, pos, .. } => Diagnostic {
            pid,
            kind: DiagnosticKind::Error(ErrorKind::BadCode),
            exact_position: Some(pos),
        },
        ElaborationError::DeadlockPotential { pid, pos, .. } => Diagnostic {
            pid,
            kind: DiagnosticKind::Error(ErrorKind::BadCode),
            exact_position: Some(pos),
        },
        ElaborationError::InvalidPattern { pid, position, .. } => Diagnostic {
            pid,
            kind: DiagnosticKind::Error(ErrorKind::BadCode),
            exact_position: position,
        },
        ElaborationError::DuplicateVarDef { pid, original, duplicate } => Diagnostic {
            pid,
            kind: DiagnosticKind::Error(ErrorKind::DuplicateVarDef { original }),
            exact_position: Some(duplicate.position),
        },
        ElaborationError::ProcInNamePosition { pid, binder, symbol, pos } => Diagnostic {
            pid,
            kind: DiagnosticKind::Error(ErrorKind::ProcInNamePosition(binder, symbol)),
            exact_position: pos,
        },
        ElaborationError::NameInProcPosition { pid, binder, symbol, pos } => Diagnostic {
            pid,
            kind: DiagnosticKind::Error(ErrorKind::NameInProcPosition(binder, symbol)),
            exact_position: pos,
        },
    }
}

/// The text of an elaboration error.
pub open spec fn elaboration_message(e: ElaborationError) -> Seq<char> {
    match e {
        ElaborationError::IncompleteAstNode { reason, .. } => "Incomplete AST node: "@ + reason@,
        ElaborationError::InvalidPid { pid } => "Invalid PID: "@ + decimal(pid.0 as nat),
        ElaborationError::UnboundVariable { .. } => "Unbound variable"@,
        ElaborationError::ConnectiveOutsidePattern { .. } => "Connective used outside pattern"@,
        ElaborationError::UnsatisfiablePattern { pattern, .. } => "Unsatisfiable pattern: "@
            + pattern@,
        ElaborationError::DeadlockPotential { receipts, .. } => "Deadlock potential: "@
            + receipts@,
        ElaborationError::InvalidPattern { reason, .. } => "Invalid pattern: "@ + reason@,
        ElaborationError::DuplicateVarDef { .. } => "Duplicate variable definition"@,
        ElaborationError::ProcInNamePosition { .. } => "Process variable in name position"@,
        ElaborationError::NameInProcPosition { .. } => "Name variable in process position"@,
    }
}

/// The text of a validation error.
pub open spec fn validation_message(e: ValidationError) -> Seq<char> {
    match e {
        ValidationError::InvalidPatternStructure { reason, .. } => "Invalid pattern structure: "@
            + reason@,
        ValidationError::UnboundVariable { var, .. } => "Unbound variable: Symbol("@ + decimal(var.0 as nat) + ")"@,
        ValidationError::ConnectiveOutsidePattern { .. } => "Connective used outside pattern"@,
        ValidationError::UnsatisfiablePattern { pattern, .. } => "Unsatisfiable pattern: "@
            + pattern@,
        ValidationError::DeadlockPotential { receipts, .. } => "Deadlock potential: "@
            + receipts@,
        ValidationError::MixedArrowTypes { .. } => "Mixed arrow types in a join"@,
    }
}

/// The error carries a text of its own.
pub open spec fn has_text(e: ElaborationError) -> bool {
    e is IncompleteAstNode || e is UnsatisfiablePattern || e is DeadlockPotential || e is InvalidPattern
}

impl ElaborationError {
    /// The diagnostic for this error.
    pub fn to_diagnostic(&self) -> (r: Diagnostic)
        ensures
            r == elaboration_diagnostic(*self),
    {
        match self {
            ElaborationError::IncompleteAstNode { pid, position, .. } => Diagnostic::error(
                *pid,
                ErrorKind::BadCode,
                *position,
            ),
            ElaborationError::InvalidPid { pid } => Diagnostic::error(*pid, ErrorKind::BadCode, None),
            ElaborationError::UnboundVariable { pid, pos, .. } => Diagnostic::error(
                *pid,
                ErrorKind::UnboundVariable,
                Some(*pos),
            ),
            ElaborationError::ConnectiveOutsidePattern { pid, pos } => Diagnostic::error(
                *pid,
                ErrorKind::ConnectiveOutsidePattern,
                Some(*pos),
            ),
            ElaborationError::UnsatisfiablePattern { pid, pos, .. } => Diagnostic::error(
                *pid,
                ErrorKind::BadCode,
                Some(*pos),
            ),
            ElaborationError::DeadlockPotential { pid, pos, .. } => Diagnostic::error(
                *pid,
                ErrorKind::BadCode,
                Some(*pos),
            ),
            ElaborationError::InvalidPattern { pid, position, .. } => Diagnostic::error(
                *pid,
                ErrorKind::BadCode,
                *position,
            ),
            ElaborationError::DuplicateVarDef { pid, original, duplicate } => Diagnostic::error(
                *pid,
                ErrorKind::DuplicateVarDef { original: *original },
                Some(duplicate.position),
            ),
            ElaborationError::ProcInNamePosition { pid, binder, symbol, pos } => Diagnostic::error(
                *pid,
                ErrorKind::ProcInNamePosition(*binder, *symbol),
                *pos,
            ),
            ElaborationError::NameInProcPosition { pid, binder, symbol, pos } => Diagnostic::error(
                *pid,
                ErrorKind::NameInProcPosition(*binder, *symbol),
                *pos,
            ),
        }
    }

    /// A copy of this error: equal to it, or with the same texts where it has one.
    pub fn duplicate(&self) -> (r: Self)
        ensures
            !has_text(*self) ==> r == *self,
            elaboration_diagnostic(r) == elaboration_diagnostic(*self),
            elaboration_message(r) == elaboration_message(*self),
    {
        match self {
            ElaborationError::IncompleteAstNode { pid, position, reason } =>
                ElaborationError::IncompleteAstNode {
                pid: *pid,
                position: *position,
                reason: reason.clone(),
            },
            ElaborationError::InvalidPid { pid } => ElaborationError::InvalidPid { pid: *pid },
            ElaborationError::UnboundVariable { pid, var, pos } =>
                ElaborationError::UnboundVariable { pid: *pid, var: *var, pos: *pos },
            ElaborationError::ConnectiveOutsidePattern { pid, pos } =>
                ElaborationError::ConnectiveOutsidePattern { pid: *pid, pos: *pos },
            ElaborationError::UnsatisfiablePattern { pid, pattern, pos } =>
                ElaborationError::UnsatisfiablePattern { pid: *pid, pattern: pattern.clone(), pos: *pos },
            ElaborationError::DeadlockPotential { pid, receipts, pos } =>
                ElaborationError::DeadlockPotential { pid: *pid, receipts: receipts.clone(), pos: *pos },
            ElaborationError::InvalidPattern { pid, position, reason } =>
                ElaborationError::InvalidPattern {
                pid: *pid,
                position: *position,
                reason: reason.clone(),
            },
            ElaborationError::DuplicateVarDef { pid, original, duplicate } =>
                ElaborationError::DuplicateVarDef {
                pid: *pid,
                original: *original,
                duplicate: *duplicate,
            },
            ElaborationError::ProcInNamePosition { pid, binder, symbol, pos } =>
                ElaborationError::ProcInNamePosition {
                pid: *pid,
                binder: *binder,
                symbol: *symbol,
                pos: *pos,
            },
            ElaborationError::NameInProcPosition { pid, binder, symbol, pos } =>
                ElaborationError::NameInProcPosition {
                pid: *pid,
                binder: *binder,
                symbol: *symbol,
                pos: *pos,
            },
        }
    }

    /// The human-readable text of this error.
    pub fn message(&self) -> (r: String)
        ensures
            r@ == elaboration_message(*self),
    {
        match self {
            ElaborationError::IncompleteAstNode { reason, .. } => {
                let mut r = String::from_str("Incomplete AST node: ");
                r.append(reason.as_str());
                r
            },
            ElaborationError::InvalidPid { pid } => {
                let mut r = String::from_str("Invalid PID: ");
                let n = u32_to_string(pid.0);
                r.append(n.as_str());
                r
            },
            ElaborationError::UnboundVariable { .. } => String::from_str("Unbound variable"),
            ElaborationError::ConnectiveOutsidePattern { .. } => String::from_str(
                "Connective used outside pattern",
            ),
            ElaborationError::UnsatisfiablePattern { pattern, .. } => {
                let mut r = String::from_str("Unsatisfiable pattern: ");
                r.append(pattern.as_str());
                r
            },
            ElaborationError::DeadlockPotential { receipts, .. } => {
                let mut r = String::from_str("Deadlock potential: ");
                r.append(receipts.as_str());
                r
            },
            ElaborationError::InvalidPattern { reason, .. } => {
                let mut r = String::from_str("Invalid pattern: ");
                r.append(reason.as_str());
                r
            },
            ElaborationError::DuplicateVarDef { .. } => String::from_str(
                "Duplicate variable definition",
            ),
            ElaborationError::ProcInNamePosition { .. } => String::from_str(
                "Process variable in name position",
            ),
            ElaborationError::NameInProcPosition { .. } => String::from_str(
                "Name variable in process position",
            ),
        }
    }
}

impl ValidationError {
    /// The human-readable text of this error.
    pub fn message(&self) -> (r: String)
        ensures
            r@ == validation_message(*self),
    {
        match self {
            ValidationError::InvalidPatternStructure { reason, .. } => {
                let mut r = String::from_str("Invalid pattern structure: ");
                r.append(reason.as_str());
                r
            },
            ValidationError::UnboundVariable { var, .. } => {
                let mut r = String::from_str("Unbound variable: Symbol(");
                let n = u32_to_string(var.0);
                r.append(n.as_str());
                r.append(")");
                r
            },
            ValidationError::ConnectiveOutsidePattern { .. } => String::from_str(
                "Connective used outside pattern",
            ),
            ValidationError::UnsatisfiablePattern { pattern, .. } => {
                let mut r = String::from_str("Unsatisfiable pattern: ");
                r.append(pattern.as_str());
                r
            },
            ValidationError::DeadlockPotential { receipts, .. } => {
                let mut r = String::from_str("Deadlock potential: ");
                r.append(receipts.as_str());
                r
            },
            ValidationError::MixedArrowTypes { .. } => String::from_str(
                "Mixed arrow types in a join",
            ),
        }
    }
}

/// An elaboration error reported as a diagnostic.
impl From<ElaborationError> for Diagnostic {
    fn from(e: ElaborationError) -> (r: Diagnostic) {
        e.to_diagnostic()
    }
}

impl vstd::std_specs::convert::FromSpecImpl<ElaborationError> for Diagnostic {
    open spec fn obeys_from_spec() -> bool {
        true
    }

    open spec fn from_spec(e: ElaborationError) -> Diagnostic {
        elaboration_diagnostic(e)
    }
}

} // verus!
