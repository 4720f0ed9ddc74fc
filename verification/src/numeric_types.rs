//! Consistency of numeric types in arithmetic expressions.
use crate::ast::{AnnProc, BinaryExpOp, Proc, UnaryExpOp};
use crate::types::{Diagnostic, DiagnosticKind, ErrorKind, NumericType, PID};
use vstd::prelude::*;

verus! {

pub open spec fn spec_is_arithmetic_operator(op: BinaryExpOp) -> bool {
    op == BinaryExpOp::Add || op == BinaryExpOp::Sub || op == BinaryExpOp::Mult || op
        == BinaryExpOp::Div || op == BinaryExpOp::Mod
}

/// `+ - * / %`
pub fn is_arithmetic_operator(op: BinaryExpOp) -> (r: bool)
    ensures
        r == spec_is_arithmetic_operator(op),
{
    match op {
        BinaryExpOp::Add | BinaryExpOp::Sub | BinaryExpOp::Mult | BinaryExpOp::Div
        | BinaryExpOp::Mod => true,
        _ => false,
    }
}

pub open spec fn spec_is_float_type(t: NumericType) -> bool {
    t is Float
}

/// Floating-point types.
pub fn is_float_type(numeric_type: NumericType) -> (r: bool)
    ensures
        r == spec_is_float_type(numeric_type),
{
    match numeric_type {
        NumericType::Float { .. } => true,
        _ => false,
    }
}

/// The numeric type of an expression built from literals, negation and
/// arithmetic, when both operands of every operator agree.
pub open spec fn spec_infer_numeric_type(p: AnnProc) -> Option<NumericType>
    decreases p,
{
    match p.proc {
        Proc::UnaryExp { op: UnaryExpOp::Neg, arg } => spec_infer_numeric_type(*arg),
        Proc::BinaryExp { op, left, right } => if spec_is_arithmetic_operator(op) {
            let l = spec_infer_numeric_type(*left);
            let r = spec_infer_numeric_type(*right);
            if l is Some && r is Some && l == r {
                l
            } else {
                None
            }
        } else {
            None
        },
        Proc::LongLiteral(_) => Some(NumericType::Int64),
        Proc::SignedIntLiteral { bits, .. } => Some(NumericType::SignedInt { bits }),
        Proc::UnsignedIntLiteral { bits, .. } => Some(NumericType::UnsignedInt { bits }),
        Proc::BigIntLiteral(_) => Some(NumericType::BigInt),
        Proc::BigRatLiteral(_) => Some(NumericType::BigRat),
        Proc::FloatLiteral { bits, .. } => Some(NumericType::Float { bits }),
        Proc::FixedPointLiteral { scale, .. } => Some(NumericType::FixedPoint { scale }),
        _ => None,
    }
}

/// Infers the numeric type of an arithmetic expression, if it has one.
pub fn infer_numeric_type(proc: &AnnProc) -> (r: Option<NumericType>)
    ensures
        r == spec_infer_numeric_type(*proc),
    decreases proc,
{
    match &proc.proc {
        Proc::UnaryExp { op: UnaryExpOp::Neg, arg } => infer_numeric_type(arg),
        Proc::BinaryExp { op, left, right } => {
            if is_arithmetic_operator(*op) {
                let l = infer_numeric_type(left);
                let r = infer_numeric_type(right);
                match (l, r) {
                    (Some(lt), Some(rt)) => if lt == rt {
                        Some(lt)
                    } else {
                        None
                    },
                    _ => None,
                }
            } else {
                None
            }
        },
        Proc::LongLiteral(_) => Some(NumericType::Int64),
        Proc::SignedIntLiteral { bits, .. } => Some(NumericType::SignedInt { bits: *bits }),
        Proc::UnsignedIntLiteral { bits, .. } => Some(NumericType::UnsignedInt { bits: *bits }),
        Proc::BigIntLiteral(_) => Some(NumericType::BigInt),
        Proc::BigRatLiteral(_) => Some(NumericType::BigRat),
        Proc::FloatLiteral { bits, .. } => Some(NumericType::Float { bits: *bits }),
        Proc::FixedPointLiteral { scale, .. } => Some(NumericType::FixedPoint { scale: *scale }),
        _ => None,
    }
}

/// The finding for one process: operands of an arithmetic operator whose
/// types differ, or `%` on floating-point operands.
pub open spec fn spec_numeric_finding(pid: PID, p: AnnProc) -> Option<Diagnostic> {
    match p.proc {
        Proc::BinaryExp { op, left, right } => {
            let lt = spec_infer_numeric_type(*left);
            let rt = spec_infer_numeric_type(*right);
            if !spec_is_arithmetic_operator(op) || lt is None || rt is None {
                None
            } else if lt != rt {
                Some(
                    Diagnostic {
                        pid,
                        kind: DiagnosticKind::Error(
                            ErrorKind::MixedNumericTypes { op, left: lt->0, right: rt->0 },
                        ),
                        exact_position: Some(p.span.start),
                    },
                )
            } else if op == BinaryExpOp::Mod && spec_is_float_type(lt->0) {
                Some(
                    Diagnostic {
                        pid,
                        kind: DiagnosticKind::Error(
                            ErrorKind::UnsupportedNumericOperator { op, arg: lt->0 },
                        ),
                        exact_position: Some(p.span.start),
                    },
                )
            } else {
                None
            }
        },
        _ => None,
    }
}

/// Checks one process for numeric type errors.
pub fn check_numeric_proc(pid: PID, proc: &AnnProc) -> (r: Option<Diagnostic>)
    ensures
        r == spec_numeric_finding(pid, *proc),
{
    match &proc.proc {
        Proc::BinaryExp { op, left, right } => {
            if !is_arithmetic_operator(*op) {
                return None;
            }
            let lt = infer_numeric_type(left);
            let rt = infer_numeric_type(right);
            match (lt, rt) {
                (Some(l), Some(r)) => {
                    if l != r {
                        Some(
                            Diagnostic::error(
                                pid,
                                ErrorKind::MixedNumericTypes { op: *op, left: l, right: r },
                                Some(proc.span.start),
                            ),
                        )
                    } else if *op == BinaryExpOp::Mod && is_float_type(l) {
                        Some(
                            Diagnostic::error(
                                pid,
                                ErrorKind::UnsupportedNumericOperator { op: *op, arg: l },
                                Some(proc.span.start),
                            ),
                        )
                    } else {
                        None
                    }
                },
                _ => None,
            }
        },
        _ => None,
    }
}

} // verus!
