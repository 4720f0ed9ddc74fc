//! Arrow homogeneity of `for` comprehensions: the binds of one join group
//! (separated by `&`) must all use the same arrow.
use crate::ast::Bind;
use crate::db::SemanticDb;
use crate::types::{ArrowKind, Diagnostic, DiagnosticKind, ErrorKind, PID};
use vstd::prelude::*;

verus! {

/// The arrow of a bind.
pub open spec fn arrow_of(b: Bind) -> ArrowKind {
    match b {
        Bind::Linear { .. } => ArrowKind::Linear,
        Bind::Repeated { .. } => ArrowKind::Repeated,
        Bind::Peek { .. } => ArrowKind::Peek,
    }
}

/// The arrow of the first bind of `binds[k..]` whose arrow is not `expected`.
pub open spec fn first_other_arrow(binds: Seq<Bind>, k: int, expected: ArrowKind) -> Option<ArrowKind>
    decreases binds.len() - k,
{
    if k >= binds.len() || k < 0 {
        None
    } else if arrow_of(binds[k]) != expected {
        Some(arrow_of(binds[k]))
    } else {
        first_other_arrow(binds, k + 1, expected)
    }
}

/// The error for the join group `receipt`, the `idx`-th of the `for` with
/// PID `pid`, if its binds do not all use the arrow of its first bind.
pub open spec fn receipt_diagnostic(pid: PID, idx: usize, receipt: Seq<Bind>) -> Option<Diagnostic> {
    if receipt.len() <= 1 {
        None
    } else {
        let expected = arrow_of(receipt[0]);
        match first_other_arrow(receipt, 1, expected) {
            Some(found) => Some(
                Diagnostic {
                    pid,
                    kind: DiagnosticKind::Error(
                        ErrorKind::MixedArrowTypes { receipt_index: idx, expected, found },
                    ),
                    exact_position: Some(receipt[0].spec_position()),
                },
            ),
            None => None,
        }
    }
}

/// The errors for the join groups `receipts` of the `for` with PID `pid`, in order.
pub open spec fn arrow_diagnostics(pid: PID, receipts: Seq<Vec<Bind>>) -> Seq<Diagnostic>
    decreases receipts.len(),
{
    if receipts.len() == 0 {
        Seq::empty()
    } else {
        arrow_diagnostics(pid, receipts.drop_last()) + match receipt_diagnostic(
            pid,
            (receipts.len() - 1) as usize,
            receipts.last()@,
        ) {
            Some(d) => seq![d],
            None => Seq::empty(),
        }
    }
}

/// Checks the arrows of the join groups of `for` comprehensions.
pub struct ArrowTypeValidator<'a, 'b> {
    pub db: &'a SemanticDb<'b>,
}

impl<'a, 'b> ArrowTypeValidator<'a, 'b> {
    pub fn new(db: &'a SemanticDb<'b>) -> (r: Self)
        ensures
            r.db == db,
    {
        ArrowTypeValidator { db }
    }

    /// Appends to `diagnostics` the error of each join group of `receipts`
    /// whose binds mix arrows.
    pub fn validate(&self, pid: PID, receipts: &Vec<Vec<Bind>>, diagnostics: &mut Vec<Diagnostic>)
        ensures
            final(diagnostics)@ == old(diagnostics)@ + arrow_diagnostics(pid, receipts@),
    {
        let mut i: usize = 0;
        proof {
            assert(receipts@.take(0) =~= Seq::<Vec<Bind>>::empty());
            assert(diagnostics@ =~= old(diagnostics)@ + arrow_diagnostics(pid, receipts@.take(0)));
        }
        while i < receipts.len()
            invariant
                i <= receipts@.len(),
                diagnostics@ == old(diagnostics)@ + arrow_diagnostics(pid, receipts@.take(i as int)),
            decreases receipts@.len() - i,
        {
            let ghost before = diagnostics@;
            self.validate_receipt(pid, i, &receipts[i], diagnostics);
            proof {
                let t = receipts@.take(i + 1);
                assert(t.drop_last() =~= receipts@.take(i as int));
                assert(t.last() == receipts@[i as int]);
                assert(diagnostics@ =~= old(diagnostics)@ + arrow_diagnostics(pid, t));
            }
            i = i + 1;
        }
        proof {
            assert(receipts@.take(i as int) =~= receipts@);
        }
    }

    /// Appends to `diagnostics` the error of the join group `receipt`, if
    /// its binds do not all use the arrow of its first bind.
    pub fn validate_receipt(
        &self,
        pid: PID,
        receipt_idx: usize,
        receipt: &Vec<Bind>,
        diagnostics: &mut Vec<Diagnostic>,
    )
        ensures
            final(diagnostics)@ == old(diagnostics)@ + match receipt_diagnostic(pid, receipt_idx, receipt@) {
                Some(d) => seq![d],
                None => Seq::empty(),
            },
    {
        if receipt.len() <= 1 {
            proof {
                assert(diagnostics@ =~= old(diagnostics)@ + Seq::<Diagnostic>::empty());
            }
            return;
        }
        let first_pos = receipt[0].position();
        let expected = Self::arrow_type_name(&receipt[0]);
        let mut k: usize = 1;
        while k < receipt.len()
            invariant
                1 <= k <= receipt@.len(),
                receipt@.len() > 1,
                first_pos == receipt@[0].spec_position(),
                diagnostics@ == old(diagnostics)@,
                expected == arrow_of(receipt@[0]),
                first_other_arrow(receipt@, 1, expected) == first_other_arrow(receipt@, k as int, expected),
            decreases receipt@.len() - k,
        {
            let current = Self::arrow_type_name(&receipt[k]);
            if current != expected {
                diagnostics.push(
                    Diagnostic::error(
                        pid,
                        ErrorKind::MixedArrowTypes { receipt_index: receipt_idx, expected, found: current },
                        Some(first_pos),
                    ),
                );
                proof {
                    let d = Diagnostic {
                        pid,
                        kind: DiagnosticKind::Error(
                            ErrorKind::MixedArrowTypes { receipt_index: receipt_idx, expected, found: current },
                        ),
                        exact_position: Some(first_pos),
                    };
                    assert(arrow_of(receipt@[k as int]) == current);
                    assert(first_other_arrow(receipt@, k as int, expected) == Some(current));
                    assert(receipt_diagnostic(pid, receipt_idx, receipt@) == Some(d));
                    assert(diagnostics@ =~= old(diagnostics)@ + seq![d]);
                }
                return;
            }
            k = k + 1;
        }
        proof {
            assert(diagnostics@ =~= old(diagnostics)@ + Seq::<Diagnostic>::empty());
        }
    }

    /// The arrow of a bind.
    pub fn arrow_type_name(bind: &Bind) -> (r: ArrowKind)
        ensures
            r == arrow_of(*bind),
    {
        match bind {
            Bind::Linear { .. } => ArrowKind::Linear,
            Bind::Repeated { .. } => ArrowKind::Repeated,
            Bind::Peek { .. } => ArrowKind::Peek,
        }
    }
}

} // verus!
