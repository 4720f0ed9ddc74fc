//! The `for`-comprehension elaborator: semantic checks of `for`
//! comprehensions beyond name resolution, which must have run before.
use crate::arrow_validator::{arrow_diagnostics, ArrowTypeValidator};
use crate::ast::{AnnProc, Bind, Proc};
use crate::db::{DbView, SemanticDb};
use crate::types::{Diagnostic, PID};
use vstd::prelude::*;
use vstd::string::StringExecFns;

verus! {

/// The diagnostics of the `for` comprehension `p` with PID `pid`; none when
/// `p` is something else.
pub open spec fn for_comp_diagnostics(pid: PID, p: AnnProc) -> Seq<Diagnostic> {
    match p.proc {
        Proc::ForComprehension { receipts, .. } => arrow_diagnostics(pid, receipts@),
        _ => Seq::empty(),
    }
}

/// The diagnostics of all `for` comprehensions among the first `n` processes,
/// in PID order.
pub open spec fn all_for_comp_diagnostics(procs: Seq<AnnProc>, n: int) -> Seq<Diagnostic>
    decreases n,
{
    if n <= 0 {
        Seq::empty()
    } else {
        all_for_comp_diagnostics(procs, n - 1) + for_comp_diagnostics(PID((n - 1) as u32), procs[n - 1])
    }
}

/// Elaborates one `for` comprehension at a time.
pub struct ForCompElaborator<'a, 'b> {
    pub db: &'a SemanticDb<'b>,
}

impl<'a, 'b> ForCompElaborator<'a, 'b> {
    pub fn new(db: &'a SemanticDb<'b>) -> (r: Self)
        ensures
            r.db == db,
    {
        ForCompElaborator { db }
    }

    /// The diagnostics of the `for` comprehension with PID `pid`, which must
    /// be one.
    pub fn elaborate(self, pid: PID) -> (r: Vec<Diagnostic>)
        requires
            pid.0 < self.db@.procs.len(),
            self.db@.procs[pid.0 as int].proc is ForComprehension,
        ensures
            r@ == for_comp_diagnostics(pid, self.db@.procs[pid.0 as int]),
    {
        self.verify_for_comprehension(pid);
        let mut diagnostics: Vec<Diagnostic> = Vec::new();
        self.validate_arrow_types(pid, &mut diagnostics);
        proof {
            assert(diagnostics@ =~= for_comp_diagnostics(pid, self.db@.procs[pid.0 as int]));
        }
        diagnostics
    }

    /// The diagnostics of the `for` comprehension with PID `pid` whose
    /// receipts are `receipts`.
    pub fn elaborate_with_receipts(self, pid: PID, receipts: &Vec<Vec<Bind>>) -> (r: Vec<Diagnostic>)
        ensures
            r@ == arrow_diagnostics(pid, receipts@),
    {
        let mut diagnostics: Vec<Diagnostic> = Vec::new();
        self.validate_arrow_types_with_receipts(pid, receipts, &mut diagnostics);
        proof {
            assert(diagnostics@ =~= arrow_diagnostics(pid, receipts@));
        }
        diagnostics
    }

    /// `pid` is a `for` comprehension of the database.
    fn verify_for_comprehension(&self, pid: PID) -> (r: &'b AnnProc)
        requires
            pid.0 < self.db@.procs.len(),
            self.db@.procs[pid.0 as int].proc is ForComprehension,
        ensures
            *r == self.db@.procs[pid.0 as int],
    {
        self.db.proc_at(pid)
    }

    fn validate_arrow_types(&self, pid: PID, diagnostics: &mut Vec<Diagnostic>)
        requires
            pid.0 < self.db@.procs.len(),
            self.db@.procs[pid.0 as int].proc is ForComprehension,
        ensures
            final(diagnostics)@ == old(diagnostics)@ + for_comp_diagnostics(
                pid,
                self.db@.procs[pid.0 as int],
            ),
    {
        let p = self.db.proc_at(pid);
        match &p.proc {
            Proc::ForComprehension { receipts, .. } => {
                let validator = ArrowTypeValidator::new(self.db);
                validator.validate(pid, receipts, diagnostics);
            },
            _ => {},
        }
    }

    fn validate_arrow_types_with_receipts(
        &self,
        pid: PID,
        receipts: &Vec<Vec<Bind>>,
        diagnostics: &mut Vec<Diagnostic>,
    )
        ensures
            final(diagnostics)@ == old(diagnostics)@ + arrow_diagnostics(pid, receipts@),
    {
        let validator = ArrowTypeValidator::new(self.db);
        validator.validate(pid, receipts, diagnostics);
    }
}

/// The pass that elaborates every `for` comprehension of the database.
pub struct ForCompElaborationPass;

impl ForCompElaborationPass {
    pub fn name(&self) -> (r: String)
        ensures
            r@ == "ForCompElaborationPass"@,
    {
        String::from_str("ForCompElaborationPass")
    }

    /// The diagnostics of all `for` comprehensions, in PID order.
    pub fn run(&self, db: &SemanticDb) -> (r: Vec<Diagnostic>)
        requires
            db.inv(),
        ensures
            r@ == all_for_comp_diagnostics(db@.procs, db@.procs.len() as int),
    {
        let procs = db.iter();
        let mut r: Vec<Diagnostic> = Vec::new();
        let mut i: usize = 0;
        while i < procs.len()
            invariant
                i <= procs@.len(),
                procs@.len() == db@.procs.len(),
                forall|k: int|
                    0 <= k < procs@.len() ==> (#[trigger] procs@[k]).0.0 == k && *procs@[k].1
                        == db@.procs[k],
                r@ == all_for_comp_diagnostics(db@.procs, i as int),
            decreases procs@.len() - i,
        {
            let (pid, p) = procs[i];
            match &p.proc {
                Proc::ForComprehension { receipts, .. } => {
                    let elaborator = ForCompElaborator::new(db);
                    let mut ds = elaborator.elaborate_with_receipts(pid, receipts);
                    r.append(&mut ds);
                },
                _ => {},
            }
            proof {
                assert(procs@[i as int].0.0 == i);
                assert(r@ =~= all_for_comp_diagnostics(db@.procs, i as int) + for_comp_diagnostics(
                    PID(i as u32),
                    db@.procs[i as int],
                ));
            }
            i = i + 1;
        }
        r
    }
}

} // verus!
