//! The elaboration of `for` comprehensions as a pass that records its
//! findings in the database.
use crate::db::{DbView, SemanticDb};
use crate::elaborator::{all_for_comp_diagnostics, ForCompElaborationPass as DiagnosticElaboration};
use vstd::prelude::*;
use vstd::string::StringExecFns;

verus! {

/// Elaborates every `for` comprehension and records the diagnostics in the
/// database.
pub struct ForCompElaborationPass;

impl ForCompElaborationPass {
    pub fn name(&self) -> (r: String)
        ensures
            r@ == "ForCompElaboration"@,
    {
        String::from_str("ForCompElaboration")
    }

    /// Appends the diagnostics of all `for` comprehensions, in PID order.
    pub fn run(&self, db: &mut SemanticDb)
        requires
            old(db).inv(),
        ensures
            final(db).inv(),
            final(db)@ == (DbView {
                diags: old(db)@.diags + all_for_comp_diagnostics(
                    old(db)@.procs,
                    old(db)@.procs.len() as int,
                ),
                ..old(db)@
            }),
    {
        let found = DiagnosticElaboration.run(db);
        db.push_diagnostics(found);
    }
}

} // verus!
