//! Diagnostic passes over the whole database: numeric type consistency,
//! unused variables, and the variables of disjunctive patterns.
use crate::ast::{AnnProc, BinaryExpOp, Proc, SourceSpan};
use crate::db::{
    db_wf, enclosing_of, free_var_scope, occ_in_span, resolvable, resolved_binder, scoped, DbView,
    SemanticDb,
};
use crate::numeric_types::{check_numeric_proc, spec_numeric_finding};
use crate::scope::{bit_ids, id_values, ScopeInfo};
use crate::types::{
    BinderId, BoundOccurence, Diagnostic, DiagnosticKind, ErrorKind, SymbolOccurrence, VarBinding,
    WarningKind, PID,
};
use vstd::prelude::*;
use vstd::string::StringExecFns;

verus! {

/// The numeric findings of the first `n` processes, in PID order.
pub open spec fn numeric_findings(procs: Seq<AnnProc>, n: int) -> Seq<Diagnostic>
    decreases n,
{
    if n <= 0 {
        Seq::empty()
    } else {
        numeric_findings(procs, n - 1) + match spec_numeric_finding(PID((n - 1) as u32), procs[n - 1]) {
            Some(d) => seq![d],
            None => Seq::empty(),
        }
    }
}

/// Checks that the operands of every arithmetic operator have one numeric
/// type, and that `%` is not applied to floating-point numbers.
pub struct NumericTypeConsistencyCheck;

impl NumericTypeConsistencyCheck {
    pub fn name(&self) -> (r: String)
        ensures
            r@ == "Numeric Type Consistency Check"@,
    {
        String::from_str("Numeric Type Consistency Check")
    }

    pub fn run(&self, db: &SemanticDb) -> (r: Vec<Diagnostic>)
        requires
            db.inv(),
        ensures
            r@ == numeric_findings(db@.procs, db@.procs.len() as int),
    {
        let procs = db.iter();
        let mut result: Vec<Diagnostic> = Vec::new();
        let mut i: usize = 0;
        while i < procs.len()
            invariant
                i <= procs@.len(),
                procs@.len() == db@.procs.len(),
                forall|k: int|
                    0 <= k < procs@.len() ==> (#[trigger] procs@[k]).0.0 == k && *procs@[k].1
                        == db@.procs[k],
                result@ == numeric_findings(db@.procs, i as int),
            decreases procs@.len() - i,
        {
            let (pid, p) = procs[i];
            proof {
                assert(procs@[i as int].0.0 == i);
            }
            match check_numeric_proc(pid, p) {
                Some(d) => {
                    result.push(d);
                },
                None => {},
            }
            proof {
                assert(result@ =~= numeric_findings(db@.procs, i + 1));
            }
            i = i + 1;
        }
        result
    }
}

/// The warning for the unused binder `b` of the scope of process `pid`.
pub open spec fn unused_warning(v: DbView, pid: PID, b: int) -> Diagnostic {
    Diagnostic {
        pid,
        kind: DiagnosticKind::Warning(WarningKind::UnusedVariable(BinderId(b as u32), v.binders[b].name)),
        exact_position: Some(v.binders[b].source_position),
    }
}

/// The warnings for the unused binders of scope `s` of process `pid`, in order.
pub open spec fn scope_unused_warnings(v: DbView, pid: PID, s: ScopeInfo) -> Seq<Diagnostic> {
    bit_ids(s.uses_bits(), false, s.start() as int).map_values(|b: int| unused_warning(v, pid, b))
}

/// The unused-variable warnings of the scopes of the first `n` processes, in PID order.
pub open spec fn unused_warnings(v: DbView, n: int) -> Seq<Diagnostic>
    decreases n,
{
    if n <= 0 {
        Seq::empty()
    } else {
        unused_warnings(v, n - 1) + match v.scopes[n - 1] {
            Some(s) => scope_unused_warnings(v, PID((n - 1) as u32), s),
            None => Seq::empty(),
        }
    }
}

/// Warns about every binder that nothing uses.
pub struct UnusedVarsPass;

impl UnusedVarsPass {
    pub fn name(&self) -> (r: String)
        ensures
            r@ == "UnusedVar"@,
    {
        String::from_str("UnusedVar")
    }

    pub fn run(&self, db: &SemanticDb) -> (r: Vec<Diagnostic>)
        requires
            db.inv(),
        ensures
            r@ == unused_warnings(db@, db@.scopes.len() as int),
    {
        proof {
            db.lemma_inv_wf();
        }
        let n = db.pid_count();
        let mut result: Vec<Diagnostic> = Vec::new();
        let mut i: usize = 0;
        while i < n
            invariant
                db.inv(),
                n == db@.procs.len(),
                n == db@.scopes.len(),
                n <= u32::MAX,
                i <= n,
                result@ == unused_warnings(db@, i as int),
            decreases n - i,
        {
            let pid = PID(i as u32);
            let ghost before = result@;
            match db.get_scope(pid) {
                Some(scope) => {
                    if !scope.all_used() {
                        let unused = scope.unused();
                        proof {
                            crate::db::lemma_bit_ids_in_range(scope.uses_bits(), false, scope.start() as int);
                        }
                        let ghost ids = bit_ids(scope.uses_bits(), false, scope.start() as int);
                        let mut k: usize = 0;
                        while k < unused.len()
                            invariant
                                db.inv(),
                                k <= unused@.len(),
                                id_values(unused@) == ids,
                                forall|m: int| 0 <= m < ids.len() ==> scope.start() <= #[trigger] ids[m] < scope.start() + scope.uses_bits().len(),
                                scope.wf(),
                                scope.end() <= db@.binders.len(),
                                result@ == before + ids.take(k as int).map_values(|b: int| unused_warning(db@, pid, b)),
                            decreases unused@.len() - k,
                        {
                            let bid = unused[k];
                            proof {
                                assert(id_values(unused@)[k as int] == bid.0);
                            }
                            let b = db.binder(bid);
                            result.push(
                                Diagnostic::warning(
                                    pid,
                                    WarningKind::UnusedVariable(bid, b.name),
                                    Some(b.source_position),
                                ),
                            );
                            proof {
                                assert(ids.take(k + 1).map_values(|b: int| unused_warning(db@, pid, b))
                                    =~= ids.take(k as int).map_values(|b: int| unused_warning(db@, pid, b)).push(
                                    unused_warning(db@, pid, ids[k as int]),
                                ));
                            }
                            k = k + 1;
                        }
                        proof {
                            assert(ids.take(k as int) =~= ids);
                        }
                    } else {
                        proof {
                            let ids = bit_ids(scope.uses_bits(), false, scope.start() as int);
                            lemma_bit_ids_all_true(scope.uses_bits(), scope.start() as int);
                            assert(scope_unused_warnings(db@, pid, *scope) =~= Seq::<Diagnostic>::empty());
                        }
                    }
                    proof {
                        assert(result@ =~= unused_warnings(db@, i + 1));
                    }
                },
                None => {
                    proof {
                        assert(result@ =~= unused_warnings(db@, i + 1));
                    }
                },
            }
            i = i + 1;
        }
        result
    }
}

/// No bit of an all-set sequence is clear.
proof fn lemma_bit_ids_all_true(bits: Seq<bool>, start: int)
    requires
        forall|i: int| 0 <= i < bits.len() ==> bits[i],
    ensures
        bit_ids(bits, false, start).len() == 0,
    decreases bits.len(),
{
    if bits.len() > 0 {
        lemma_bit_ids_all_true(bits.drop_last(), start);
    }
}

/// The bindings within `span`, in reading order.
pub open spec fn bound_within(v: DbView, span: SourceSpan) -> Seq<BoundOccurence> {
    v.bound.filter(|b: BoundOccurence| occ_in_span(b.occurence, span))
}

/// The binders of the free variables within `span`, seen from `site`, in reading order.
pub open spec fn left_free_binders(v: DbView, site: PID, span: SourceSpan) -> Seq<BinderId> {
    bound_within(v, span).filter(|b: BoundOccurence| b.binding is Free).map_values(
        |b: BoundOccurence| resolved_binder(v, site, b.binding),
    )
}

/// Every free variable within `span` denotes a binder seen from `site`.
pub open spec fn left_resolvable(v: DbView, site: PID, span: SourceSpan) -> bool {
    forall|i: int|
        0 <= i < bound_within(v, span).len() ==> resolvable(
            v,
            site,
            (#[trigger] bound_within(v, span)[i]).binding,
        )
}

/// The error for an occurrence that one side of a disjunction binds and the other does not.
pub open spec fn unmatched(site: PID, occ: SymbolOccurrence) -> Diagnostic {
    Diagnostic {
        pid: site,
        kind: DiagnosticKind::Error(ErrorKind::UnmatchedVarInDisjunction(occ.symbol)),
        exact_position: Some(occ.position),
    }
}

/// The errors for the new free variables of the right side, in reading order.
pub open spec fn right_extra(site: PID, right: Seq<BoundOccurence>) -> Seq<Diagnostic> {
    right.filter(|b: BoundOccurence| b.binding is Free).map_values(|b: BoundOccurence| unmatched(site, b.occurence))
}

/// Entry `i` of the left free binders is matched: it is the first entry for
/// its binder, and a bound occurrence of the right side refers to it.
pub open spec fn matched(v: DbView, site: PID, left: Seq<BinderId>, right: Seq<BoundOccurence>, i: int) -> bool {
    &&& forall|j: int| 0 <= j < i ==> left[j] != left[i]
    &&& exists|k: int| 0 <= k < right.len() && (#[trigger] right[k]).binding is Bound && right[k].binding->0 == left[i]
}

/// The errors for the free variables of the left side that the right side
/// does not bind, in order.
pub open spec fn left_missing(v: DbView, site: PID, left: Seq<BinderId>, right: Seq<BoundOccurence>, n: int) -> Seq<Diagnostic>
    decreases n,
{
    if n <= 0 {
        Seq::empty()
    } else {
        left_missing(v, site, left, right, n - 1) + if matched(v, site, left, right, n - 1) {
            Seq::empty()
        } else {
            seq![unmatched(site, SymbolOccurrence { symbol: v.binders[left[n - 1].0 as int].name, position: v.binders[left[n - 1].0 as int].source_position })]
        }
    }
}

/// The errors for the disjunction `left \/ right` at `site`.
pub open spec fn disjunction_errors(v: DbView, site: PID, left: AnnProc, right: AnnProc) -> Seq<Diagnostic> {
    let rb = bound_within(v, right.span);
    let lf = left_free_binders(v, site, left.span);
    right_extra(site, rb) + left_missing(v, site, lf, rb, lf.len() as int)
}

/// The disjunction errors of the first `n` processes, in PID order.
pub open spec fn all_disjunction_errors(v: DbView, n: int) -> Seq<Diagnostic>
    decreases n,
{
    if n <= 0 {
        Seq::empty()
    } else {
        all_disjunction_errors(v, n - 1) + match v.procs[n - 1].proc {
            Proc::BinaryExp { op: BinaryExpOp::Disjunction, left, right } => disjunction_errors(
                v,
                PID((n - 1) as u32),
                *left,
                *right,
            ),
            _ => Seq::empty(),
        }
    }
}

/// The free variables of the left side of every disjunction denote binders.
pub open spec fn disjunctions_resolvable(v: DbView) -> bool {
    forall|p: int|
        0 <= p < v.procs.len() ==> match (#[trigger] v.procs[p]).proc {
            Proc::BinaryExp { op: BinaryExpOp::Disjunction, left, .. } => left_resolvable(
                v,
                PID(p as u32),
                left.span,
            ),
            _ => true,
        }
}

/// A free variable that denotes a binder of its scope denotes an existing binder.
proof fn lemma_resolved_in_range(v: DbView, site: PID, vb: VarBinding)
    requires
        db_wf(v),
        vb is Free,
        resolvable(v, site, vb),
    ensures
        resolved_binder(v, site, vb).0 < v.binders.len(),
{
    let s = free_var_scope(v, site)->0;
    if scoped(v, site) {
        assert(v.scopes[site.0 as int] is Some);
    } else {
        let q = enclosing_of(v, site)->0;
        assert(v.scopes[q.0 as int] is Some);
    }
}

/// Checks that both sides of every disjunctive pattern bind the same variables.
pub struct DisjunctionConsistencyCheck;

impl DisjunctionConsistencyCheck {
    pub fn name(&self) -> (r: String)
        ensures
            r@ == "\u{2228} Consistency Check"@,
    {
        String::from_str("\u{2228} Consistency Check")
    }

    pub fn run(&self, db: &SemanticDb) -> (r: Vec<Diagnostic>)
        requires
            db.inv(),
            disjunctions_resolvable(db@),
        ensures
            r@ == all_disjunction_errors(db@, db@.procs.len() as int),
    {
        let procs = db.iter();
        let mut result: Vec<Diagnostic> = Vec::new();
        let mut i: usize = 0;
        while i < procs.len()
            invariant
                db.inv(),
                disjunctions_resolvable(db@),
                i <= procs@.len(),
                procs@.len() == db@.procs.len(),
                forall|k: int|
                    0 <= k < procs@.len() ==> (#[trigger] procs@[k]).0.0 == k && *procs@[k].1
                        == db@.procs[k],
                result@ == all_disjunction_errors(db@, i as int),
            decreases procs@.len() - i,
        {
            let (pid, p) = procs[i];
            proof {
                assert(procs@[i as int].0.0 == i);
                assert(*procs@[i as int].1 == db@.procs[i as int]);
            }
            match &p.proc {
                Proc::BinaryExp { op: BinaryExpOp::Disjunction, left, right } => {
                    check_disjunction(db, left, right, pid, &mut result);
                },
                _ => {},
            }
            proof {
                assert(result@ =~= all_disjunction_errors(db@, i + 1));
            }
            i = i + 1;
        }
        result
    }
}

impl DisjunctionConsistencyCheck {
    /// The errors of every disjunction, as `run` finds them, or `None` when a
    /// free variable of the left side of some disjunction denotes no binder
    /// (where `run` cannot go on).
    pub fn try_run(&self, db: &SemanticDb) -> (r: Option<Vec<Diagnostic>>)
        requires
            db.inv(),
        ensures
            r is Some <==> disjunctions_resolvable(db@),
            r matches Some(d) ==> d@ == all_disjunction_errors(db@, db@.procs.len() as int),
    {
        if all_disjunctions_resolvable(db) {
            Some(self.run(db))
        } else {
            None
        }
    }
}

/// Whether the free variables of the left side of every disjunction denote binders.
fn all_disjunctions_resolvable(db: &SemanticDb) -> (r: bool)
    requires
        db.inv(),
    ensures
        r == disjunctions_resolvable(db@),
{
    proof {
        db.lemma_inv_wf();
    }
    let procs = db.iter();
    let mut i: usize = 0;
    while i < procs.len()
        invariant
            db.inv(),
            i <= procs@.len(),
            procs@.len() == db@.procs.len(),
            db@.procs.len() <= u32::MAX,
            forall|k: int|
                0 <= k < procs@.len() ==> (#[trigger] procs@[k]).0.0 == k && *procs@[k].1
                    == db@.procs[k],
            forall|p: int|
                0 <= p < i ==> match (#[trigger] db@.procs[p]).proc {
                    Proc::BinaryExp { op: BinaryExpOp::Disjunction, left, .. } => left_resolvable(
                        db@,
                        PID(p as u32),
                        left.span,
                    ),
                    _ => true,
                },
        decreases procs@.len() - i,
    {
        let (pid, p) = procs[i];
        proof {
            assert(procs@[i as int].0.0 == i);
            assert(*procs@[i as int].1 == db@.procs[i as int]);
            assert(pid == PID(i as u32));
        }
        match &p.proc {
            Proc::BinaryExp { op: BinaryExpOp::Disjunction, left, .. } => {
                let occs = db.bound_in_range(left.span);
                let mut k: usize = 0;
                while k < occs.len()
                    invariant
                        db.inv(),
                        i < db@.procs.len(),
                        *p == db@.procs[i as int],
                        pid == PID(i as u32),
                        (match p.proc {
                            Proc::BinaryExp { op: BinaryExpOp::Disjunction, left: l, .. } => l == *left,
                            _ => false,
                        }),
                        occs@ == bound_within(db@, left.span),
                        k <= occs@.len(),
                        forall|m: int| 0 <= m < k ==> resolvable(db@, pid, (#[trigger] occs@[m]).binding),
                    decreases occs@.len() - k,
                {
                    if !db.is_resolvable(pid, occs[k].binding) {
                        proof {
                            assert(!resolvable(db@, pid, bound_within(db@, left.span)[k as int].binding));
                            assert(!left_resolvable(db@, PID(i as u32), left.span));
                            assert(!(match db@.procs[i as int].proc {
                                Proc::BinaryExp { op: BinaryExpOp::Disjunction, left, .. } => left_resolvable(
                                    db@,
                                    PID(i as u32),
                                    left.span,
                                ),
                                _ => true,
                            }));
                        }
                        return false;
                    }
                    k = k + 1;
                }
                proof {
                    assert(left_resolvable(db@, PID(i as u32), left.span));
                }
            },
            _ => {},
        }
        i = i + 1;
    }
    true
}

/// Appends to `result` the errors of the disjunction `left \/ right` at
/// `site`: each free variable the right side introduces, then each free
/// variable of the left side that the right side does not bind.
pub fn check_disjunction(
    db: &SemanticDb,
    left: &AnnProc,
    right: &AnnProc,
    site: PID,
    result: &mut Vec<Diagnostic>,
)
    requires
        db.inv(),
        left_resolvable(db@, site, left.span),
    ensures
        final(result)@ == old(result)@ + disjunction_errors(db@, site, *left, *right),
{
    proof {
        db.lemma_inv_wf();
    }
    let right_bindings = db.bound_in_range(right.span);
    let left_all = db.bound_in_range(left.span);
    let ghost v = db@;
    let mut left_free: Vec<BinderId> = Vec::new();
    let mut i: usize = 0;
    let ghost lf = left_free_binders(v, site, left.span);
    proof {
        assert(left_all@.take(0) =~= Seq::<BoundOccurence>::empty());
    }
    while i < left_all.len()
        invariant
            db.inv(),
            v == db@,
            i <= left_all@.len(),
            left_all@ == bound_within(v, left.span),
            left_resolvable(v, site, left.span),
            forall|m: int| 0 <= m < left_free@.len() ==> (#[trigger] left_free@[m]).0 < v.binders.len(),
            left_free@ == left_all@.take(i as int).filter(|b: BoundOccurence| b.binding is Free).map_values(
                |b: BoundOccurence| resolved_binder(v, site, b.binding),
            ),
        decreases left_all@.len() - i,
    {
        let e = left_all[i];
        proof {
            assert(left_all@.take(i + 1).drop_last() =~= left_all@.take(i as int));
            reveal_with_fuel(Seq::filter, 1);
        }
        if e.binding.is_free() {
            proof {
                assert(resolvable(v, site, left_all@[i as int].binding));
            }
            let b = db.resolve_var_binding(site, e.binding);
            proof {
                db.lemma_inv_wf();
                lemma_resolved_in_range(v, site, e.binding);
            }
            left_free.push(b);
            proof {
                let f = left_all@.take(i + 1).filter(|b: BoundOccurence| b.binding is Free);
                let g = left_all@.take(i as int).filter(|b: BoundOccurence| b.binding is Free);
                assert(f =~= g.push(e));
                assert(left_free@ =~= f.map_values(|b: BoundOccurence| resolved_binder(v, site, b.binding)));
            }
        } else {
            proof {
                let f = left_all@.take(i + 1).filter(|b: BoundOccurence| b.binding is Free);
                let g = left_all@.take(i as int).filter(|b: BoundOccurence| b.binding is Free);
                assert(f =~= g);
            }
        }
        i = i + 1;
    }
    proof {
        assert(left_all@.take(i as int) =~= left_all@);
        assert(left_free@ == lf);
    }
    let n = left_free.len();
    let mut seen: Vec<bool> = Vec::new();
    while seen.len() < n
        invariant
            seen@.len() <= n,
            forall|m: int| 0 <= m < seen@.len() ==> !(#[trigger] seen@[m]),
        decreases n - seen@.len(),
    {
        seen.push(false);
    }
    let ghost rb = right_bindings@;
    let ghost base = result@;
    let mut j: usize = 0;
    while j < right_bindings.len()
        invariant
            rb == right_bindings@,
            rb == bound_within(v, right.span),
            left_free@ == lf,
            n == lf.len(),
            j <= rb.len(),
            seen@.len() == n,
            forall|m: int|
                0 <= m < n ==> (#[trigger] seen@[m] <==> (
                    (forall|q: int| 0 <= q < m ==> lf[q] != lf[m])
                    && exists|k: int| 0 <= k < j && (#[trigger] rb[k]).binding is Bound && rb[k].binding->0 == lf[m])),
            result@ == base + right_extra(site, rb.take(j as int)),
        decreases rb.len() - j,
    {
        let e = right_bindings[j];
        proof {
            reveal_with_fuel(Seq::filter, 1);
            assert(rb.take(j + 1).drop_last() =~= rb.take(j as int));
        }
        match e.binding {
            VarBinding::Free { .. } => {
                result.push(Diagnostic::error(site, ErrorKind::UnmatchedVarInDisjunction(e.occurence.symbol), Some(e.occurence.position)));
                proof {
                    let f = rb.take(j + 1).filter(|b: BoundOccurence| b.binding is Free);
                    let g = rb.take(j as int).filter(|b: BoundOccurence| b.binding is Free);
                    assert(f =~= g.push(e));
                    assert(right_extra(site, rb.take(j + 1)) =~= right_extra(site, rb.take(j as int)).push(unmatched(site, e.occurence)));
                    assert forall|m: int| 0 <= m < n implies (#[trigger] seen@[m] <==> (
                        (forall|q: int| 0 <= q < m ==> lf[q] != lf[m])
                        && exists|k: int| 0 <= k < j + 1 && (#[trigger] rb[k]).binding is Bound && rb[k].binding->0 == lf[m])) by {
                        if exists|k: int| 0 <= k < j + 1 && (#[trigger] rb[k]).binding is Bound && rb[k].binding->0 == lf[m] {
                            let k = choose|k: int| 0 <= k < j + 1 && (#[trigger] rb[k]).binding is Bound && rb[k].binding->0 == lf[m];
                            assert(k != j);
                        }
                    }
                }
            },
            VarBinding::Bound(bound) => {
                let pos = first_position(&left_free, bound);
                proof {
                    let f = rb.take(j + 1).filter(|b: BoundOccurence| b.binding is Free);
                    let g = rb.take(j as int).filter(|b: BoundOccurence| b.binding is Free);
                    assert(f =~= g);
                }
                match pos {
                    Some(p) => {
                        seen.set(p, true);
                        proof {
                            assert forall|m: int| 0 <= m < n implies (#[trigger] seen@[m] <==> (
                                (forall|q: int| 0 <= q < m ==> lf[q] != lf[m])
                                && exists|k: int| 0 <= k < j + 1 && (#[trigger] rb[k]).binding is Bound && rb[k].binding->0 == lf[m])) by {
                                if m == p {
                                    assert(rb[j as int].binding is Bound && rb[j as int].binding->0 == lf[m]);
                                } else if (forall|q: int| 0 <= q < m ==> lf[q] != lf[m]) && lf[m] == bound {
                                    if m < p {
                                        assert(lf[m] == bound);
                                    } else {
                                        assert(lf[p as int] == lf[m]);
                                    }
                                }
                            }
                        }
                    },
                    None => {
                        proof {
                            assert forall|m: int| 0 <= m < n implies (#[trigger] seen@[m] <==> (
                                (forall|q: int| 0 <= q < m ==> lf[q] != lf[m])
                                && exists|k: int| 0 <= k < j + 1 && (#[trigger] rb[k]).binding is Bound && rb[k].binding->0 == lf[m])) by {
                                assert(lf[m] != bound);
                                if exists|k: int| 0 <= k < j + 1 && (#[trigger] rb[k]).binding is Bound && rb[k].binding->0 == lf[m] {
                                    let k = choose|k: int| 0 <= k < j + 1 && (#[trigger] rb[k]).binding is Bound && rb[k].binding->0 == lf[m];
                                    assert(k != j);
                                }
                            }
                        }
                    },
                }
            },
        }
        j = j + 1;
    }
    proof {
        assert(rb.take(j as int) =~= rb);
        assert forall|m: int| 0 <= m < n implies #[trigger] seen@[m] == matched(v, site, lf, rb, m) by {}
    }
    let ghost mid = result@;
    let mut i: usize = 0;
    while i < n
        invariant
            db.inv(),
            v == db@,
            left_free@ == lf,
            n == lf.len(),
            i <= n,
            seen@.len() == n,
            forall|m: int| 0 <= m < n ==> (#[trigger] lf[m]).0 < v.binders.len(),
            forall|m: int| 0 <= m < n ==> #[trigger] seen@[m] == matched(v, site, lf, rb, m),
            result@ == mid + left_missing(v, site, lf, rb, i as int),
        decreases n - i,
    {
        if !seen[i] {
            let b = db.binder(left_free[i]);
            result.push(Diagnostic::error(site, ErrorKind::UnmatchedVarInDisjunction(b.name), Some(b.source_position)));
        }
        proof {
            assert(seen@[i as int] == matched(v, site, lf, rb, i as int));
        }
        i = i + 1;
    }
}

/// The first index of `x` in `s`, if it occurs.
fn first_position(s: &Vec<BinderId>, x: BinderId) -> (r: Option<usize>)
    ensures
        match r {
            Some(p) => p < s@.len() && s@[p as int] == x && forall|q: int| 0 <= q < p ==> s@[q] != x,
            None => forall|q: int| 0 <= q < s@.len() ==> s@[q] != x,
        },
{
    let mut i: usize = 0;
    while i < s.len()
        invariant
            i <= s@.len(),
            forall|q: int| 0 <= q < i ==> s@[q] != x,
        decreases s@.len() - i,
    {
        if s[i].0 == x.0 {
            return Some(i);
        }
        i = i + 1;
    }
    None
}

} // verus!
