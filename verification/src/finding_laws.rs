//! Laws of the checks that report findings: what each check reports, stated
//! over all inputs in terms of those inputs.
use crate::arrow_validator::{arrow_diagnostics, arrow_of, first_other_arrow, receipt_diagnostic};
use crate::ast::{AnnProc, BinaryExpOp, Bind, Proc, SourcePos, SourceSpan, UnaryExpOp};
use crate::bits::count_true;
use crate::consumption::{
    bind_use, conflicting_modes_reason, entry_of, has_mode, linear_positions, multiple_linear_reason,
    record, spec_consumption, track, usage_error, usages_error, ConsumptionMode, Usages,
};
use crate::ast::{Id, Name, Var};
use crate::joins::all_binds;
use crate::elab_errors::ValidationErrorSpec;
use crate::db::DbView;
use crate::diagnostics::{
    left_missing, matched, numeric_findings, right_extra, scope_unused_warnings, unmatched,
    unused_warning, unused_warnings,
};
use crate::numeric_types::{spec_infer_numeric_type, spec_is_arithmetic_operator, spec_numeric_finding};
use crate::scope::{bit_ids, ScopeInfo};
use crate::types::{
    ArrowKind, BinderId, BoundOccurence, Diagnostic, DiagnosticKind, ErrorKind, NumericType,
    SymbolOccurrence, VarBinding, PID,
};
use vstd::prelude::*;

verus! {

// ------------------------------------------------------------ numeric types

/// Negating an expression keeps its numeric type.
pub proof fn law_negation_keeps_numeric_type(e: AnnProc, span: SourceSpan)
    ensures
        spec_infer_numeric_type(
            AnnProc { proc: Proc::UnaryExp { op: UnaryExpOp::Neg, arg: Box::new(e) }, span },
        ) == spec_infer_numeric_type(e),
{
}

/// An integer literal has the type `Int64`, a floating-point literal the
/// floating-point type of its width.
pub proof fn law_literal_numeric_types(n: i64, value: String, bits: u32, span: SourceSpan)
    ensures
        spec_infer_numeric_type(AnnProc { proc: Proc::LongLiteral(n), span }) == Some(NumericType::Int64),
        spec_infer_numeric_type(AnnProc { proc: Proc::FloatLiteral { value, bits }, span }) == Some(
            NumericType::Float { bits },
        ),
{
}

/// An arithmetic operator whose operands have two different numeric types is
/// reported as mixing those two types, at the operator's position.
pub proof fn law_mixed_operands_reported(
    pid: PID,
    op: BinaryExpOp,
    l: AnnProc,
    r: AnnProc,
    span: SourceSpan,
    lt: NumericType,
    rt: NumericType,
)
    requires
        spec_is_arithmetic_operator(op),
        spec_infer_numeric_type(l) == Some(lt),
        spec_infer_numeric_type(r) == Some(rt),
        lt != rt,
    ensures
        spec_numeric_finding(
            pid,
            AnnProc { proc: Proc::BinaryExp { op, left: Box::new(l), right: Box::new(r) }, span },
        ) == Some(
            Diagnostic {
                pid,
                kind: DiagnosticKind::Error(ErrorKind::MixedNumericTypes { op, left: lt, right: rt }),
                exact_position: Some(span.start),
            },
        ),
        spec_infer_numeric_type(
            AnnProc { proc: Proc::BinaryExp { op, left: Box::new(l), right: Box::new(r) }, span },
        ) is None,
{
}

/// An arithmetic operator applied to a negated operand and another operand
/// of a different type is reported as mixing them: the negated operand has
/// the type of what it negates.
pub proof fn law_negated_operand_mixed(
    pid: PID,
    op: BinaryExpOp,
    a: AnnProc,
    neg_span: SourceSpan,
    b: AnnProc,
    span: SourceSpan,
    at: NumericType,
    bt: NumericType,
)
    requires
        spec_is_arithmetic_operator(op),
        spec_infer_numeric_type(a) == Some(at),
        spec_infer_numeric_type(b) == Some(bt),
        at != bt,
    ensures
        spec_numeric_finding(
            pid,
            AnnProc {
                proc: Proc::BinaryExp {
                    op,
                    left: Box::new(
                        AnnProc { proc: Proc::UnaryExp { op: UnaryExpOp::Neg, arg: Box::new(a) }, span: neg_span },
                    ),
                    right: Box::new(b),
                },
                span,
            },
        ) == Some(
            Diagnostic {
                pid,
                kind: DiagnosticKind::Error(ErrorKind::MixedNumericTypes { op, left: at, right: bt }),
                exact_position: Some(span.start),
            },
        ),
{
    law_negation_keeps_numeric_type(a, neg_span);
    law_mixed_operands_reported(
        pid,
        op,
        AnnProc { proc: Proc::UnaryExp { op: UnaryExpOp::Neg, arg: Box::new(a) }, span: neg_span },
        b,
        span,
        at,
        bt,
    );
}

/// The check over the first `n` processes reports the finding of each of them.
pub proof fn law_numeric_findings_cover(procs: Seq<AnnProc>, n: int, k: int)
    requires
        0 <= k < n <= procs.len(),
    ensures
        spec_numeric_finding(PID(k as u32), procs[k]) matches Some(d) ==> numeric_findings(procs, n).contains(d),
    decreases n,
{
    if let Some(d) = spec_numeric_finding(PID(k as u32), procs[k]) {
        if k == n - 1 {
            let prev = numeric_findings(procs, n - 1);
            assert(numeric_findings(procs, n)[prev.len() as int] == d);
        } else {
            law_numeric_findings_cover(procs, n - 1, k);
            let prev = numeric_findings(procs, n - 1);
            let i = choose|i: int| 0 <= i < prev.len() && prev[i] == d;
            assert(numeric_findings(procs, n)[i] == prev[i]);
        }
    }
}

/// Operands of one numeric type give the operation that type, and no finding
/// unless the operation is `%` on floating-point numbers.
pub proof fn law_agreeing_operands(
    pid: PID,
    op: BinaryExpOp,
    l: AnnProc,
    r: AnnProc,
    span: SourceSpan,
    t: NumericType,
)
    requires
        spec_is_arithmetic_operator(op),
        spec_infer_numeric_type(l) == Some(t),
        spec_infer_numeric_type(r) == Some(t),
    ensures
        spec_infer_numeric_type(
            AnnProc { proc: Proc::BinaryExp { op, left: Box::new(l), right: Box::new(r) }, span },
        ) == Some(t),
        (op != BinaryExpOp::Mod || !(t is Float)) ==> spec_numeric_finding(
            pid,
            AnnProc { proc: Proc::BinaryExp { op, left: Box::new(l), right: Box::new(r) }, span },
        ) is None,
        (op == BinaryExpOp::Mod && t is Float) ==> spec_numeric_finding(
            pid,
            AnnProc { proc: Proc::BinaryExp { op, left: Box::new(l), right: Box::new(r) }, span },
        ) == Some(
            Diagnostic {
                pid,
                kind: DiagnosticKind::Error(ErrorKind::UnsupportedNumericOperator { op, arg: t }),
                exact_position: Some(span.start),
            },
        ),
{
}

/// Every finding of the check over the first `n` processes is the finding
/// of one of them.
#[verifier::spinoff_prover]
pub proof fn law_numeric_findings_sound(procs: Seq<AnnProc>, n: int)
    requires
        0 <= n <= procs.len(),
    ensures
        forall|m: int|
            0 <= m < numeric_findings(procs, n).len() ==> exists|k: int|
                0 <= k < n && spec_numeric_finding(PID(k as u32), procs[k]) == Some(
                    #[trigger] numeric_findings(procs, n)[m],
                ),
    decreases n,
{
    if n > 0 {
        law_numeric_findings_sound(procs, n - 1);
        let prev = numeric_findings(procs, n - 1);
        let cur = numeric_findings(procs, n);
        assert forall|m: int| 0 <= m < cur.len() implies exists|k: int|
            0 <= k < n && spec_numeric_finding(PID(k as u32), procs[k]) == Some(#[trigger] cur[m]) by {
            if m < prev.len() {
                assert(cur[m] == prev[m]);
            } else {
                assert(spec_numeric_finding(PID((n - 1) as u32), procs[n - 1]) == Some(cur[m]));
            }
        }
    }
}

// -------------------------------------------------------------- consumption

/// Counting the linear uses: at least one, and at least two.
#[verifier::spinoff_prover]
proof fn lemma_linear_positions(uses: Seq<(ConsumptionMode, SourcePos)>)
    ensures
        (linear_positions(uses).len() > 0) <==> (exists|i: int|
            0 <= i < uses.len() && (#[trigger] uses[i]).0 == ConsumptionMode::Linear),
        (linear_positions(uses).len() > 1) <==> (exists|i: int, j: int|
            #![trigger uses[i], uses[j]]
            0 <= i < j < uses.len() && uses[i].0 == ConsumptionMode::Linear && uses[j].0
                == ConsumptionMode::Linear),
    decreases uses.len(),
{
    if uses.len() > 0 {
        let init = uses.drop_last();
        let n = uses.len() - 1;
        lemma_linear_positions(init);
        if exists|i: int| 0 <= i < init.len() && (#[trigger] init[i]).0 == ConsumptionMode::Linear {
            let i = choose|i: int| 0 <= i < init.len() && (#[trigger] init[i]).0 == ConsumptionMode::Linear;
            assert(uses[i] == init[i]);
        }
        if exists|i: int| 0 <= i < uses.len() && (#[trigger] uses[i]).0 == ConsumptionMode::Linear {
            let i = choose|i: int| 0 <= i < uses.len() && (#[trigger] uses[i]).0 == ConsumptionMode::Linear;
            if i < n {
                assert(init[i] == uses[i]);
            }
        }
        if exists|i: int, j: int|
            #![trigger init[i], init[j]]
            0 <= i < j < init.len() && init[i].0 == ConsumptionMode::Linear && init[j].0 == ConsumptionMode::Linear {
            let (i, j) = choose|i: int, j: int|
                #![trigger init[i], init[j]]
                0 <= i < j < init.len() && init[i].0 == ConsumptionMode::Linear && init[j].0
                    == ConsumptionMode::Linear;
            assert(uses[i] == init[i] && uses[j] == init[j]);
        }
        if exists|i: int, j: int|
            #![trigger uses[i], uses[j]]
            0 <= i < j < uses.len() && uses[i].0 == ConsumptionMode::Linear && uses[j].0 == ConsumptionMode::Linear {
            let (i, j) = choose|i: int, j: int|
                #![trigger uses[i], uses[j]]
                0 <= i < j < uses.len() && uses[i].0 == ConsumptionMode::Linear && uses[j].0
                    == ConsumptionMode::Linear;
            assert(init[i] == uses[i]);
            if j < n {
                assert(init[j] == uses[j]);
            } else {
                assert(uses.last().0 == ConsumptionMode::Linear);
            }
        }
    }
}

/// The uses of one channel are wrong exactly when two of them are linear, or
/// one is linear and another repeated, whatever their order.
pub proof fn law_usage_error_iff(uses: Seq<(ConsumptionMode, SourcePos)>)
    ensures
        usage_error(uses) is Some <==> ((exists|i: int, j: int|
            #![trigger uses[i], uses[j]]
            0 <= i < j < uses.len() && uses[i].0 == ConsumptionMode::Linear && uses[j].0
                == ConsumptionMode::Linear) || (exists|i: int, j: int|
            #![trigger uses[i], uses[j]]
            0 <= i < uses.len() && 0 <= j < uses.len() && uses[i].0 == ConsumptionMode::Linear && uses[j].0
                == ConsumptionMode::Repeated)),
{
    lemma_linear_positions(uses);
    if exists|i: int, j: int|
        #![trigger uses[i], uses[j]]
        0 <= i < uses.len() && 0 <= j < uses.len() && uses[i].0 == ConsumptionMode::Linear && uses[j].0
            == ConsumptionMode::Repeated {
        let (i, j) = choose|i: int, j: int|
            #![trigger uses[i], uses[j]]
            0 <= i < uses.len() && 0 <= j < uses.len() && uses[i].0 == ConsumptionMode::Linear && uses[j].0
                == ConsumptionMode::Repeated;
        assert(uses[i].0 == ConsumptionMode::Linear);
        assert(uses[j].0 == ConsumptionMode::Repeated);
        assert(has_mode(uses, ConsumptionMode::Repeated));
    }
    if linear_positions(uses).len() > 0 && has_mode(uses, ConsumptionMode::Repeated) {
        let i = choose|i: int| 0 <= i < uses.len() && (#[trigger] uses[i]).0 == ConsumptionMode::Linear;
        let j = choose|j: int| 0 <= j < uses.len() && (#[trigger] uses[j]).0 == ConsumptionMode::Repeated;
        assert(uses[i].0 == ConsumptionMode::Linear && uses[j].0 == ConsumptionMode::Repeated);
    }
}

/// Reordering the uses of a channel does not change whether they are wrong.
#[verifier::spinoff_prover]
pub proof fn law_usage_error_reorder(
    a: Seq<(ConsumptionMode, SourcePos)>,
    b: Seq<(ConsumptionMode, SourcePos)>,
    perm: Seq<int>,
    inv: Seq<int>,
)
    requires
        a.len() == b.len(),
        perm.len() == a.len(),
        inv.len() == a.len(),
        forall|i: int| 0 <= i < b.len() ==> 0 <= #[trigger] perm[i] < a.len() && b[i] == a[perm[i]],
        forall|j: int| 0 <= j < a.len() ==> 0 <= #[trigger] inv[j] < b.len() && perm[inv[j]] == j,
        forall|i: int| 0 <= i < b.len() ==> inv[#[trigger] perm[i]] == i,
    ensures
        usage_error(a) is Some <==> usage_error(b) is Some,
{
    law_usage_error_iff(a);
    law_usage_error_iff(b);
    assert forall|j: int| 0 <= j < a.len() implies #[trigger] b[inv[j]] == a[j] by {
        assert(perm[inv[j]] == j);
    }
    if exists|i: int, j: int|
        #![trigger a[i], a[j]]
        0 <= i < j < a.len() && a[i].0 == ConsumptionMode::Linear && a[j].0 == ConsumptionMode::Linear {
        let (i, j) = choose|i: int, j: int|
            #![trigger a[i], a[j]]
            0 <= i < j < a.len() && a[i].0 == ConsumptionMode::Linear && a[j].0 == ConsumptionMode::Linear;
        let (x, y) = if inv[i] < inv[j] { (inv[i], inv[j]) } else { (inv[j], inv[i]) };
        assert(b[inv[i]] == a[i] && b[inv[j]] == a[j]);
        assert(inv[i] != inv[j]);
        assert(b[x].0 == ConsumptionMode::Linear && b[y].0 == ConsumptionMode::Linear);
    }
    if exists|i: int, j: int|
        #![trigger a[i], a[j]]
        0 <= i < a.len() && 0 <= j < a.len() && a[i].0 == ConsumptionMode::Linear && a[j].0
            == ConsumptionMode::Repeated {
        let (i, j) = choose|i: int, j: int|
            #![trigger a[i], a[j]]
            0 <= i < a.len() && 0 <= j < a.len() && a[i].0 == ConsumptionMode::Linear && a[j].0
                == ConsumptionMode::Repeated;
        assert(b[inv[i]] == a[i] && b[inv[j]] == a[j]);
    }
    if exists|i: int, j: int|
        #![trigger b[i], b[j]]
        0 <= i < j < b.len() && b[i].0 == ConsumptionMode::Linear && b[j].0 == ConsumptionMode::Linear {
        let (i, j) = choose|i: int, j: int|
            #![trigger b[i], b[j]]
            0 <= i < j < b.len() && b[i].0 == ConsumptionMode::Linear && b[j].0 == ConsumptionMode::Linear;
        assert(b[i] == a[perm[i]] && b[j] == a[perm[j]]);
        assert(inv[perm[i]] == i);
        assert(inv[perm[j]] == j);
        let (x, y) = if perm[i] < perm[j] { (perm[i], perm[j]) } else { (perm[j], perm[i]) };
        assert(perm[i] != perm[j]) by {
            if perm[i] == perm[j] {
                assert(inv[perm[i]] == i);
                assert(perm[inv[perm[j]]] == perm[j]);
            }
        }
        assert(a[x].0 == ConsumptionMode::Linear && a[y].0 == ConsumptionMode::Linear);
    }
    if exists|i: int, j: int|
        #![trigger b[i], b[j]]
        0 <= i < b.len() && 0 <= j < b.len() && b[i].0 == ConsumptionMode::Linear && b[j].0
            == ConsumptionMode::Repeated {
        let (i, j) = choose|i: int, j: int|
            #![trigger b[i], b[j]]
            0 <= i < b.len() && 0 <= j < b.len() && b[i].0 == ConsumptionMode::Linear && b[j].0
                == ConsumptionMode::Repeated;
        assert(b[i] == a[perm[i]] && b[j] == a[perm[j]]);
        assert(a[perm[i]].0 == ConsumptionMode::Linear && a[perm[j]].0 == ConsumptionMode::Repeated);
    }
}

/// The consumption check fails when the uses of any one channel are wrong,
/// wherever that channel comes among the channels.
pub proof fn law_usages_error_any_channel(
    usages: Seq<(Seq<char>, Seq<(ConsumptionMode, SourcePos)>)>,
    from: int,
    k: int,
)
    requires
        0 <= from <= k < usages.len(),
        usage_error(usages[k].1) is Some,
    ensures
        usages_error(usages, from) is Some,
    decreases k - from,
{
    if from < k && usage_error(usages[from].1) is None {
        law_usages_error_any_channel(usages, from + 1, k);
    }
}

/// The linear uses of `uses`, in order.
pub open spec fn linear_uses(uses: Seq<(ConsumptionMode, SourcePos)>) -> Seq<(ConsumptionMode, SourcePos)>
    decreases uses.len(),
{
    if uses.len() == 0 {
        Seq::empty()
    } else {
        linear_uses(uses.drop_last()) + if uses.last().0 == ConsumptionMode::Linear {
            seq![uses.last()]
        } else {
            Seq::empty()
        }
    }
}

proof fn lemma_linear_positions_filter(uses: Seq<(ConsumptionMode, SourcePos)>)
    ensures
        linear_positions(uses).len() == linear_uses(uses).len(),
        forall|k: int| 0 <= k < linear_uses(uses).len() ==> #[trigger] linear_positions(uses)[k] == linear_uses(uses)[k].1,
    decreases uses.len(),
{
    if uses.len() > 0 {
        let init = uses.drop_last();
        lemma_linear_positions_filter(init);
        let lp = linear_positions(uses);
        let lu = linear_uses(uses);
        assert forall|k: int| 0 <= k < lu.len() implies #[trigger] lp[k] == lu[k].1 by {
            if k < linear_uses(init).len() {
                assert(lp[k] == linear_positions(init)[k]);
                assert(lu[k] == linear_uses(init)[k]);
            }
        }
    }
}

/// What the error of wrong uses says: with several linear uses, it is
/// reported at the second of them and gives their number; with one linear
/// use and a repeated one, it is reported at the linear use.
pub proof fn law_usage_error_content(uses: Seq<(ConsumptionMode, SourcePos)>)
    ensures
        linear_uses(uses).len() > 1 ==> usage_error(uses) == Some(
            ValidationErrorSpec::InvalidPatternStructure {
                pid: PID(0),
                position: Some(linear_uses(uses)[1].1),
                reason: multiple_linear_reason(linear_uses(uses).len()),
            },
        ),
        linear_uses(uses).len() == 1 && (exists|j: int|
            0 <= j < uses.len() && (#[trigger] uses[j]).0 == ConsumptionMode::Repeated) ==> usage_error(uses)
            == Some(
            ValidationErrorSpec::InvalidPatternStructure {
                pid: PID(0),
                position: Some(linear_uses(uses)[0].1),
                reason: conflicting_modes_reason(),
            },
        ),
{
    lemma_linear_positions_filter(uses);
}

/// The consumption check reports the error of the first channel whose uses
/// are wrong.
pub proof fn law_usages_error_first(
    usages: Seq<(Seq<char>, Seq<(ConsumptionMode, SourcePos)>)>,
    from: int,
    k: int,
)
    requires
        0 <= from <= k < usages.len(),
        usage_error(usages[k].1) is Some,
        forall|j: int| from <= j < k ==> usage_error(#[trigger] usages[j].1) is None,
    ensures
        usages_error(usages, from) == usage_error(usages[k].1),
    decreases k - from,
{
    if from < k {
        law_usages_error_first(usages, from + 1, k);
    }
}

/// Where the entry of a channel is.
proof fn lemma_entry_of(u: Usages, name: Seq<char>)
    ensures
        entry_of(u, name) matches Some(e) ==> 0 <= e < u.len() && u[e].0 == name,
    decreases u.len(),
{
    if u.len() > 0 {
        lemma_entry_of(u.drop_last(), name);
    }
}

/// Changing the uses of entries, not their channels, keeps where each entry is.
proof fn lemma_entry_of_same_names(u: Usages, w: Usages, name: Seq<char>)
    requires
        u.len() == w.len(),
        forall|k: int| 0 <= k < u.len() ==> (#[trigger] u[k]).0 == w[k].0,
    ensures
        entry_of(u, name) == entry_of(w, name),
    decreases u.len(),
{
    if u.len() > 0 {
        assert forall|k: int| 0 <= k < u.drop_last().len() implies (#[trigger] u.drop_last()[k]).0
            == w.drop_last()[k].0 by {
            assert(u.drop_last()[k] == u[k] && w.drop_last()[k] == w[k]);
        }
        lemma_entry_of_same_names(u.drop_last(), w.drop_last(), name);
        assert(u.last().0 == w.last().0);
    }
}

/// Recording a use keeps every use recorded before, under its channel, and
/// records the new one under its own.
proof fn lemma_record(
    u: Usages,
    name: Seq<char>,
    mode: ConsumptionMode,
    pos: SourcePos,
    other: Seq<char>,
    x: (ConsumptionMode, SourcePos),
)
    ensures
        entry_of(record(u, name, mode, pos), name) matches Some(e) && record(u, name, mode, pos)[e].1.contains(
            (mode, pos),
        ),
        (entry_of(u, other) matches Some(e) && u[e].1.contains(x)) ==> (entry_of(
            record(u, name, mode, pos),
            other,
        ) matches Some(f) && record(u, name, mode, pos)[f].1.contains(x)),
{
    lemma_entry_of(u, name);
    lemma_entry_of(u, other);
    let r = record(u, name, mode, pos);
    match entry_of(u, name) {
        Some(i) => {
            lemma_entry_of_same_names(u, r, name);
            lemma_entry_of_same_names(u, r, other);
            assert(r[i].1[r[i].1.len() - 1] == (mode, pos));
            if entry_of(u, other) is Some {
                let e = entry_of(u, other)->0;
                if u[e].1.contains(x) {
                    let k = choose|k: int| 0 <= k < u[e].1.len() && u[e].1[k] == x;
                    if e == i {
                        assert(r[e].1[k] == x);
                    } else {
                        assert(r[e] == u[e]);
                    }
                }
            }
        },
        None => {
            assert(r.drop_last() =~= u);
            assert(r.last().1[0] == (mode, pos));
            if entry_of(u, other) is Some {
                let e = entry_of(u, other)->0;
                assert(other != name);
                assert(r[e] == u[e]);
            }
        },
    }
}

/// Every bind on a named channel has its use recorded under that channel.
pub proof fn law_track_records_each(binds: Seq<Bind>, k: int, id: Id)
    requires
        0 <= k < binds.len(),
        bind_use(binds[k]).1 == Name::NameVar(Var::Id(id)),
    ensures
        entry_of(track(binds), id.name@) matches Some(e) && track(binds)[e].1.contains((bind_use(binds[k]).0, id.pos)),
    decreases binds.len(),
{
    let init = binds.drop_last();
    let (mode, name) = bind_use(binds.last());
    if k == binds.len() - 1 {
        lemma_record(track(init), id.name@, mode, id.pos, id.name@, (mode, id.pos));
    } else {
        assert(init[k] == binds[k]);
        law_track_records_each(init, k, id);
        match name {
            Name::NameVar(Var::Id(other)) => {
                lemma_record(
                    track(init),
                    other.name@,
                    mode,
                    crate::joins::name_position(name),
                    id.name@,
                    (bind_use(binds[k]).0, id.pos),
                );
            },
            _ => {},
        }
    }
}

/// A `for` comprehension that reads one channel both linearly and
/// repeatedly, in whatever order its binds come, fails the consumption check.
pub proof fn law_conflicting_binds_rejected(v: DbView, receipts: Seq<Vec<Bind>>, i: int, j: int, a: Id, b: Id)
    requires
        0 <= i < all_binds(receipts).len(),
        0 <= j < all_binds(receipts).len(),
        bind_use(all_binds(receipts)[i]) == (ConsumptionMode::Linear, Name::NameVar(Var::Id(a))),
        bind_use(all_binds(receipts)[j]) == (ConsumptionMode::Repeated, Name::NameVar(Var::Id(b))),
        a.name@ == b.name@,
    ensures
        spec_consumption(v, receipts) is Err,
{
    let binds = all_binds(receipts);
    let u = track(binds);
    law_track_records_each(binds, i, a);
    law_track_records_each(binds, j, b);
    let e = entry_of(u, a.name@)->0;
    lemma_entry_of(u, a.name@);
    let uses = u[e].1;
    let x = choose|x: int| 0 <= x < uses.len() && uses[x] == (ConsumptionMode::Linear, a.pos);
    let y = choose|y: int| 0 <= y < uses.len() && uses[y] == (ConsumptionMode::Repeated, b.pos);
    law_usage_error_iff(uses);
    assert(uses[x].0 == ConsumptionMode::Linear && uses[y].0 == ConsumptionMode::Repeated);
    law_usages_error_any_channel(u, 0, e);
}

// ------------------------------------------------------------------- arrows

/// What the search for another arrow finds from position `k` on.
proof fn lemma_first_other_arrow(binds: Seq<Bind>, k: int, expected: ArrowKind)
    requires
        0 <= k,
    ensures
        first_other_arrow(binds, k, expected) is None <==> forall|i: int|
            k <= i < binds.len() ==> arrow_of(#[trigger] binds[i]) == expected,
        first_other_arrow(binds, k, expected) matches Some(a) ==> exists|j: int|
            k <= j < binds.len() && a == arrow_of(#[trigger] binds[j]) && a != expected && forall|i: int|
                k <= i < j ==> arrow_of(#[trigger] binds[i]) == expected,
    decreases binds.len() - k,
{
    if k < binds.len() {
        lemma_first_other_arrow(binds, k + 1, expected);
        if arrow_of(binds[k]) != expected {
            assert(!(forall|i: int| k <= i < binds.len() ==> arrow_of(#[trigger] binds[i]) == expected));
        } else if let Some(a) = first_other_arrow(binds, k, expected) {
            let j = choose|j: int|
                k + 1 <= j < binds.len() && a == arrow_of(#[trigger] binds[j]) && a != expected && forall|i: int|
                    k + 1 <= i < j ==> arrow_of(#[trigger] binds[i]) == expected;
            assert(forall|i: int| k <= i < j ==> arrow_of(#[trigger] binds[i]) == expected);
        }
    }
}

/// A join group is reported exactly when one of its binds, at any position,
/// uses another arrow than its first bind; the report gives the group's
/// index, the first bind's arrow, and the first other arrow after it.
pub proof fn law_receipt_diagnostic(pid: PID, idx: usize, receipt: Seq<Bind>)
    ensures
        receipt_diagnostic(pid, idx, receipt) is None <==> forall|i: int|
            0 <= i < receipt.len() ==> arrow_of(#[trigger] receipt[i]) == arrow_of(receipt[0]),
        receipt_diagnostic(pid, idx, receipt) is Some ==> exists|j: int|
            0 < j < receipt.len() && arrow_of(#[trigger] receipt[j]) != arrow_of(receipt[0]) && (forall|i: int|
                0 < i < j ==> arrow_of(#[trigger] receipt[i]) == arrow_of(receipt[0]))
                && receipt_diagnostic(pid, idx, receipt) == Some(
                (Diagnostic {
                    pid,
                    kind: DiagnosticKind::Error(
                        ErrorKind::MixedArrowTypes {
                            receipt_index: idx,
                            expected: arrow_of(receipt[0]),
                            found: arrow_of(receipt[j]),
                        },
                    ),
                    exact_position: Some(receipt[0].spec_position()),
                }),
            ),
{
    if receipt.len() > 1 {
        lemma_first_other_arrow(receipt, 1, arrow_of(receipt[0]));
    }
}

/// The arrow check of a `for` reports the error of each of its join groups.
pub proof fn law_arrow_diagnostics_cover(pid: PID, receipts: Seq<Vec<Bind>>, k: int)
    requires
        0 <= k < receipts.len(),
    ensures
        receipt_diagnostic(pid, k as usize, receipts[k]@) matches Some(d) ==> arrow_diagnostics(
            pid,
            receipts,
        ).contains(d),
    decreases receipts.len(),
{
    if let Some(d) = receipt_diagnostic(pid, k as usize, receipts[k]@) {
        let prev = arrow_diagnostics(pid, receipts.drop_last());
        if k == receipts.len() - 1 {
            assert(arrow_diagnostics(pid, receipts)[prev.len() as int] == d);
        } else {
            assert(receipts.drop_last()[k] == receipts[k]);
            law_arrow_diagnostics_cover(pid, receipts.drop_last(), k);
            let i = choose|i: int| 0 <= i < prev.len() && prev[i] == d;
            assert(arrow_diagnostics(pid, receipts)[i] == prev[i]);
        }
    }
}

/// Every error of the arrow check of a `for` is the error of one of its join
/// groups.
#[verifier::spinoff_prover]
pub proof fn law_arrow_diagnostics_sound(pid: PID, receipts: Seq<Vec<Bind>>)
    ensures
        forall|m: int|
            0 <= m < arrow_diagnostics(pid, receipts).len() ==> exists|k: int|
                0 <= k < receipts.len() && receipt_diagnostic(pid, k as usize, receipts[k]@) == Some(
                    #[trigger] arrow_diagnostics(pid, receipts)[m],
                ),
    decreases receipts.len(),
{
    if receipts.len() > 0 {
        let init = receipts.drop_last();
        law_arrow_diagnostics_sound(pid, init);
        let prev = arrow_diagnostics(pid, init);
        let cur = arrow_diagnostics(pid, receipts);
        assert forall|m: int| 0 <= m < cur.len() implies exists|k: int|
            0 <= k < receipts.len() && receipt_diagnostic(pid, k as usize, receipts[k]@) == Some(
                #[trigger] cur[m],
            ) by {
            if m < prev.len() {
                assert(cur[m] == prev[m]);
                let k = choose|k: int|
                    0 <= k < init.len() && receipt_diagnostic(pid, k as usize, init[k]@) == Some(
                        #[trigger] prev[m],
                    );
                assert(init[k] == receipts[k]);
            } else {
                let k = receipts.len() - 1;
                assert(receipt_diagnostic(pid, k as usize, receipts[k]@) == Some(cur[m]));
            }
        }
    }
}

// ------------------------------------------------------------- disjunctions

/// The error naming the left binder `b`.
pub open spec fn left_error(v: DbView, site: PID, b: BinderId) -> Diagnostic {
    unmatched(
        site,
        SymbolOccurrence { symbol: v.binders[b.0 as int].name, position: v.binders[b.0 as int].source_position },
    )
}

/// Some occurrence of `right` is bound to `b`.
pub open spec fn right_binds(right: Seq<BoundOccurence>, b: BinderId) -> bool {
    exists|k: int| 0 <= k < right.len() && (#[trigger] right[k]).binding == VarBinding::Bound(b)
}

/// The first entry of `left` for the binder of entry `i`.
proof fn first_entry(left: Seq<BinderId>, i: int) -> (f: int)
    requires
        0 <= i < left.len(),
    ensures
        0 <= f <= i,
        left[f] == left[i],
        forall|j: int| 0 <= j < f ==> left[j] != left[f],
    decreases i,
{
    if exists|j: int| 0 <= j < i && left[j] == left[i] {
        let j = choose|j: int| 0 <= j < i && left[j] == left[i];
        first_entry(left, j)
    } else {
        i
    }
}

/// The errors of the first `n` entries stay among those of more entries.
proof fn lemma_left_missing_grows(
    v: DbView,
    site: PID,
    left: Seq<BinderId>,
    right: Seq<BoundOccurence>,
    m: int,
    n: int,
    d: Diagnostic,
)
    requires
        0 <= m <= n,
        left_missing(v, site, left, right, m).contains(d),
    ensures
        left_missing(v, site, left, right, n).contains(d),
    decreases n - m,
{
    if m < n {
        lemma_left_missing_grows(v, site, left, right, m, n - 1, d);
        let prev = left_missing(v, site, left, right, n - 1);
        let i = choose|i: int| 0 <= i < prev.len() && prev[i] == d;
        assert(left_missing(v, site, left, right, n)[i] == prev[i]);
    }
}

/// Every free variable of the left side of a disjunction that no occurrence
/// of the right side binds is reported by an error naming it, whatever its
/// place among the left side's variables.
pub proof fn law_left_missing_reports_each(
    v: DbView,
    site: PID,
    left: Seq<BinderId>,
    right: Seq<BoundOccurence>,
    i: int,
)
    requires
        0 <= i < left.len(),
        !right_binds(right, left[i]),
    ensures
        left_missing(v, site, left, right, left.len() as int).contains(left_error(v, site, left[i])),
{
    let f = first_entry(left, i);
    assert(!matched(v, site, left, right, f)) by {
        if matched(v, site, left, right, f) {
            let k = choose|k: int|
                0 <= k < right.len() && (#[trigger] right[k]).binding is Bound && right[k].binding->0 == left[f];
            assert(right[k].binding == VarBinding::Bound(left[i]));
        }
    }
    let prev = left_missing(v, site, left, right, f);
    assert(left_missing(v, site, left, right, f + 1)[prev.len() as int] == left_error(v, site, left[i]));
    lemma_left_missing_grows(v, site, left, right, f + 1, left.len() as int, left_error(v, site, left[i]));
}

/// Every error about the left side names a binder of the left side that the
/// right side does not bind, or an entry repeating an earlier one.
#[verifier::spinoff_prover]
pub proof fn law_left_missing_sound(
    v: DbView,
    site: PID,
    left: Seq<BinderId>,
    right: Seq<BoundOccurence>,
    n: int,
)
    requires
        0 <= n <= left.len(),
    ensures
        forall|m: int|
            0 <= m < left_missing(v, site, left, right, n).len() ==> exists|i: int|
                0 <= i < n && #[trigger] left_missing(v, site, left, right, n)[m] == left_error(v, site, left[i])
                    && (!right_binds(right, left[i]) || exists|j: int| 0 <= j < i && left[j] == left[i]),
    decreases n,
{
    if n > 0 {
        law_left_missing_sound(v, site, left, right, n - 1);
        let prev = left_missing(v, site, left, right, n - 1);
        let cur = left_missing(v, site, left, right, n);
        assert forall|m: int| 0 <= m < cur.len() implies exists|i: int|
            0 <= i < n && #[trigger] cur[m] == left_error(v, site, left[i]) && (!right_binds(right, left[i])
                || exists|j: int| 0 <= j < i && left[j] == left[i]) by {
            if m < prev.len() {
                assert(cur[m] == prev[m]);
            } else {
                let i = n - 1;
                assert(!matched(v, site, left, right, i));
                assert(cur[m] == left_error(v, site, left[i]));
                if right_binds(right, left[i]) {
                    let k = choose|k: int| 0 <= k < right.len() && (#[trigger] right[k]).binding == VarBinding::Bound(left[i]);
                    assert(right[k].binding is Bound && right[k].binding->0 == left[i]);
                }
            }
        }
    }
}

/// Every new free variable of the right side of a disjunction is reported by
/// an error at its occurrence.
pub proof fn law_right_extra_reports_each(site: PID, right: Seq<BoundOccurence>, k: int)
    requires
        0 <= k < right.len(),
        right[k].binding is Free,
    ensures
        right_extra(site, right).contains(unmatched(site, right[k].occurence)),
{
    let pred = |b: BoundOccurence| b.binding is Free;
    right.lemma_filter_contains(pred, k);
    let f = right.filter(pred);
    let j = choose|j: int| 0 <= j < f.len() && f[j] == right[k];
    assert(right_extra(site, right)[j] == unmatched(site, right[k].occurence));
}

// ----------------------------------------------------------- unused binders

/// The ids whose bit is clear: exactly the clear positions, each once.
#[verifier::spinoff_prover]
proof fn lemma_clear_ids(bits: Seq<bool>, start: int)
    ensures
        bit_ids(bits, false, start).len() == bits.len() - count_true(bits),
        forall|i: int| 0 <= i < bits.len() && !bits[i] ==> bit_ids(bits, false, start).contains(start + i),
        forall|m: int|
            #![trigger bit_ids(bits, false, start)[m]]
            0 <= m < bit_ids(bits, false, start).len() ==> exists|i: int|
                #![trigger bits[i]]
                0 <= i < bits.len() && !bits[i] && bit_ids(bits, false, start)[m] == start + i,
        forall|m1: int, m2: int|
            0 <= m1 < m2 < bit_ids(bits, false, start).len() ==> #[trigger] bit_ids(bits, false, start)[m1]
                < #[trigger] bit_ids(bits, false, start)[m2],
    decreases bits.len(),
{
    if bits.len() == 0 {
        assert(bit_ids(bits, false, start).len() == 0);
    }
    if bits.len() > 0 {
        let init = bits.drop_last();
        let n = bits.len() - 1;
        lemma_clear_ids(init, start);
        crate::bits::lemma_count_true_bound(init);
        let prev = bit_ids(init, false, start);
        let cur = bit_ids(bits, false, start);
        assert forall|i: int| 0 <= i < bits.len() && !bits[i] implies cur.contains(start + i) by {
            if i < n {
                assert(init[i] == bits[i]);
                let m = choose|m: int| 0 <= m < prev.len() && prev[m] == start + i;
                assert(cur[m] == prev[m]);
            } else {
                assert(cur[prev.len() as int] == start + n);
            }
        }
        assert forall|m: int| #![trigger cur[m]] 0 <= m < cur.len() implies exists|i: int|
            #![trigger bits[i]]
            0 <= i < bits.len() && !bits[i] && cur[m] == start + i by {
            if m < prev.len() {
                let i = choose|i: int| #![trigger init[i]] 0 <= i < init.len() && !init[i] && prev[m] == start + i;
                assert(init[i] == bits[i]);
                assert(cur[m] == prev[m]);
                assert(0 <= i < bits.len() && !bits[i] && cur[m] == start + i);
            } else {
                assert(!bits[n]);
                assert(cur[m] == start + n);
                assert(0 <= n < bits.len() && !bits[n] && cur[m] == start + n);
            }
        }
        assert forall|m1: int, m2: int| 0 <= m1 < m2 < cur.len() implies #[trigger] cur[m1] < #[trigger] cur[m2] by {
            if m2 < prev.len() {
                assert(cur[m1] == prev[m1] && cur[m2] == prev[m2]);
            } else {
                assert(cur[m1] == prev[m1]);
                let i = choose|i: int| 0 <= i < init.len() && !init[i] && #[trigger] prev[m1] == start + i;
            }
        }
    }
}

/// The unused-variable warnings of a scope: one for each binder that nothing
/// uses, naming it, and no other.
pub proof fn law_scope_unused_warnings(v: DbView, pid: PID, s: ScopeInfo)
    ensures
        scope_unused_warnings(v, pid, s).len() == s.uses_bits().len() - count_true(s.uses_bits()),
        forall|i: int|
            0 <= i < s.uses_bits().len() && !s.uses_bits()[i] ==> scope_unused_warnings(v, pid, s).contains(
                unused_warning(v, pid, s.start() + i),
            ),
        forall|m: int|
            0 <= m < scope_unused_warnings(v, pid, s).len() ==> exists|i: int|
                #![trigger s.uses_bits()[i]]
                0 <= i < s.uses_bits().len() && !s.uses_bits()[i] && #[trigger] scope_unused_warnings(v, pid, s)[m]
                    == unused_warning(v, pid, s.start() + i),
{
    let bits = s.uses_bits();
    let ids = bit_ids(bits, false, s.start() as int);
    let w = scope_unused_warnings(v, pid, s);
    lemma_clear_ids(bits, s.start() as int);
    assert forall|i: int| 0 <= i < bits.len() && !bits[i] implies w.contains(unused_warning(v, pid, s.start() + i)) by {
        let m = choose|m: int| 0 <= m < ids.len() && ids[m] == s.start() + i;
        assert(w[m] == unused_warning(v, pid, ids[m]));
    }
    assert forall|m: int| 0 <= m < w.len() implies exists|i: int|
        #![trigger bits[i]]
        0 <= i < bits.len() && !bits[i] && #[trigger] w[m] == unused_warning(v, pid, s.start() + i) by {
        let i = choose|i: int| #![trigger bits[i]] 0 <= i < bits.len() && !bits[i] && ids[m] == s.start() + i;
        assert(w[m] == unused_warning(v, pid, ids[m]));
        assert(0 <= i < bits.len() && !bits[i] && w[m] == unused_warning(v, pid, s.start() + i));
    }
}

/// The unused-variable pass over the first `n` processes warns about every
/// unused binder of every scope among them.
pub proof fn law_unused_warnings_cover(v: DbView, n: int, p: int, i: int)
    requires
        0 <= p < n <= v.scopes.len(),
        v.scopes[p] is Some,
        0 <= i < v.scopes[p]->0.uses_bits().len(),
        !v.scopes[p]->0.uses_bits()[i],
    ensures
        unused_warnings(v, n).contains(unused_warning(v, PID(p as u32), v.scopes[p]->0.start() + i)),
    decreases n,
{
    let d = unused_warning(v, PID(p as u32), v.scopes[p]->0.start() + i);
    let prev = unused_warnings(v, n - 1);
    if p == n - 1 {
        law_scope_unused_warnings(v, PID(p as u32), v.scopes[p]->0);
        let w = scope_unused_warnings(v, PID(p as u32), v.scopes[p]->0);
        let m = choose|m: int| 0 <= m < w.len() && w[m] == d;
        assert(unused_warnings(v, n)[prev.len() + m] == w[m]);
    } else {
        law_unused_warnings_cover(v, n - 1, p, i);
        let m = choose|m: int| 0 <= m < prev.len() && prev[m] == d;
        assert(unused_warnings(v, n)[m] == prev[m]);
    }
}


/// Every warning of the unused-variable pass over the first `n` processes is
/// about a binder that nothing uses, of the scope of one of them.
#[verifier::spinoff_prover]
pub proof fn law_unused_warnings_sound(v: DbView, n: int)
    requires
        0 <= n <= v.scopes.len(),
    ensures
        forall|m: int|
            #![trigger unused_warnings(v, n)[m]]
            0 <= m < unused_warnings(v, n).len() ==> exists|p: int, i: int|
                #![trigger v.scopes[p]->0.uses_bits()[i]]
                0 <= p < n && v.scopes[p] is Some && 0 <= i < v.scopes[p]->0.uses_bits().len()
                    && !v.scopes[p]->0.uses_bits()[i] && unused_warnings(v, n)[m] == unused_warning(
                    v,
                    PID(p as u32),
                    v.scopes[p]->0.start() + i,
                ),
    decreases n,
{
    if n == 0 {
        assert(unused_warnings(v, n).len() == 0);
    }
    if n > 0 {
        law_unused_warnings_sound(v, n - 1);
        let prev = unused_warnings(v, n - 1);
        let cur = unused_warnings(v, n);
        assert forall|m: int|
            #![trigger unused_warnings(v, n)[m]]
            0 <= m < unused_warnings(v, n).len() implies exists|p: int, i: int|
            #![trigger v.scopes[p]->0.uses_bits()[i]]
            0 <= p < n && v.scopes[p] is Some && 0 <= i < v.scopes[p]->0.uses_bits().len()
                && !v.scopes[p]->0.uses_bits()[i] && unused_warnings(v, n)[m] == unused_warning(
                v,
                PID(p as u32),
                v.scopes[p]->0.start() + i,
            ) by {
            if m < prev.len() {
                assert(cur[m] == prev[m]);
                let (p, i) = choose|p: int, i: int|
                    #![trigger v.scopes[p]->0.uses_bits()[i]]
                    0 <= p < n - 1 && v.scopes[p] is Some && 0 <= i < v.scopes[p]->0.uses_bits().len()
                        && !v.scopes[p]->0.uses_bits()[i] && prev[m] == unused_warning(
                        v,
                        PID(p as u32),
                        v.scopes[p]->0.start() + i,
                    );
                assert(0 <= p < n && v.scopes[p] is Some && 0 <= i < v.scopes[p]->0.uses_bits().len()
                    && !v.scopes[p]->0.uses_bits()[i] && cur[m] == unused_warning(
                    v,
                    PID(p as u32),
                    v.scopes[p]->0.start() + i,
                ));
            } else {
                let p = n - 1;
                if v.scopes[p] is None {
                    assert(cur =~= prev);
                }
                assert(v.scopes[p] is Some);
                let s = v.scopes[p]->0;
                law_scope_unused_warnings(v, PID(p as u32), s);
                let w = scope_unused_warnings(v, PID(p as u32), s);
                assert(cur[m] == w[m - prev.len()]);
                let i = choose|i: int|
                    #![trigger s.uses_bits()[i]]
                    0 <= i < s.uses_bits().len() && !s.uses_bits()[i] && w[m - prev.len()]
                        == unused_warning(v, PID(p as u32), s.start() + i);
                assert(0 <= p < n && v.scopes[p] is Some && 0 <= i < v.scopes[p]->0.uses_bits().len()
                    && !v.scopes[p]->0.uses_bits()[i] && cur[m] == unused_warning(
                    v,
                    PID(p as u32),
                    v.scopes[p]->0.start() + i,
                ));
            }
        }
    }
}

} // verus!
