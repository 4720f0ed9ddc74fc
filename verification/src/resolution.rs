//! Resolution of the variables in the body of a `for` comprehension against
//! the scope that the comprehension's patterns introduce.
use crate::ast::{AnnProc, Case, Collection, Id, KeyValue, Name, Proc, SyncSendCont, Var};
use crate::db::{db_wf, lookup_binding, scoped, DbView, SemanticDb};
use crate::elab_errors::{has_text, ElaborationError, ElaborationResult};
use crate::scope::ScopeInfo;
use crate::types::{Binder, BinderId, BinderKind, Symbol, SymbolOccurrence, VarBinding, PID};
use vstd::prelude::*;
use vstd::string::StringExecFns;

verus! {

/// The first binder of `binders[start..end]` named `sym`.
pub open spec fn first_binder_named(binders: Seq<Binder>, start: int, end: int, sym: Symbol) -> Option<
    BinderId,
>
    decreases end - start,
{
    if end <= start {
        None
    } else if binders[start].name == sym {
        Some(BinderId(start as u32))
    } else {
        first_binder_named(binders, start + 1, end, sym)
    }
}

/// The symbol of an interned string.
pub open spec fn symbol_index(strings: Seq<Seq<char>>, name: Seq<char>) -> Symbol {
    Symbol((choose|i: int| 0 <= i < strings.len() && strings[i] == name) as u32)
}

/// The variable occurrences that the resolver visits in `p`, in order, each
/// with whether a name is expected there.  Nested `for` comprehensions are
/// skipped; they are resolved on their own.
pub open spec fn body_vars(p: AnnProc, in_name: bool) -> Seq<(Id, bool)>
    decreases p, 0nat,
{
    match p.proc {
        Proc::ProcVar(Var::Id(id)) => seq![(id, in_name)],
        Proc::Eval { name } => name_vars(name),
        Proc::Send { channel, inputs, .. } => name_vars(channel) + seq_vars(inputs@),
        Proc::Par { left, right } => body_vars(*left, in_name) + body_vars(*right, in_name),
        Proc::Collection(c) => match c {
            Collection::List { elements, .. } => seq_vars(elements@),
            Collection::SetOf { elements, .. } => seq_vars(elements@),
            Collection::Tuple(elements) => seq_vars(elements@),
            Collection::MapOf { elements, .. } => pairs_vars(elements@),
        },
        Proc::BinaryExp { left, right, .. } => body_vars(*left, in_name) + body_vars(*right, in_name),
        Proc::UnaryExp { arg, .. } => body_vars(*arg, in_name),
        Proc::IfThenElse { condition, if_true, if_false } => body_vars(*condition, false) + body_vars(
            *if_true,
            false,
        ) + match if_false {
            Some(f) => body_vars(*f, false),
            None => Seq::empty(),
        },
        Proc::Match { expression, cases } => body_vars(*expression, false) + cases_vars(cases@),
        Proc::New { proc, .. } => body_vars(*proc, false),
        Proc::Let { body, .. } => body_vars(*body, false),
        Proc::Bundle { proc, .. } => body_vars(*proc, in_name),
        Proc::Contract { body, .. } => body_vars(*body, false),
        Proc::SendSync { channel, inputs, cont } => name_vars(channel) + seq_vars(inputs@) + match cont {
            SyncSendCont::Empty => Seq::empty(),
            SyncSendCont::NonEmpty(c) => body_vars(*c, false),
        },
        Proc::Method { receiver, args, .. } => body_vars(*receiver, false) + seq_vars(args@),
        Proc::VarRef { var, .. } => seq![(var, false)],
        _ => Seq::empty(),
    }
}

pub open spec fn name_vars(n: Name) -> Seq<(Id, bool)>
    decreases n, 0nat,
{
    match n {
        Name::NameVar(Var::Id(id)) => seq![(id, true)],
        Name::NameVar(Var::Wildcard) => Seq::empty(),
        Name::Quote(p) => body_vars(*p, true),
    }
}

pub open spec fn seq_vars(ps: Seq<AnnProc>) -> Seq<(Id, bool)>
    decreases ps, 0nat,
{
    if ps.len() == 0 {
        Seq::empty()
    } else {
        seq_vars(ps.drop_last()) + body_vars(ps.last(), false)
    }
}

pub open spec fn pairs_vars(ps: Seq<KeyValue>) -> Seq<(Id, bool)>
    decreases ps, 0nat,
{
    if ps.len() == 0 {
        Seq::empty()
    } else {
        pairs_vars(ps.drop_last()) + body_vars(ps.last().key, false) + body_vars(ps.last().value, false)
    }
}

pub open spec fn cases_vars(cs: Seq<Case>) -> Seq<(Id, bool)>
    decreases cs, 0nat,
{
    if cs.len() == 0 {
        Seq::empty()
    } else {
        cases_vars(cs.drop_last()) + body_vars(cs.last().proc, false)
    }
}

/// The error for the occurrence `id` (a name expected there when `expects`)
/// in the body of the `for` with PID `pid`: unbound when the comprehension's
/// scope has no binder of that name, a kind mismatch when its first binder of
/// that name is of the other kind, none otherwise.
pub open spec fn var_error(v: DbView, pid: PID, id: Id, expects: bool) -> Option<ElaborationError> {
    let scope = v.scopes[pid.0 as int]->0;
    let sym = symbol_index(v.strings, id.name@);
    match first_binder_named(v.binders, scope.start() as int, scope.end() as int, sym) {
        Some(b) => if (v.binders[b.0 as int].kind is Name) != expects {
            Some(
                if expects {
                    ElaborationError::ProcInNamePosition {
                        pid,
                        binder: b,
                        symbol: sym,
                        pos: Some(id.pos),
                    }
                } else {
                    ElaborationError::NameInProcPosition {
                        pid,
                        binder: b,
                        symbol: sym,
                        pos: Some(id.pos),
                    }
                },
            )
        } else {
            None
        },
        None => Some(ElaborationError::UnboundVariable { pid, var: sym, pos: id.pos }),
    }
}

/// The errors of the occurrences `vars`, in order.
pub open spec fn var_errors(v: DbView, pid: PID, vars: Seq<(Id, bool)>) -> Seq<ElaborationError>
    decreases vars.len(),
{
    if vars.len() == 0 {
        Seq::empty()
    } else {
        var_errors(v, pid, vars.drop_last()) + match var_error(
            v,
            pid,
            vars.last().0,
            vars.last().1,
        ) {
            Some(e) => seq![e],
            None => Seq::empty(),
        }
    }
}

/// Every name of `vars` is interned in `strings`.
pub open spec fn names_interned(strings: Seq<Seq<char>>, vars: Seq<(Id, bool)>) -> bool {
    forall|i: int| 0 <= i < vars.len() ==> strings.contains(#[trigger] vars[i].0.name@)
}

/// The binder that an occurrence named `sym` gets in the scope of the
/// comprehension `pid`: the first binder of that name.
pub open spec fn scope_binding(v: DbView, pid: PID, sym: Symbol) -> Option<BinderId> {
    let scope = v.scopes[pid.0 as int]->0;
    first_binder_named(v.binders, scope.start() as int, scope.end() as int, sym)
}

/// `n` is the scope `o` with, possibly, more of its binders marked used.
pub open spec fn uses_grown(o: ScopeInfo, n: ScopeInfo) -> bool {
    &&& n.start() == o.start()
    &&& n.num() == o.num()
    &&& n.free_bits() == o.free_bits()
    &&& n.capture_bits() == o.capture_bits()
    &&& n.spec_span() == o.spec_span()
    &&& n.uses_bits().len() == o.uses_bits().len()
    &&& forall|i: int| 0 <= i < o.uses_bits().len() && o.uses_bits()[i] ==> #[trigger] n.uses_bits()[i]
}

/// Binder `b` of scope `s` is marked used.
pub open spec fn used_in(s: ScopeInfo, b: BinderId) -> bool {
    s.uses_bits()[b.0 - s.start()]
}

/// What resolving variables may do to the database: intern strings, bind
/// occurrences to the first binder of their name in the scope of `pid`, and
/// mark binders of that scope used.
pub open spec fn resolves_only(o: DbView, n: DbView, pid: PID) -> bool {
    &&& n.procs == o.procs
    &&& n.binders == o.binders
    &&& n.enclosing == o.enclosing
    &&& n.diags == o.diags
    &&& o.strings.len() <= n.strings.len()
    &&& n.strings.take(o.strings.len() as int) == o.strings
    &&& n.scopes.len() == o.scopes.len()
    &&& forall|j: int| 0 <= j < o.scopes.len() && j != pid.0 ==> #[trigger] n.scopes[j] == o.scopes[j]
    &&& scoped(o, pid) ==> scoped(n, pid) && uses_grown(
        o.scopes[pid.0 as int]->0,
        n.scopes[pid.0 as int]->0,
    )
    &&& !scoped(o, pid) ==> n.scopes == o.scopes
    &&& forall|occ: SymbolOccurrence|
        #[trigger] lookup_binding(n.bound, occ) != lookup_binding(o.bound, occ) ==> scope_binding(
            o,
            pid,
            occ.symbol,
        ) is Some && lookup_binding(n.bound, occ) == Some(
            VarBinding::Bound(scope_binding(o, pid, occ.symbol)->0),
        )
}

/// The occurrence `id`, its name read against the string table of `v`.
pub open spec fn occurrence_of(v: DbView, id: Id) -> SymbolOccurrence {
    SymbolOccurrence { symbol: symbol_index(v.strings, id.name@), position: id.pos }
}

/// Every occurrence of `vars` that resolves without error is bound to the
/// first binder of its name in the scope of `pid`, and that binder is marked
/// used there.
pub open spec fn resolved(v: DbView, pid: PID, vars: Seq<(Id, bool)>) -> bool {
    forall|i: int|
        0 <= i < vars.len() && var_error(v, pid, (#[trigger] vars[i]).0, vars[i].1) is None ==> {
            let occ = occurrence_of(v, vars[i].0);
            let b = scope_binding(v, pid, occ.symbol)->0;
            lookup_binding(v.bound, occ) == Some(VarBinding::Bound(b)) && used_in(
                v.scopes[pid.0 as int]->0,
                b,
            )
        }
}

/// The first binder of a name lies in the range searched and has that name.
pub proof fn lemma_first_binder_named(binders: Seq<Binder>, start: int, end: int, sym: Symbol)
    requires
        0 <= start,
        end <= binders.len(),
        end <= u32::MAX,
    ensures
        first_binder_named(binders, start, end, sym) matches Some(b) ==> start <= b.0 < end
            && binders[b.0 as int].name == sym,
    decreases end - start,
{
    if start < end && binders[start].name != sym {
        lemma_first_binder_named(binders, start + 1, end, sym);
    }
}

/// Doing nothing is a resolution step.
proof fn lemma_resolves_only_refl(v: DbView, pid: PID)
    ensures
        resolves_only(v, v, pid),
{
    assert(v.strings.take(v.strings.len() as int) =~= v.strings);
}

/// Two resolution steps make one.
proof fn lemma_resolves_only_trans(d0: DbView, d1: DbView, d2: DbView, pid: PID)
    requires
        resolves_only(d0, d1, pid),
        resolves_only(d1, d2, pid),
    ensures
        resolves_only(d0, d2, pid),
{
    assert(d2.strings.take(d0.strings.len() as int) =~= d2.strings.take(d1.strings.len() as int).take(
        d0.strings.len() as int,
    ));
    assert forall|occ: SymbolOccurrence|
        #[trigger] lookup_binding(d2.bound, occ) != lookup_binding(d0.bound, occ) implies scope_binding(
            d0,
            pid,
            occ.symbol,
        ) is Some && lookup_binding(d2.bound, occ) == Some(
            VarBinding::Bound(scope_binding(d0, pid, occ.symbol)->0),
        ) by {
        assert(scope_binding(d1, pid, occ.symbol) == scope_binding(d0, pid, occ.symbol));
        if lookup_binding(d2.bound, occ) == lookup_binding(d1.bound, occ) {
            assert(lookup_binding(d1.bound, occ) != lookup_binding(d0.bound, occ));
        }
    }
}

/// Resolution facts about `a` survive a later resolution step.
proof fn lemma_resolved_stable(d1: DbView, d2: DbView, pid: PID, a: Seq<(Id, bool)>)
    requires
        resolves_only(d1, d2, pid),
        db_wf(d2),
        scoped(d1, pid),
        names_interned(d1.strings, a),
        resolved(d1, pid, a),
    ensures
        resolved(d2, pid, a),
{
    assert forall|i: int|
        0 <= i < a.len() && var_error(d2, pid, (#[trigger] a[i]).0, a[i].1) is None implies {
            let occ = occurrence_of(d2, a[i].0);
            let b = scope_binding(d2, pid, occ.symbol)->0;
            lookup_binding(d2.bound, occ) == Some(VarBinding::Bound(b)) && used_in(
                d2.scopes[pid.0 as int]->0,
                b,
            )
        } by {
        lemma_symbol_index_stable(d1.strings, d2.strings, a[i].0.name@);
        assert(d1.strings.contains(a[i].0.name@));
        let occ = occurrence_of(d1, a[i].0);
        assert(occurrence_of(d2, a[i].0) == occ);
        let s1 = d1.scopes[pid.0 as int]->0;
        let s2 = d2.scopes[pid.0 as int]->0;
        assert(scope_binding(d2, pid, occ.symbol) == scope_binding(d1, pid, occ.symbol));
        assert(var_error(d1, pid, a[i].0, a[i].1) is None);
        assert(s2.end() <= d2.binders.len());
        lemma_first_binder_named(d1.binders, s1.start() as int, s1.end() as int, occ.symbol);
        let b = scope_binding(d1, pid, occ.symbol)->0;
        assert(s1.uses_bits()[b.0 - s1.start()]);
        assert(s2.uses_bits()[b.0 - s2.start()]);
    }
}

/// Resolution facts about two runs of occurrences make one about both.
proof fn lemma_resolved_append(v: DbView, pid: PID, a: Seq<(Id, bool)>, b: Seq<(Id, bool)>)
    requires
        resolved(v, pid, a),
        resolved(v, pid, b),
    ensures
        resolved(v, pid, a + b),
{
    assert forall|i: int|
        0 <= i < (a + b).len() && var_error(v, pid, (#[trigger] (a + b)[i]).0, (a + b)[i].1) is None implies {
            let occ = occurrence_of(v, (a + b)[i].0);
            let bd = scope_binding(v, pid, occ.symbol)->0;
            lookup_binding(v.bound, occ) == Some(VarBinding::Bound(bd)) && used_in(
                v.scopes[pid.0 as int]->0,
                bd,
            )
        } by {
        if i < a.len() {
            assert((a + b)[i] == a[i]);
        } else {
            assert((a + b)[i] == b[i - a.len()]);
        }
    }
}

pub proof fn lemma_symbol_index_stable(s1: Seq<Seq<char>>, s2: Seq<Seq<char>>, name: Seq<char>)
    requires
        s1.len() <= s2.len(),
        s2.take(s1.len() as int) == s1,
        s2.no_duplicates(),
        s1.contains(name),
    ensures
        symbol_index(s1, name) == symbol_index(s2, name),
{
    let i = choose|i: int| 0 <= i < s1.len() && s1[i] == name;
    assert(s2[i] == s1[i]) by {
        assert(s2.take(s1.len() as int)[i] == s2[i]);
    }
    let j = choose|j: int| 0 <= j < s2.len() && s2[j] == name;
    assert(i == j);
}

proof fn lemma_var_errors_stable(v1: DbView, v2: DbView, pid: PID, vars: Seq<(Id, bool)>)
    requires
        resolves_only(v1, v2, pid),
        v2.strings.no_duplicates(),
        names_interned(v1.strings, vars),
    ensures
        var_errors(v1, pid, vars) == var_errors(v2, pid, vars),
    decreases vars.len(),
{
    if vars.len() > 0 {
        assert(names_interned(v1.strings, vars.drop_last())) by {
            assert forall|i: int| 0 <= i < vars.drop_last().len() implies v1.strings.contains(
                #[trigger] vars.drop_last()[i].0.name@,
            ) by {
                assert(vars.drop_last()[i] == vars[i]);
            }
        }
        lemma_var_errors_stable(v1, v2, pid, vars.drop_last());
        assert(v1.strings.contains(vars[vars.len() - 1].0.name@));
        lemma_symbol_index_stable(v1.strings, v2.strings, vars.last().0.name@);
    }
}

proof fn lemma_var_errors_append(v: DbView, pid: PID, a: Seq<(Id, bool)>, b: Seq<(Id, bool)>)
    ensures
        var_errors(v, pid, a + b) == var_errors(v, pid, a) + var_errors(v, pid, b),
    decreases b.len(),
{
    if b.len() == 0 {
        assert(a + b =~= a);
    } else {
        lemma_var_errors_append(v, pid, a, b.drop_last());
        assert((a + b).drop_last() =~= a + b.drop_last());
    }
}

/// The only bindings that change from `od` to `nd` are those of occurrences
/// of `found` that resolve without error, and the only binders newly marked
/// used in the scope of `pid` are theirs.
pub open spec fn changes_only(od: DbView, nd: DbView, pid: PID, found: Seq<(Id, bool)>) -> bool {
    &&& forall|occ: SymbolOccurrence|
        #[trigger] lookup_binding(nd.bound, occ) != lookup_binding(od.bound, occ) ==> exists|i: int|
            0 <= i < found.len() && occurrence_of(nd, (#[trigger] found[i]).0) == occ && var_error(
                nd,
                pid,
                found[i].0,
                found[i].1,
            ) is None
    &&& scoped(od, pid) ==> forall|j: int|
        0 <= j < od.scopes[pid.0 as int]->0.uses_bits().len() && #[trigger] nd.scopes[pid.0 as int]->0.uses_bits()[j]
            && !od.scopes[pid.0 as int]->0.uses_bits()[j] ==> exists|i: int|
            0 <= i < found.len() && var_error(nd, pid, (#[trigger] found[i]).0, found[i].1) is None
                && (scope_binding(nd, pid, occurrence_of(nd, found[i].0).symbol)->0).0
                == od.scopes[pid.0 as int]->0.start() + j
}

/// The changes of two traversals in a row are those of the concatenated occurrences.
proof fn lemma_changes_only_trans(
    d0: DbView,
    d1: DbView,
    d2: DbView,
    pid: PID,
    a: Seq<(Id, bool)>,
    b: Seq<(Id, bool)>,
)
    requires
        resolves_only(d0, d1, pid),
        resolves_only(d1, d2, pid),
        changes_only(d0, d1, pid, a),
        changes_only(d1, d2, pid, b),
        names_interned(d1.strings, a),
        d2.strings.no_duplicates(),
    ensures
        changes_only(d0, d2, pid, a + b),
{
    assert forall|i: int| 0 <= i < a.len() implies #[trigger] occurrence_of(d2, a[i].0) == occurrence_of(d1, a[i].0)
        && var_error(d2, pid, a[i].0, a[i].1) == var_error(d1, pid, a[i].0, a[i].1) by {
        assert(d1.strings.contains(a[i].0.name@));
        lemma_symbol_index_stable(d1.strings, d2.strings, a[i].0.name@);
    }
    assert forall|occ: SymbolOccurrence|
        #[trigger] lookup_binding(d2.bound, occ) != lookup_binding(d0.bound, occ) implies exists|i: int|
            0 <= i < (a + b).len() && occurrence_of(d2, (#[trigger] (a + b)[i]).0) == occ && var_error(
                d2,
                pid,
                (a + b)[i].0,
                (a + b)[i].1,
            ) is None by {
        if lookup_binding(d2.bound, occ) != lookup_binding(d1.bound, occ) {
            let i = choose|i: int|
                0 <= i < b.len() && occurrence_of(d2, (#[trigger] b[i]).0) == occ && var_error(d2, pid, b[i].0, b[i].1)
                    is None;
            assert((a + b)[a.len() + i] == b[i]);
        } else {
            let i = choose|i: int|
                0 <= i < a.len() && occurrence_of(d1, (#[trigger] a[i]).0) == occ && var_error(d1, pid, a[i].0, a[i].1)
                    is None;
            assert(occurrence_of(d2, a[i].0) == occurrence_of(d1, a[i].0));
            assert((a + b)[i] == a[i]);
        }
    }
    if scoped(d0, pid) {
        let s0 = d0.scopes[pid.0 as int]->0;
        let s1 = d1.scopes[pid.0 as int]->0;
        let s2 = d2.scopes[pid.0 as int]->0;
        assert forall|j: int|
            0 <= j < s0.uses_bits().len() && #[trigger] s2.uses_bits()[j] && !s0.uses_bits()[j] implies exists|i: int|
                0 <= i < (a + b).len() && var_error(d2, pid, (#[trigger] (a + b)[i]).0, (a + b)[i].1) is None
                    && (scope_binding(d2, pid, occurrence_of(d2, (a + b)[i].0).symbol)->0).0 == s0.start() + j by {
            if !s1.uses_bits()[j] {
                let i = choose|i: int|
                    0 <= i < b.len() && var_error(d2, pid, (#[trigger] b[i]).0, b[i].1) is None
                        && (scope_binding(d2, pid, occurrence_of(d2, b[i].0).symbol)->0).0 == s1.start() + j;
                assert((a + b)[a.len() + i] == b[i]);
            } else {
                let i = choose|i: int|
                    0 <= i < a.len() && var_error(d1, pid, (#[trigger] a[i]).0, a[i].1) is None
                        && (scope_binding(d1, pid, occurrence_of(d1, a[i].0).symbol)->0).0 == s0.start() + j;
                assert(occurrence_of(d2, a[i].0) == occurrence_of(d1, a[i].0));
                assert(scope_binding(d2, pid, occurrence_of(d1, a[i].0).symbol) == scope_binding(
                    d1,
                    pid,
                    occurrence_of(d1, a[i].0).symbol,
                ));
                assert((a + b)[i] == a[i]);
            }
        }
    }
}

/// Resolves the variables in the body of one `for` comprehension against its
/// scope: binds each occurrence to its binder and marks that binder used,
/// collecting the errors it finds.
pub struct VariableResolver {
    pub for_comp_pid: PID,
    pub errors: Vec<ElaborationError>,
}

/// The postcondition shared by the traversal functions: `found` are the
/// occurrences visited.
pub open spec fn traversal_post(
    od: DbView,
    nd: DbView,
    pid: PID,
    old_errors: Seq<ElaborationError>,
    new_errors: Seq<ElaborationError>,
    found: Seq<(Id, bool)>,
    r: ElaborationResult<()>,
) -> bool {
    &&& resolves_only(od, nd, pid)
    &&& nd.strings.len() <= od.strings.len() + found.len()
    &&& scoped(od, pid) ==> r is Ok
    &&& found.len() == 0 ==> r is Ok
    &&& !scoped(od, pid) && found.len() > 0 ==> r is Err
    &&& r is Ok ==> new_errors == old_errors + var_errors(nd, pid, found) && names_interned(nd.strings, found)
        && resolved(nd, pid, found) && changes_only(od, nd, pid, found)
    &&& r is Err ==> forall|occ: SymbolOccurrence|
        #[trigger] lookup_binding(nd.bound, occ) == lookup_binding(od.bound, occ)
    &&& r matches Err(e) ==> e matches ElaborationError::IncompleteAstNode { pid: p, position, reason }
        && p == pid && position == Some(found[0].0.pos) && reason@ == "For-comprehension scope not built yet"@
}

impl VariableResolver {
    pub fn new(for_comp_pid: PID) -> (r: Self)
        ensures
            r.for_comp_pid == for_comp_pid,
            r.errors@.len() == 0,
    {
        VariableResolver { for_comp_pid, errors: Vec::new() }
    }

    /// The errors found so far.
    pub fn errors(&self) -> (r: &[ElaborationError])
        ensures
            r@ == self.errors@,
    {
        self.errors.as_slice()
    }

    /// Resolves every variable of `body`; on success, returns all errors
    /// found so far.
    pub fn resolve_body(&mut self, db: &mut SemanticDb, body: &AnnProc) -> (r: ElaborationResult<
        Vec<ElaborationError>,
    >)
        requires
            old(db).inv(),
            old(db)@.strings.len() + body_vars(*body, false).len() <= u32::MAX,
        ensures
            final(db).inv(),
            final(self).for_comp_pid == old(self).for_comp_pid,
            resolves_only(old(db)@, final(db)@, old(self).for_comp_pid),
            r is Ok ==> resolved(final(db)@, old(self).for_comp_pid, body_vars(*body, false)),
            r is Ok ==> changes_only(old(db)@, final(db)@, old(self).for_comp_pid, body_vars(*body, false)),
            r is Err ==> forall|occ: SymbolOccurrence|
                #[trigger] lookup_binding(final(db)@.bound, occ) == lookup_binding(old(db)@.bound, occ),
            scoped(old(db)@, old(self).for_comp_pid) || body_vars(*body, false).len() == 0
                <==> r is Ok,
            r matches Ok(errs) ==> final(self).errors@ == old(self).errors@ + var_errors(
                final(db)@,
                old(self).for_comp_pid,
                body_vars(*body, false),
            ) && errs@.len() == final(self).errors@.len() && forall|i: int|
                0 <= i < errs@.len() ==> !has_text(#[trigger] final(self).errors@[i]) ==> errs@[i]
                    == final(self).errors@[i],
            r matches Err(e) ==> e matches ElaborationError::IncompleteAstNode {
                pid: p,
                position,
                reason,
            } && p == old(self).for_comp_pid && position == Some(body_vars(*body, false)[0].0.pos)
                && reason@ == "For-comprehension scope not built yet"@,
    {
        let res = self.traverse_proc(db, body, false);
        match res {
            Ok(()) => {
                let mut copy: Vec<ElaborationError> = Vec::new();
                let mut i: usize = 0;
                while i < self.errors.len()
                    invariant
                        i <= self.errors@.len(),
                        copy@.len() == i,
                        forall|k: int|
                            0 <= k < i ==> !has_text(#[trigger] self.errors@[k]) ==> copy@[k]
                                == self.errors@[k],
                    decreases self.errors@.len() - i,
                {
                    copy.push(self.errors[i].duplicate());
                    i = i + 1;
                }
                Ok(copy)
            },
            Err(e) => Err(e),
        }
    }

    /// Resolves the variables of `p`; `in_name` tells whether a variable
    /// standing for `p` itself is in name position.
    fn traverse_proc(&mut self, db: &mut SemanticDb, p: &AnnProc, in_name: bool) -> (r:
        ElaborationResult<()>)
        requires
            old(db).inv(),
            old(db)@.strings.len() + body_vars(*p, in_name).len() <= u32::MAX,
        ensures
            final(db).inv(),
            final(self).for_comp_pid == old(self).for_comp_pid,
            traversal_post(
                old(db)@,
                final(db)@,
                old(self).for_comp_pid,
                old(self).errors@,
                final(self).errors@,
                body_vars(*p, in_name),
                r,
            ),
        decreases *p, 0nat,
    {
        match &p.proc {
            Proc::ProcVar(var) => self.resolve_proc_var(db, var, in_name),
            Proc::Eval { name } => self.traverse_name(db, name),
            Proc::Send { channel, inputs, .. } => {
                let ghost d0 = db@;
                let ghost e0 = self.errors@;
                self.traverse_name(db, channel)?;
                let ghost d1 = db@;
                let ghost e1 = self.errors@;
                let r = self.traverse_seq(db, inputs);
                proof {
                    db.lemma_inv_wf();
                    self.lemma_compose(d0, d1, db@, e0, e1, name_vars(*channel), seq_vars(inputs@), r);
                }
                r
            },
            Proc::Par { left, right } | Proc::BinaryExp { left, right, .. } => {
                let ghost d0 = db@;
                let ghost e0 = self.errors@;
                self.traverse_proc(db, left, in_name)?;
                let ghost d1 = db@;
                let ghost e1 = self.errors@;
                let r = self.traverse_proc(db, right, in_name);
                proof {
                    db.lemma_inv_wf();
                    self.lemma_compose(d0, d1, db@, e0, e1, body_vars(**left, in_name), body_vars(**right, in_name), r);
                }
                r
            },
            Proc::Collection(c) => self.traverse_collection(db, c),
            Proc::UnaryExp { arg, .. } => self.traverse_proc(db, arg, in_name),
            Proc::IfThenElse { condition, if_true, if_false } => {
                let ghost d0 = db@;
                let ghost e0 = self.errors@;
                self.traverse_proc(db, condition, false)?;
                let ghost d1 = db@;
                let ghost e1 = self.errors@;
                let r1 = self.traverse_proc(db, if_true, false);
                proof {
                    db.lemma_inv_wf();
                    self.lemma_compose(d0, d1, db@, e0, e1, body_vars(**condition, false), body_vars(**if_true, false), r1);
                }
                match r1 {
                    Ok(()) => {},
                    Err(e) => {
                        proof {
                            let rest = match if_false {
                                Some(f) => body_vars(**f, false),
                                None => Seq::<(Id, bool)>::empty(),
                            };
                            lemma_err_extends(d0, db@, self.for_comp_pid, e0, self.errors@,
                                body_vars(**condition, false) + body_vars(**if_true, false), rest, Err(e));
                        }
                        return Err(e);
                    },
                }
                let ghost d2 = db@;
                let ghost e2 = self.errors@;
                let ghost front = body_vars(**condition, false) + body_vars(**if_true, false);
                match if_false {
                    Some(f) => {
                        let r = self.traverse_proc(db, f, false);
                        proof {
                            db.lemma_inv_wf();
                            self.lemma_compose(d0, d2, db@, e0, e2, front, body_vars(**f, false), r);
                        }
                        r
                    },
                    None => {
                        proof {
                            assert(front + Seq::<(Id, bool)>::empty() =~= front);
                        }
                        Ok(())
                    },
                }
            },
            Proc::Match { expression, cases } => {
                let ghost d0 = db@;
                let ghost e0 = self.errors@;
                self.traverse_proc(db, expression, false)?;
                let ghost d1 = db@;
                let ghost e1 = self.errors@;
                let r = self.traverse_cases(db, cases);
                proof {
                    db.lemma_inv_wf();
                    self.lemma_compose(d0, d1, db@, e0, e1, body_vars(**expression, false), cases_vars(cases@), r);
                }
                r
            },
            Proc::New { proc, .. } => self.traverse_proc(db, proc, false),
            Proc::Let { body, .. } => self.traverse_proc(db, body, false),
            Proc::Bundle { proc, .. } => self.traverse_proc(db, proc, in_name),
            Proc::Contract { body, .. } => self.traverse_proc(db, body, false),
            Proc::SendSync { channel, inputs, cont } => {
                let ghost d0 = db@;
                let ghost e0 = self.errors@;
                self.traverse_name(db, channel)?;
                let ghost d1 = db@;
                let ghost e1 = self.errors@;
                let r1 = self.traverse_seq(db, inputs);
                proof {
                    db.lemma_inv_wf();
                    self.lemma_compose(d0, d1, db@, e0, e1, name_vars(*channel), seq_vars(inputs@), r1);
                }
                match r1 {
                    Ok(()) => {},
                    Err(e) => {
                        proof {
                            let rest = match cont {
                                SyncSendCont::Empty => Seq::<(Id, bool)>::empty(),
                                SyncSendCont::NonEmpty(c) => body_vars(**c, false),
                            };
                            lemma_err_extends(d0, db@, self.for_comp_pid, e0, self.errors@,
                                name_vars(*channel) + seq_vars(inputs@), rest, Err(e));
                        }
                        return Err(e);
                    },
                }
                let ghost d2 = db@;
                let ghost e2 = self.errors@;
                let ghost front = name_vars(*channel) + seq_vars(inputs@);
                match cont {
                    SyncSendCont::Empty => {
                        proof {
                            assert(front + Seq::<(Id, bool)>::empty() =~= front);
                        }
                        Ok(())
                    },
                    SyncSendCont::NonEmpty(c) => {
                        let r = self.traverse_proc(db, c, false);
                        proof {
                            db.lemma_inv_wf();
                            self.lemma_compose(d0, d2, db@, e0, e2, front, body_vars(**c, false), r);
                        }
                        r
                    },
                }
            },
            Proc::Method { receiver, args, .. } => {
                let ghost d0 = db@;
                let ghost e0 = self.errors@;
                self.traverse_proc(db, receiver, false)?;
                let ghost d1 = db@;
                let ghost e1 = self.errors@;
                let r = self.traverse_seq(db, args);
                proof {
                    db.lemma_inv_wf();
                    self.lemma_compose(d0, d1, db@, e0, e1, body_vars(**receiver, false), seq_vars(args@), r);
                }
                r
            },
            Proc::VarRef { var, .. } => self.resolve_variable(db, var, false),
            _ => {
                proof {
                    lemma_resolves_only_refl(db@, self.for_comp_pid);
                    assert(var_errors(db@, self.for_comp_pid, Seq::<(Id, bool)>::empty()) =~= Seq::<ElaborationError>::empty());
                    assert(self.errors@ + Seq::<ElaborationError>::empty() =~= self.errors@);
                    assert(db@.strings.take(db@.strings.len() as int) =~= db@.strings);
                }
                Ok(())
            },
        }
    }

    /// Two traversals in a row make one traversal of the concatenated occurrences.
    #[verifier::rlimit(40)]
    proof fn lemma_compose(
        &self,
        d0: DbView,
        d1: DbView,
        d2: DbView,
        e0: Seq<ElaborationError>,
        e1: Seq<ElaborationError>,
        a: Seq<(Id, bool)>,
        b: Seq<(Id, bool)>,
        r: ElaborationResult<()>,
    )
        requires
            traversal_post(d0, d1, self.for_comp_pid, e0, e1, a, Ok(())),
            traversal_post(d1, d2, self.for_comp_pid, e1, self.errors@, b, r),
            db_wf(d2),
        ensures
            traversal_post(d0, d2, self.for_comp_pid, e0, self.errors@, a + b, r),
    {
        let pid = self.for_comp_pid;
        lemma_resolves_only_trans(d0, d1, d2, pid);
        assert(d2.strings.take(d0.strings.len() as int) =~= d2.strings.take(d1.strings.len() as int).take(
            d0.strings.len() as int,
        ));
        if a.len() == 0 {
            assert(a + b =~= b);
            assert(var_errors(d1, pid, a) =~= Seq::<ElaborationError>::empty());
            assert(e1 =~= e0);
        } else {
            assert((a + b)[0] == a[0]);
        }
        if r is Err {
            assert(!scoped(d1, pid));
            assert(!scoped(d0, pid));
            assert(a.len() == 0);
            assert(a + b =~= b);
            assert forall|occ: SymbolOccurrence|
                #[trigger] lookup_binding(d2.bound, occ) == lookup_binding(d0.bound, occ) by {
                assert(lookup_binding(d2.bound, occ) == lookup_binding(d1.bound, occ));
            }
        }
        if r is Ok {
            if a.len() > 0 {
                lemma_resolved_stable(d1, d2, pid, a);
            }
            lemma_resolved_append(d2, pid, a, b);
            lemma_changes_only_trans(d0, d1, d2, pid, a, b);
            lemma_var_errors_append(d2, pid, a, b);
            lemma_var_errors_stable(d1, d2, pid, a);
            assert(e0 + var_errors(d1, pid, a) + var_errors(d2, pid, b) =~= e0 + (var_errors(d2, pid, a)
                + var_errors(d2, pid, b)));
            assert(names_interned(d2.strings, a + b)) by {
                assert forall|i: int| 0 <= i < (a + b).len() implies d2.strings.contains(
                    #[trigger] (a + b)[i].0.name@,
                ) by {
                    if i < a.len() {
                        assert((a + b)[i] == a[i]);
                        assert(d1.strings.contains(a[i].0.name@));
                        let k = choose|k: int| 0 <= k < d1.strings.len() && d1.strings[k] == a[i].0.name@;
                        assert(d2.strings.take(d1.strings.len() as int)[k] == d2.strings[k]);
                    } else {
                        assert((a + b)[i] == b[i - a.len()]);
                    }
                }
            }
        }
        if !scoped(d0, pid) && a.len() == 0 && b.len() > 0 {
            assert(!scoped(d1, pid));
        }
    }

    fn traverse_seq(&mut self, db: &mut SemanticDb, ps: &Vec<AnnProc>) -> (r: ElaborationResult<()>)
        requires
            old(db).inv(),
            old(db)@.strings.len() + seq_vars(ps@).len() <= u32::MAX,
        ensures
            final(db).inv(),
            final(self).for_comp_pid == old(self).for_comp_pid,
            traversal_post(old(db)@, final(db)@, old(self).for_comp_pid, old(self).errors@, final(self).errors@, seq_vars(ps@), r),
        decreases *ps, 0nat,
    {
        proof {
            assert(ps@.take(0) =~= Seq::<AnnProc>::empty());
            assert(db@.strings.take(db@.strings.len() as int) =~= db@.strings);
            assert(self.errors@ + Seq::<ElaborationError>::empty() =~= self.errors@);
        }
        let mut i: usize = 0;
        while i < ps.len()
            invariant
                i <= ps@.len(),
                db.inv(),
                self.for_comp_pid == old(self).for_comp_pid,
                old(db)@.strings.len() + seq_vars(ps@).len() <= u32::MAX,
                traversal_post(old(db)@, db@, self.for_comp_pid, old(self).errors@, self.errors@, seq_vars(ps@.take(i as int)), Ok(())),
            decreases ps@.len() - i,
        {
            proof {
                assert(ps@.take(i + 1).drop_last() =~= ps@.take(i as int));
                lemma_seq_vars_prefix(ps@, i + 1);
                db.lemma_inv_wf();
            }
            let ghost d1 = db@;
            let ghost e1 = self.errors@;
            let r = self.traverse_proc(db, &ps[i], false);
            proof {
                db.lemma_inv_wf();
                self.lemma_compose(old(db)@, d1, db@, old(self).errors@, e1, seq_vars(ps@.take(i as int)), body_vars(ps@[i as int], false), r);
                assert(seq_vars(ps@.take(i + 1)) == seq_vars(ps@.take(i as int)) + body_vars(ps@[i as int], false));
            }
            match r {
                Ok(()) => {},
                Err(e) => {
                    proof {
                        lemma_seq_vars_prefix(ps@, i + 1);
                        lemma_seq_vars_first(ps@, i + 1);
                    }
                    return Err(e);
                },
            }
            i = i + 1;
        }
        proof {
            assert(ps@.take(i as int) =~= ps@);
        }
        Ok(())
    }

    fn traverse_pairs(&mut self, db: &mut SemanticDb, ps: &Vec<KeyValue>) -> (r: ElaborationResult<()>)
        requires
            old(db).inv(),
            old(db)@.strings.len() + pairs_vars(ps@).len() <= u32::MAX,
        ensures
            final(db).inv(),
            final(self).for_comp_pid == old(self).for_comp_pid,
            traversal_post(old(db)@, final(db)@, old(self).for_comp_pid, old(self).errors@, final(self).errors@, pairs_vars(ps@), r),
        decreases *ps, 0nat,
    {
        proof {
            assert(ps@.take(0) =~= Seq::<KeyValue>::empty());
            assert(db@.strings.take(db@.strings.len() as int) =~= db@.strings);
            assert(self.errors@ + Seq::<ElaborationError>::empty() =~= self.errors@);
        }
        let mut i: usize = 0;
        while i < ps.len()
            invariant
                i <= ps@.len(),
                db.inv(),
                self.for_comp_pid == old(self).for_comp_pid,
                old(db)@.strings.len() + pairs_vars(ps@).len() <= u32::MAX,
                traversal_post(old(db)@, db@, self.for_comp_pid, old(self).errors@, self.errors@, pairs_vars(ps@.take(i as int)), Ok(())),
            decreases ps@.len() - i,
        {
            proof {
                assert(ps@.take(i + 1).drop_last() =~= ps@.take(i as int));
                lemma_pairs_vars_prefix(ps@, i + 1);
                db.lemma_inv_wf();
            }
            let ghost front = pairs_vars(ps@.take(i as int));
            let ghost d1 = db@;
            let ghost e1 = self.errors@;
            let r = self.traverse_proc(db, &ps[i].key, false);
            proof {
                db.lemma_inv_wf();
                self.lemma_compose(old(db)@, d1, db@, old(self).errors@, e1, front, body_vars(ps@[i as int].key, false), r);
            }
            match r {
                Ok(()) => {},
                Err(e) => {
                    proof {
                        lemma_pairs_vars_first(ps@, i + 1);
                    }
                    return Err(e);
                },
            }
            let ghost d2 = db@;
            let ghost e2 = self.errors@;
            let r2 = self.traverse_proc(db, &ps[i].value, false);
            proof {
                db.lemma_inv_wf();
                self.lemma_compose(old(db)@, d2, db@, old(self).errors@, e2, front + body_vars(ps@[i as int].key, false), body_vars(ps@[i as int].value, false), r2);
                assert(pairs_vars(ps@.take(i + 1)) == front + body_vars(ps@[i as int].key, false) + body_vars(ps@[i as int].value, false));
            }
            match r2 {
                Ok(()) => {},
                Err(e) => {
                    proof {
                        lemma_pairs_vars_first(ps@, i + 1);
                    }
                    return Err(e);
                },
            }
            i = i + 1;
        }
        proof {
            assert(ps@.take(i as int) =~= ps@);
        }
        Ok(())
    }

    fn traverse_cases(&mut self, db: &mut SemanticDb, cs: &Vec<Case>) -> (r: ElaborationResult<()>)
        requires
            old(db).inv(),
            old(db)@.strings.len() + cases_vars(cs@).len() <= u32::MAX,
        ensures
            final(db).inv(),
            final(self).for_comp_pid == old(self).for_comp_pid,
            traversal_post(old(db)@, final(db)@, old(self).for_comp_pid, old(self).errors@, final(self).errors@, cases_vars(cs@), r),
        decreases *cs, 0nat,
    {
        proof {
            assert(cs@.take(0) =~= Seq::<Case>::empty());
            assert(db@.strings.take(db@.strings.len() as int) =~= db@.strings);
            assert(self.errors@ + Seq::<ElaborationError>::empty() =~= self.errors@);
        }
        let mut i: usize = 0;
        while i < cs.len()
            invariant
                i <= cs@.len(),
                db.inv(),
                self.for_comp_pid == old(self).for_comp_pid,
                old(db)@.strings.len() + cases_vars(cs@).len() <= u32::MAX,
                traversal_post(old(db)@, db@, self.for_comp_pid, old(self).errors@, self.errors@, cases_vars(cs@.take(i as int)), Ok(())),
            decreases cs@.len() - i,
        {
            proof {
                assert(cs@.take(i + 1).drop_last() =~= cs@.take(i as int));
                lemma_cases_vars_prefix(cs@, i + 1);
                db.lemma_inv_wf();
            }
            let ghost d1 = db@;
            let ghost e1 = self.errors@;
            let r = self.traverse_proc(db, &cs[i].proc, false);
            proof {
                db.lemma_inv_wf();
                self.lemma_compose(old(db)@, d1, db@, old(self).errors@, e1, cases_vars(cs@.take(i as int)), body_vars(cs@[i as int].proc, false), r);
                assert(cases_vars(cs@.take(i + 1)) == cases_vars(cs@.take(i as int)) + body_vars(cs@[i as int].proc, false));
            }
            match r {
                Ok(()) => {},
                Err(e) => {
                    proof {
                        lemma_cases_vars_first(cs@, i + 1);
                    }
                    return Err(e);
                },
            }
            i = i + 1;
        }
        proof {
            assert(cs@.take(i as int) =~= cs@);
        }
        Ok(())
    }

    /// Resolves the variables of a name in channel position.
    fn traverse_name(&mut self, db: &mut SemanticDb, n: &Name) -> (r: ElaborationResult<()>)
        requires
            old(db).inv(),
            old(db)@.strings.len() + name_vars(*n).len() <= u32::MAX,
        ensures
            final(db).inv(),
            final(self).for_comp_pid == old(self).for_comp_pid,
            traversal_post(old(db)@, final(db)@, old(self).for_comp_pid, old(self).errors@, final(self).errors@, name_vars(*n), r),
        decreases *n, 0nat,
    {
        match n {
            Name::NameVar(Var::Id(id)) => self.resolve_name_var(db, id),
            Name::NameVar(Var::Wildcard) => {
                proof {
                    lemma_resolves_only_refl(db@, self.for_comp_pid);
                    assert(var_errors(db@, self.for_comp_pid, Seq::<(Id, bool)>::empty()) =~= Seq::<ElaborationError>::empty());
                    assert(self.errors@ + Seq::<ElaborationError>::empty() =~= self.errors@);
                    assert(db@.strings.take(db@.strings.len() as int) =~= db@.strings);
                }
                Ok(())
            },
            Name::Quote(p) => self.traverse_proc(db, p, true),
        }
    }

    /// Resolves the variables of a collection.
    fn traverse_collection(&mut self, db: &mut SemanticDb, c: &Collection) -> (r: ElaborationResult<()>)
        requires
            old(db).inv(),
            old(db)@.strings.len() + collection_vars(*c).len() <= u32::MAX,
        ensures
            final(db).inv(),
            final(self).for_comp_pid == old(self).for_comp_pid,
            traversal_post(old(db)@, final(db)@, old(self).for_comp_pid, old(self).errors@, final(self).errors@, collection_vars(*c), r),
        decreases *c, 0nat,
    {
        match c {
            Collection::List { elements, .. } => self.traverse_seq(db, elements),
            Collection::SetOf { elements, .. } => self.traverse_seq(db, elements),
            Collection::Tuple(elements) => self.traverse_seq(db, elements),
            Collection::MapOf { elements, .. } => self.traverse_pairs(db, elements),
        }
    }

    /// Resolves a process variable.
    fn resolve_proc_var(&mut self, db: &mut SemanticDb, var: &Var, in_name: bool) -> (r: ElaborationResult<()>)
        requires
            old(db).inv(),
            *var is Id ==> old(db)@.strings.len() + 1 <= u32::MAX,
        ensures
            final(db).inv(),
            final(self).for_comp_pid == old(self).for_comp_pid,
            traversal_post(old(db)@, final(db)@, old(self).for_comp_pid, old(self).errors@, final(self).errors@,
                match var { Var::Id(id) => seq![(*id, in_name)], Var::Wildcard => Seq::empty() }, r),
    {
        match var {
            Var::Id(id) => self.resolve_variable(db, id, in_name),
            Var::Wildcard => {
                proof {
                    lemma_resolves_only_refl(db@, self.for_comp_pid);
                    assert(var_errors(db@, self.for_comp_pid, Seq::<(Id, bool)>::empty()) =~= Seq::<ElaborationError>::empty());
                    assert(self.errors@ + Seq::<ElaborationError>::empty() =~= self.errors@);
                    assert(db@.strings.take(db@.strings.len() as int) =~= db@.strings);
                }
                Ok(())
            },
        }
    }

    /// Resolves a variable in name position.
    fn resolve_name_var(&mut self, db: &mut SemanticDb, id: &Id) -> (r: ElaborationResult<()>)
        requires
            old(db).inv(),
            old(db)@.strings.len() + 1 <= u32::MAX,
        ensures
            final(db).inv(),
            final(self).for_comp_pid == old(self).for_comp_pid,
            traversal_post(old(db)@, final(db)@, old(self).for_comp_pid, old(self).errors@, final(self).errors@, seq![(*id, true)], r),
    {
        self.resolve_variable(db, id, true)
    }

    /// Resolves the occurrence `id` against the scope of the comprehension: the
    /// first binder of its name is its binder, which is then marked used; an
    /// error is recorded when there is none or when it is of the other kind.
    #[verifier::loop_isolation(false)]
    fn resolve_variable(&mut self, db: &mut SemanticDb, id: &Id, expects_name: bool) -> (r: ElaborationResult<()>)
        requires
            old(db).inv(),
            old(db)@.strings.len() + 1 <= u32::MAX,
        ensures
            final(db).inv(),
            final(self).for_comp_pid == old(self).for_comp_pid,
            traversal_post(old(db)@, final(db)@, old(self).for_comp_pid, old(self).errors@, final(self).errors@, seq![(*id, expects_name)], r),
    {
        proof {
            db.lemma_inv_wf();
        }
        let symbol = db.intern(id.name.as_str());
        proof {
            db.lemma_inv_wf();
            assert(db@.strings.take(old(db)@.strings.len() as int) =~= old(db)@.strings);
            assert(db@.strings.contains(id.name@)) by {
                assert(db@.strings[symbol.0 as int] == id.name@);
            }
            let i = choose|i: int| 0 <= i < db@.strings.len() && db@.strings[i] == id.name@;
            assert(i == symbol.0);
        }
        let occurrence = SymbolOccurrence { symbol, position: id.pos };
        let pid = self.for_comp_pid;
        let scope = match db.get_scope(pid) {
            Some(s) => s,
            None => {
                return Err(
                    ElaborationError::IncompleteAstNode {
                        pid,
                        position: Some(id.pos),
                        reason: String::from_str("For-comprehension scope not built yet"),
                    },
                );
            },
        };
        let start = scope.binder_start().0 as usize;
        let end = scope.binder_end().0 as usize;
        let mut k = start;
        let ghost v = db@;
        while k < end
            invariant
                start <= k <= end,
                end <= v.binders.len(),
                v == db@,
                db.inv(),
                self.errors@ == old(self).errors@,
                self.for_comp_pid == old(self).for_comp_pid,
                first_binder_named(v.binders, start as int, end as int, symbol) == first_binder_named(
                    v.binders,
                    k as int,
                    end as int,
                    symbol,
                ),
            decreases end - k,
        {
            let b = db.binder(BinderId(k as u32));
            if b.name.0 == symbol.0 {
                let bid = BinderId(k as u32);
                let is_name_binder = db.is_name(bid);
                if is_name_binder != expects_name {
                    let e = if expects_name {
                        ElaborationError::ProcInNamePosition { pid, binder: bid, symbol, pos: Some(id.pos) }
                    } else {
                        ElaborationError::NameInProcPosition { pid, binder: bid, symbol, pos: Some(id.pos) }
                    };
                    self.errors.push(e);
                    proof {
                        assert(self.errors@ =~= old(self).errors@ + seq![e]);
                        self.lemma_single(old(self).errors@, old(db)@, db@, *id, expects_name);
                    }
                    return Ok(());
                }
                let _ = db.map_symbol_to_binder(occurrence, bid, expects_name, pid);
                db.mark_binder_used(pid, bid);
                proof {
                    assert(self.errors@ =~= old(self).errors@ + Seq::<ElaborationError>::empty());
                    self.lemma_single(old(self).errors@, old(db)@, db@, *id, expects_name);
                }
                return Ok(());
            }
            k = k + 1;
        }
        let e = ElaborationError::UnboundVariable { pid, var: symbol, pos: id.pos };
        self.errors.push(e);
        proof {
            assert(self.errors@ =~= old(self).errors@ + seq![e]);
            self.lemma_single(old(self).errors@, old(db)@, db@, *id, expects_name);
        }
        Ok(())
    }

    proof fn lemma_single(&self, e0: Seq<ElaborationError>, d0: DbView, d1: DbView, id: Id, expects: bool)
        requires
            d1.strings.contains(id.name@),
            self.errors@ == e0 + match var_error(d1, self.for_comp_pid, id, expects) {
                Some(e) => seq![e],
                None => Seq::<ElaborationError>::empty(),
            },
        ensures
            self.errors@ == e0 + var_errors(d1, self.for_comp_pid, seq![(id, expects)]),
            names_interned(d1.strings, seq![(id, expects)]),
    {
        let s = seq![(id, expects)];
        assert(s.drop_last() =~= Seq::<(Id, bool)>::empty());
        assert(var_errors(d1, self.for_comp_pid, s.drop_last()) =~= Seq::<ElaborationError>::empty());
    }
}

/// A traversal that failed on `a` fails the same way on `a` followed by more occurrences.
proof fn lemma_err_extends(
    d0: DbView,
    d1: DbView,
    pid: PID,
    e0: Seq<ElaborationError>,
    e1: Seq<ElaborationError>,
    a: Seq<(Id, bool)>,
    c: Seq<(Id, bool)>,
    r: ElaborationResult<()>,
)
    requires
        traversal_post(d0, d1, pid, e0, e1, a, r),
        r is Err,
    ensures
        traversal_post(d0, d1, pid, e0, e1, a + c, r),
{
    assert(a.len() > 0);
    assert((a + c)[0] == a[0]);
}

/// The occurrences visited in a collection.
pub open spec fn collection_vars(c: Collection) -> Seq<(Id, bool)> {
    match c {
        Collection::List { elements, .. } => seq_vars(elements@),
        Collection::SetOf { elements, .. } => seq_vars(elements@),
        Collection::Tuple(elements) => seq_vars(elements@),
        Collection::MapOf { elements, .. } => pairs_vars(elements@),
    }
}

proof fn lemma_seq_vars_prefix(ps: Seq<AnnProc>, i: int)
    requires
        0 <= i <= ps.len(),
    ensures
        seq_vars(ps.take(i)).len() <= seq_vars(ps).len(),
    decreases ps.len(),
{
    if i < ps.len() {
        lemma_seq_vars_prefix(ps.drop_last(), i);
        assert(ps.drop_last().take(i) =~= ps.take(i));
    } else {
        assert(ps.take(i) =~= ps);
    }
}

proof fn lemma_seq_vars_first(ps: Seq<AnnProc>, i: int)
    requires
        0 <= i <= ps.len(),
        seq_vars(ps.take(i)).len() > 0,
    ensures
        seq_vars(ps).len() > 0,
        seq_vars(ps)[0] == seq_vars(ps.take(i))[0],
    decreases ps.len(),
{
    if i < ps.len() {
        assert(ps.drop_last().take(i) =~= ps.take(i));
        lemma_seq_vars_first(ps.drop_last(), i);
    } else {
        assert(ps.take(i) =~= ps);
    }
}

proof fn lemma_pairs_vars_prefix(ps: Seq<KeyValue>, i: int)
    requires
        0 <= i <= ps.len(),
    ensures
        pairs_vars(ps.take(i)).len() <= pairs_vars(ps).len(),
    decreases ps.len(),
{
    if i < ps.len() {
        lemma_pairs_vars_prefix(ps.drop_last(), i);
        assert(ps.drop_last().take(i) =~= ps.take(i));
    } else {
        assert(ps.take(i) =~= ps);
    }
}

proof fn lemma_pairs_vars_first(ps: Seq<KeyValue>, i: int)
    requires
        0 <= i <= ps.len(),
        pairs_vars(ps.take(i)).len() > 0,
    ensures
        pairs_vars(ps).len() > 0,
        pairs_vars(ps)[0] == pairs_vars(ps.take(i))[0],
    decreases ps.len(),
{
    if i < ps.len() {
        assert(ps.drop_last().take(i) =~= ps.take(i));
        lemma_pairs_vars_first(ps.drop_last(), i);
    } else {
        assert(ps.take(i) =~= ps);
    }
}

proof fn lemma_cases_vars_prefix(cs: Seq<Case>, i: int)
    requires
        0 <= i <= cs.len(),
    ensures
        cases_vars(cs.take(i)).len() <= cases_vars(cs).len(),
    decreases cs.len(),
{
    if i < cs.len() {
        lemma_cases_vars_prefix(cs.drop_last(), i);
        assert(cs.drop_last().take(i) =~= cs.take(i));
    } else {
        assert(cs.take(i) =~= cs);
    }
}

proof fn lemma_cases_vars_first(cs: Seq<Case>, i: int)
    requires
        0 <= i <= cs.len(),
        cases_vars(cs.take(i)).len() > 0,
    ensures
        cases_vars(cs).len() > 0,
        cases_vars(cs)[0] == cases_vars(cs.take(i))[0],
    decreases cs.len(),
{
    if i < cs.len() {
        assert(cs.drop_last().take(i) =~= cs.take(i));
        lemma_cases_vars_first(cs.drop_last(), i);
    } else {
        assert(cs.take(i) =~= cs);
    }
}

} // verus!
