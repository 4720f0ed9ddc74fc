//! Laws that relate several operations of the database.
use crate::ast::Id;
use crate::db::{any_error, errors_of, interned, lookup_binding, DbView, SemanticDb};
use crate::pattern_state::{introduced_free, pattern_lookup, PatternResolver};
use crate::types::{BinderId, BinderKind, Diagnostic, SymbolOccurrence, VarBinding};
use vstd::prelude::*;

verus! {

/// The database reports errors (`has_errors`) exactly when its list of
/// errors (`errors`) is not empty.
pub proof fn law_has_errors_iff_errors(ds: Seq<Diagnostic>)
    ensures
        any_error(ds) <==> errors_of(ds).len() > 0,
{
    let pred = |d: Diagnostic| d.spec_is_error();
    if any_error(ds) {
        let i = choose|i: int| 0 <= i < ds.len() && (#[trigger] ds[i]).spec_is_error();
        ds.lemma_filter_contains(pred, i);
    }
    if errors_of(ds).len() > 0 {
        ds.lemma_filter_pred(pred, 0);
        ds.lemma_filter_contains_rev(pred, errors_of(ds)[0]);
        let d = errors_of(ds)[0];
        let i = choose|i: int| 0 <= i < ds.len() && ds[i] == d;
        assert(ds[i].spec_is_error());
    }
}

/// Emitting a diagnostic never clears the error flag; emitting an error sets
/// it; emitting anything else leaves it as it was.
pub proof fn law_error_flag_after_emit(ds: Seq<Diagnostic>, d: Diagnostic)
    ensures
        any_error(ds) ==> any_error(ds.push(d)),
        d.spec_is_error() ==> any_error(ds.push(d)),
        !d.spec_is_error() ==> (any_error(ds.push(d)) == any_error(ds)),
{
    if any_error(ds) {
        let i = choose|i: int| 0 <= i < ds.len() && (#[trigger] ds[i]).spec_is_error();
        assert(ds.push(d)[i] == ds[i]);
    }
    if d.spec_is_error() {
        assert(ds.push(d)[ds.len() as int] == d);
    }
    if !d.spec_is_error() && any_error(ds.push(d)) {
        let i = choose|i: int| 0 <= i < ds.push(d).len() && (#[trigger] ds.push(d)[i]).spec_is_error();
        assert(i < ds.len());
        assert(ds[i] == ds.push(d)[i]);
    }
}

/// Interning a string a second time leaves the table as the first time left
/// it, and the string has one symbol: the symbol that interning returned,
/// which resolves back to the string.
pub proof fn law_intern_idempotent(strings: Seq<Seq<char>>, s: Seq<char>, sym: nat, again: nat)
    requires
        strings.no_duplicates(),
        sym < interned(strings, s).len(),
        interned(strings, s)[sym as int] == s,
        again < interned(interned(strings, s), s).len(),
        interned(interned(strings, s), s)[again as int] == s,
    ensures
        interned(interned(strings, s), s) == interned(strings, s),
        interned(strings, s).no_duplicates(),
        again == sym,
{
    let t = interned(strings, s);
    assert(t.contains(s)) by {
        assert(t[sym as int] == s);
    }
    if !strings.contains(s) {
        assert forall|i: int, j: int| 0 <= i < t.len() && 0 <= j < t.len() && i != j implies t[i] != t[j] by {
            if i < strings.len() && j < strings.len() {
                assert(t[i] == strings[i] && t[j] == strings[j]);
            } else if i < strings.len() {
                assert(t[i] == strings[i]);
                assert(t[j] == s);
            } else {
                assert(t[j] == strings[j]);
                assert(t[i] == s);
            }
        }
    }
}

/// Adding `n` to a binder id and subtracting the id again gives `n`.
pub proof fn law_binder_offset_round_trip(b: BinderId, n: u32)
    requires
        b.0 + n <= u32::MAX,
    ensures
        ({
            let sum = BinderId((b.0 + n) as u32);
            sum.0 >= b.0 && BinderId((sum.0 - b.0) as u32) == BinderId(n)
        }),
{
}

/// A recorded binding to a binder refers to a binder of the database.
pub proof fn law_bound_binder_exists(db: SemanticDb, occ: SymbolOccurrence)
    requires
        db.inv(),
    ensures
        lookup_binding(db@.bound, occ) matches Some(VarBinding::Bound(b)) ==> b.0 < db@.binders.len(),
{
    db.lemma_inv_wf();
    if lookup_binding(db@.bound, occ) is Some {
        let i = choose|i: int| 0 <= i < db@.bound.len() && (#[trigger] db@.bound[i]).occurence == occ;
        assert(db@.bound[i].occurence == occ);
    }
}

/// A variable that a pattern introduced is found again by the next
/// occurrence of the same name in the same sub-pattern: a repeated pattern
/// variable gets one binder, the one its first occurrence introduced, and
/// `resolve_or_introduce_var` binds the later occurrence to it.
pub proof fn law_repeated_pattern_variable(
    o: DbView,
    n: DbView,
    os: PatternResolver,
    ns: PatternResolver,
    first: Id,
    again: Id,
    kind: BinderKind,
)
    requires
        os.wf(o.binders.len()),
        introduced_free(o, n, os, ns, first, kind),
        ns.first_binder == os.first_binder,
        ns.scope_guard == os.scope_guard,
        again.name@ == first.name@,
    ensures
        pattern_lookup(
            ns.env.locals@,
            n.strings,
            again.name@,
            ns.first_binder.0 as int,
            ns.scope_guard as int,
            true,
        ) == Some(BinderId(o.binders.len() as u32)),
{
}

/// The string table that interning `names`, in order, builds from an empty
/// one (what `SemanticDb::new` followed by one `intern` per name leaves).
pub open spec fn intern_all(names: Seq<Seq<char>>) -> Seq<Seq<char>>
    decreases names.len(),
{
    if names.len() == 0 {
        Seq::empty()
    } else {
        interned(intern_all(names.drop_last()), names.last())
    }
}

/// After interning `names` from an empty table, the symbols that
/// `resolve_symbol` resolves (those below the table's length) are exactly the
/// symbols that the `intern` calls returned: the `k`-th call returns the
/// position of `names[k]` in the table it leaves, and later calls keep it.
pub proof fn law_resolvable_iff_interned(names: Seq<Seq<char>>, sym: int)
    ensures
        intern_all(names).no_duplicates(),
        (0 <= sym < intern_all(names).len()) <==> exists|k: int|
            0 <= k < names.len() && #[trigger] intern_all(names.take(k + 1)).index_of(names[k]) == sym,
        forall|k: int|
            0 <= k < names.len() ==> intern_all(names)[#[trigger] intern_all(names.take(k + 1)).index_of(
                names[k],
            )] == names[k],
    decreases names.len(),
{
    if names.len() > 0 {
        let init = names.drop_last();
        let x = names.last();
        let t = intern_all(init);
        let t2 = intern_all(names);
        assert(names.take(names.len() as int) =~= names);
        law_resolvable_iff_interned(init, sym);
        assert(t2 == interned(t, x));
        assert(t2.no_duplicates()) by {
            if !t.contains(x) {
                assert forall|i: int, j: int| 0 <= i < t2.len() && 0 <= j < t2.len() && i != j implies t2[i]
                    != t2[j] by {
                    if i < t.len() && j < t.len() {
                    } else if i < t.len() {
                        assert(t.contains(t2[i]));
                    } else {
                        assert(t.contains(t2[j]));
                    }
                }
            }
        }
        assert forall|k: int| 0 <= k < init.len() implies #[trigger] names.take(k + 1) == init.take(k + 1) by {
            assert(names.take(k + 1) =~= init.take(k + 1));
        }
        assert(t2.contains(x)) by {
            if t.contains(x) {
            } else {
                assert(t2[t.len() as int] == x);
            }
        }
        let last = t2.index_of(x);
        assert(0 <= last < t2.len() && t2[last] == x);
        assert forall|k: int|
            0 <= k < names.len() implies t2[#[trigger] intern_all(names.take(k + 1)).index_of(names[k])]
            == names[k] by {
            if k < init.len() {
                assert(names.take(k + 1) == init.take(k + 1));
                assert(names[k] == init[k]);
                law_resolvable_iff_interned(init, intern_all(init.take(k + 1)).index_of(init[k]));
                let i = intern_all(init.take(k + 1)).index_of(init[k]);
                assert(0 <= i < t.len());
                assert(t2[i] == t[i]);
            }
        }
        if 0 <= sym < t2.len() {
            if sym < t.len() {
                let k = choose|k: int|
                    0 <= k < init.len() && #[trigger] intern_all(init.take(k + 1)).index_of(init[k]) == sym;
                assert(names.take(k + 1) == init.take(k + 1));
                assert(names[k] == init[k]);
                assert(intern_all(names.take(k + 1)).index_of(names[k]) == sym);
            } else {
                assert(!t.contains(x));
                assert(t2[sym] == x);
                assert(t2[last] == x);
                assert(last == sym);
                assert(intern_all(names.take(names.len() - 1 + 1)).index_of(names[names.len() - 1]) == sym);
            }
        }
        if exists|k: int|
            0 <= k < names.len() && #[trigger] intern_all(names.take(k + 1)).index_of(names[k]) == sym {
            let k = choose|k: int|
                0 <= k < names.len() && #[trigger] intern_all(names.take(k + 1)).index_of(names[k]) == sym;
            if k < init.len() {
                assert(names.take(k + 1) == init.take(k + 1));
                assert(names[k] == init[k]);
                assert(intern_all(init.take(k + 1)).index_of(init[k]) == sym);
            } else {
                assert(k == names.len() - 1);
            }
        }
    }
}

} // verus!
