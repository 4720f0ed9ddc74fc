//! Name resolution: the lexical environment, the stack of open scopes, and the
//! resolution of single variable occurrences against them.
use crate::ast::{Id, SourceSpan, VarRefKind};
use crate::bits::MAX_BITS;
use crate::db::{lookup_binding, DbView, SemanticDb};
use crate::scope::{bit_ids, ScopeInfo};
use crate::resolution::symbol_index;
use crate::types::{
    Binder, BinderId, Diagnostic, DiagnosticKind, ErrorKind, Symbol, SymbolOccurrence, VarBinding,
    WarningKind, PID,
};
use vstd::prelude::*;

verus! {

/// What resolving the processes with PIDs in `lo..hi` may do to the database:
/// the processes and the enclosure relation stay, strings, binders and
/// diagnostics are only appended to, every new binder and every new
/// diagnostic belongs to a process of the range, only processes of the
/// range that had no scope get one, a recorded occurrence stays recorded,
/// and an occurrence newly bound to a binder is bound to a binder of the range.
pub open spec fn resolution_step(o: DbView, n: DbView, lo: int, hi: int) -> bool {
    &&& n.procs == o.procs
    &&& n.enclosing == o.enclosing
    &&& n.scopes.len() == o.scopes.len()
    &&& o.strings.len() <= n.strings.len()
    &&& forall|i: int| 0 <= i < o.strings.len() ==> #[trigger] n.strings[i] == o.strings[i]
    &&& o.binders.len() <= n.binders.len()
    &&& forall|i: int| 0 <= i < o.binders.len() ==> #[trigger] n.binders[i] == o.binders[i]
    &&& forall|i: int|
        o.binders.len() <= i < n.binders.len() ==> lo <= (#[trigger] n.binders[i]).scope.0 < hi
    &&& o.diags.len() <= n.diags.len()
    &&& forall|i: int| 0 <= i < o.diags.len() ==> #[trigger] n.diags[i] == o.diags[i]
    &&& forall|i: int|
        o.diags.len() <= i < n.diags.len() ==> lo <= (#[trigger] n.diags[i]).pid.0 < hi
    &&& forall|i: int|
        0 <= i < o.scopes.len() && #[trigger] n.scopes[i] != o.scopes[i] ==> o.scopes[i] is None
            && lo <= i < hi
    &&& forall|occ: SymbolOccurrence|
        #![trigger lookup_binding(o.bound, occ)]
        #![trigger lookup_binding(n.bound, occ)]
        lookup_binding(o.bound, occ) is Some ==> lookup_binding(n.bound, occ) is Some
    &&& forall|occ: SymbolOccurrence|
        #[trigger] lookup_binding(n.bound, occ) != lookup_binding(o.bound, occ) ==> bound_within(
            n,
            lookup_binding(n.bound, occ),
            lo,
            hi,
        )
}

/// A binding to a binder is to a binder of a process of `lo..hi`.
pub open spec fn bound_within(v: DbView, binding: Option<VarBinding>, lo: int, hi: int) -> bool {
    binding matches Some(VarBinding::Bound(b)) ==> b.0 < v.binders.len() && lo <= v.binders[b.0 as int].scope.0
        < hi
}

/// Resolution steps compose.
pub broadcast proof fn lemma_step_trans(a: DbView, b: DbView, c: DbView, lo: int, hi: int)
    requires
        #[trigger] resolution_step(a, b, lo, hi),
        #[trigger] resolution_step(b, c, lo, hi),
    ensures
        resolution_step(a, c, lo, hi),
{
    assert forall|i: int|
        0 <= i < a.scopes.len() && #[trigger] c.scopes[i] != a.scopes[i] implies a.scopes[i] is None
        && lo <= i < hi by {
        if b.scopes[i] == a.scopes[i] {
            assert(c.scopes[i] != b.scopes[i]);
        }
    }
}

/// `new` keeps `old` as its prefix.
pub open spec fn env_extends(new: Seq<(Symbol, BinderId)>, old: Seq<(Symbol, BinderId)>) -> bool {
    old.len() <= new.len() && new.take(old.len() as int) == old
}

pub broadcast proof fn lemma_extends_trans(
    a: Seq<(Symbol, BinderId)>,
    b: Seq<(Symbol, BinderId)>,
    c: Seq<(Symbol, BinderId)>,
)
    requires
        #[trigger] env_extends(b, a),
        #[trigger] env_extends(c, b),
    ensures
        env_extends(c, a),
{
    assert(c.take(a.len() as int) =~= c.take(b.len() as int).take(a.len() as int));
}

/// The binder bound to `sym` by the last entry of `locals` that names it.
pub open spec fn env_lookup(locals: Seq<(Symbol, BinderId)>, sym: Symbol) -> Option<BinderId>
    decreases locals.len(),
{
    if locals.len() == 0 {
        None
    } else if locals.last().0 == sym {
        Some(locals.last().1)
    } else {
        env_lookup(locals.drop_last(), sym)
    }
}

/// Every binder of `locals` lies in `lo..hi`.
pub open spec fn env_within(locals: Seq<(Symbol, BinderId)>, lo: int, hi: int) -> bool {
    forall|i: int| 0 <= i < locals.len() ==> lo <= (#[trigger] locals[i]).1.0 < hi
}

pub proof fn lemma_env_lookup_within(locals: Seq<(Symbol, BinderId)>, sym: Symbol, lo: int, hi: int)
    requires
        env_within(locals, lo, hi),
    ensures
        env_lookup(locals, sym) matches Some(b) ==> lo <= b.0 < hi,
    decreases locals.len(),
{
    if locals.len() > 0 && locals.last().0 != sym {
        assert(env_within(locals.drop_last(), lo, hi)) by {
            assert forall|i: int| 0 <= i < locals.drop_last().len() implies lo <= (
            #[trigger] locals.drop_last()[i]).1.0 < hi by {
                assert(locals.drop_last()[i] == locals[i]);
            }
        }
        lemma_env_lookup_within(locals.drop_last(), sym, lo, hi);
    }
}

/// Every entry of `locals` binds its symbol to a binder of that name.
pub open spec fn env_named(locals: Seq<(Symbol, BinderId)>, binders: Seq<Binder>) -> bool {
    forall|i: int|
        0 <= i < locals.len() ==> (#[trigger] locals[i]).1.0 < binders.len() && binders[locals[i].1.0 as int].name
            == locals[i].0
}

/// What the environment finds for `sym` is a binder named `sym`.
pub proof fn lemma_named_lookup(locals: Seq<(Symbol, BinderId)>, binders: Seq<Binder>, sym: Symbol)
    requires
        env_named(locals, binders),
    ensures
        env_lookup(locals, sym) matches Some(b) ==> b.0 < binders.len() && binders[b.0 as int].name == sym,
    decreases locals.len(),
{
    if locals.len() > 0 && locals.last().0 != sym {
        assert(env_named(locals.drop_last(), binders)) by {
            assert forall|i: int| 0 <= i < locals.drop_last().len() implies (#[trigger] locals.drop_last()[i]).1.0
                < binders.len() && binders[locals.drop_last()[i].1.0 as int].name == locals.drop_last()[i].0 by {
                assert(locals.drop_last()[i] == locals[i]);
            }
        }
        lemma_named_lookup(locals.drop_last(), binders, sym);
    } else if locals.len() > 0 {
        assert(locals.last() == locals[locals.len() - 1]);
    }
}

/// A part of a named environment is named.
pub proof fn lemma_named_parts(locals: Seq<(Symbol, BinderId)>, binders: Seq<Binder>, start: int, end: int)
    requires
        env_named(locals, binders),
        0 <= start <= end <= locals.len(),
    ensures
        env_named(locals.take(start), binders),
        env_named(locals.take(start) + locals.skip(end), binders),
{
    let t = locals.take(start) + locals.skip(end);
    assert forall|i: int| 0 <= i < t.len() implies (#[trigger] t[i]).1.0 < binders.len()
        && binders[t[i].1.0 as int].name == t[i].0 by {
        if i < start {
            assert(t[i] == locals[i]);
        } else {
            assert(t[i] == locals[i - start + end]);
        }
    }
    assert forall|i: int| 0 <= i < locals.take(start).len() implies (#[trigger] locals.take(start)[i]).1.0
        < binders.len() && binders[locals.take(start)[i].1.0 as int].name == locals.take(start)[i].0 by {
        assert(locals.take(start)[i] == locals[i]);
    }
}

/// A named environment stays named while binders are only appended.
pub broadcast proof fn lemma_named_grow(locals: Seq<(Symbol, BinderId)>, o: DbView, n: DbView, lo: int, hi: int)
    requires
        #[trigger] env_named(locals, o.binders),
        #[trigger] resolution_step(o, n, lo, hi),
    ensures
        env_named(locals, n.binders),
{
    assert forall|i: int| 0 <= i < locals.len() implies (#[trigger] locals[i]).1.0 < n.binders.len()
        && n.binders[locals[i].1.0 as int].name == locals[i].0 by {
        assert(n.binders[locals[i].1.0 as int] == o.binders[locals[i].1.0 as int]);
    }
}

/// Every binder of `locals` belongs to a process of `lo..hi`.
pub open spec fn env_located(locals: Seq<(Symbol, BinderId)>, binders: Seq<Binder>, lo: int, hi: int) -> bool {
    forall|i: int|
        0 <= i < locals.len() ==> (#[trigger] locals[i]).1.0 < binders.len() && lo <= binders[locals[i].1.0 as int].scope.0
            < hi
}

/// What the environment finds belongs to a process of `lo..hi` when all of
/// it does.
pub proof fn lemma_located_lookup(locals: Seq<(Symbol, BinderId)>, binders: Seq<Binder>, sym: Symbol, lo: int, hi: int)
    requires
        env_located(locals, binders, lo, hi),
    ensures
        env_lookup(locals, sym) matches Some(b) ==> b.0 < binders.len() && lo <= binders[b.0 as int].scope.0 < hi,
    decreases locals.len(),
{
    if locals.len() > 0 && locals.last().0 != sym {
        assert(env_located(locals.drop_last(), binders, lo, hi)) by {
            assert forall|i: int| 0 <= i < locals.drop_last().len() implies (#[trigger] locals.drop_last()[i]).1.0
                < binders.len() && lo <= binders[locals.drop_last()[i].1.0 as int].scope.0 < hi by {
                assert(locals.drop_last()[i] == locals[i]);
            }
        }
        lemma_located_lookup(locals.drop_last(), binders, sym, lo, hi);
    } else if locals.len() > 0 {
        assert(locals.last() == locals[locals.len() - 1]);
    }
}

/// A located environment stays located while binders are only appended.
pub broadcast proof fn lemma_located_grow(locals: Seq<(Symbol, BinderId)>, o: DbView, n: DbView, lo: int, hi: int, lo2: int, hi2: int)
    requires
        #[trigger] env_located(locals, o.binders, lo, hi),
        #[trigger] resolution_step(o, n, lo2, hi2),
    ensures
        env_located(locals, n.binders, lo, hi),
{
    assert forall|i: int| 0 <= i < locals.len() implies (#[trigger] locals[i]).1.0 < n.binders.len()
        && lo <= n.binders[locals[i].1.0 as int].scope.0 < hi by {
        assert(n.binders[locals[i].1.0 as int] == o.binders[locals[i].1.0 as int]);
    }
}

/// The binders that a resolution step of `lo..hi` appended belong to
/// processes of `lo..hi`.
pub proof fn lemma_new_binders_located(o: DbView, n: DbView, lo: int, hi: int, start: int, end: int)
    requires
        resolution_step(o, n, lo, hi),
        o.binders.len() <= start,
        end <= n.binders.len(),
    ensures
        forall|b: int| start <= b < end ==> lo <= (#[trigger] n.binders[b]).scope.0 < hi,
{
}

/// Every binder from `from` on belongs to a process of `lo..hi`.
pub open spec fn binders_located_from(binders: Seq<Binder>, from: int, lo: int, hi: int) -> bool {
    forall|b: int| 0 <= b && from <= b < binders.len() ==> lo <= (#[trigger] binders[b]).scope.0 < hi
}

/// A resolution step of `lo..hi` keeps the binders from `from` on located there.
pub broadcast proof fn lemma_located_from_grow(o: DbView, n: DbView, from: int, lo: int, hi: int)
    requires
        #[trigger] binders_located_from(o.binders, from, lo, hi),
        #[trigger] resolution_step(o, n, lo, hi),
    ensures
        binders_located_from(n.binders, from, lo, hi),
{
    assert forall|b: int| 0 <= b && from <= b < n.binders.len() implies lo <= (#[trigger] n.binders[b]).scope.0 < hi by {
        if b < o.binders.len() {
            assert(n.binders[b] == o.binders[b]);
        }
    }
}

/// Binders of `start..end` brought into a located environment keep it
/// located when they belong to processes of `lo..hi`.
pub proof fn lemma_located_push(
    old_locals: Seq<(Symbol, BinderId)>,
    new_locals: Seq<(Symbol, BinderId)>,
    binders: Seq<Binder>,
    start: int,
    end: int,
    lo: int,
    hi: int,
)
    requires
        env_located(old_locals, binders, lo, hi),
        old_locals.len() <= new_locals.len(),
        new_locals.take(old_locals.len() as int) == old_locals,
        end <= binders.len(),
        forall|i: int| old_locals.len() <= i < new_locals.len() ==> start <= (#[trigger] new_locals[i]).1.0 < end,
        forall|b: int| start <= b < end ==> lo <= (#[trigger] binders[b]).scope.0 < hi,
    ensures
        env_located(new_locals, binders, lo, hi),
{
    assert forall|i: int| 0 <= i < new_locals.len() implies (#[trigger] new_locals[i]).1.0 < binders.len()
        && lo <= binders[new_locals[i].1.0 as int].scope.0 < hi by {
        if i < old_locals.len() {
            assert(new_locals[i] == new_locals.take(old_locals.len() as int)[i]);
        } else {
            let b = new_locals[i].1.0 as int;
            assert(lo <= binders[b].scope.0 < hi);
        }
    }
}

/// `l` without its entries `start..end`.
pub open spec fn forgotten(l: Seq<(Symbol, BinderId)>, start: int, end: int) -> Seq<(Symbol, BinderId)> {
    if start >= l.len() {
        l
    } else if end >= l.len() {
        l.take(start)
    } else {
        l.take(start) + l.skip(end)
    }
}

/// Local variables in scope, innermost last.
pub struct Env {
    pub locals: Vec<(Symbol, BinderId)>,
}

impl Env {
    pub fn new() -> (r: Self)
        ensures
            r.locals@ == Seq::<(Symbol, BinderId)>::empty(),
    {
        Env { locals: Vec::new() }
    }

    pub fn push(&mut self, sym: Symbol, id: BinderId)
        ensures
            final(self).locals@ == old(self).locals@.push((sym, id)),
            final(self).locals@.len() <= usize::MAX,
    {
        self.locals.push((sym, id));
        let _ = self.locals.len();
    }

    pub fn len(&self) -> (r: usize)
        ensures
            r == self.locals@.len(),
    {
        self.locals.len()
    }

    /// The innermost binder named `sym`.
    pub fn lookup(&self, sym: Symbol) -> (r: Option<BinderId>)
        ensures
            r == env_lookup(self.locals@, sym),
    {
        let mut i = self.locals.len();
        proof {
            assert(self.locals@.take(i as int) =~= self.locals@);
        }
        while i > 0
            invariant
                i <= self.locals@.len(),
                env_lookup(self.locals@, sym) == env_lookup(self.locals@.take(i as int), sym),
            decreases i,
        {
            let (s, b) = self.locals[i - 1];
            proof {
                let t = self.locals@.take(i as int);
                assert(t.last() == self.locals@[i - 1]);
                assert(t.drop_last() =~= self.locals@.take(i - 1));
            }
            if s.0 == sym.0 {
                return Some(b);
            }
            i = i - 1;
        }
        None
    }

    /// Keeps only the first `n` locals.
    pub fn truncate(&mut self, n: usize)
        requires
            n <= old(self).locals@.len(),
        ensures
            final(self).locals@ == old(self).locals@.take(n as int),
    {
        self.locals.truncate(n);
    }

    /// Drops the locals in `start..end`.
    pub fn forget(&mut self, start: usize, end: usize)
        requires
            start <= end,
        ensures
            start >= old(self).locals@.len() ==> final(self).locals@ == old(self).locals@,
            start < old(self).locals@.len() && end >= old(self).locals@.len()
                ==> final(self).locals@ == old(self).locals@.take(start as int),
            start < old(self).locals@.len() && end < old(self).locals@.len()
                ==> final(self).locals@ == old(self).locals@.take(start as int)
                + old(self).locals@.skip(end as int),
            final(self).locals@ == forgotten(old(self).locals@, start as int, end as int),
    {
        let len = self.locals.len();
        if start >= len {
            return;
        }
        if end >= len {
            self.locals.truncate(start);
            return;
        }
        let mut kept: Vec<(Symbol, BinderId)> = Vec::new();
        let mut i: usize = 0;
        while i < len
            invariant
                len == self.locals@.len(),
                self.locals@ == old(self).locals@,
                start <= end < len,
                i <= len,
                kept@ == if i <= start {
                    self.locals@.take(i as int)
                } else if i <= end {
                    self.locals@.take(start as int)
                } else {
                    self.locals@.take(start as int) + self.locals@.subrange(end as int, i as int)
                },
            decreases len - i,
        {
            if i < start || i >= end {
                kept.push(self.locals[i]);
            }
            i = i + 1;
            proof {
                if i <= start {
                    assert(kept@ =~= self.locals@.take(i as int));
                } else if i <= end {
                    assert(kept@ =~= self.locals@.take(start as int));
                } else {
                    assert(kept@ =~= self.locals@.take(start as int) + self.locals@.subrange(
                        end as int,
                        i as int,
                    ));
                }
            }
        }
        proof {
            assert(self.locals@.subrange(end as int, len as int) =~= self.locals@.skip(end as int));
        }
        self.locals = kept;
    }
}

/// A binder that hides an older binder of the same name.
#[derive(Clone, Copy)]
pub struct Shadowed {
    pub new: BinderId,
    pub old: BinderId,
}

/// Every shadowing record names binders below `nb`.
pub open spec fn shadowed_within(s: Seq<Shadowed>, nb: nat) -> bool {
    forall|i: int| 0 <= i < s.len() ==> (#[trigger] s[i]).new.0 < nb && s[i].old.0 < nb
}

/// The open lexical scopes, innermost last, with the environment they bind.
/// `marks[i]` is the length of the environment when scope `i` was opened.
pub struct BindingStack {
    pub scopes: Vec<ScopeInfo>,
    pub marks: Vec<usize>,
    pub env: Env,
}

impl BindingStack {
    /// The stack is consistent with a database of `nb` binders.
    pub open spec fn wf(&self, nb: nat) -> bool {
        &&& self.scopes@.len() == self.marks@.len()
        &&& forall|i: int|
            0 <= i < self.scopes@.len() ==> (#[trigger] self.scopes@[i]).wf()
                && self.scopes@[i].end() <= nb
        &&& forall|i: int| 0 <= i < self.marks@.len() ==> #[trigger] self.marks@[i] <= self.env.locals@.len()
        &&& forall|i: int, j: int|
            0 <= i < j < self.marks@.len() ==> #[trigger] self.marks@[i] <= #[trigger] self.marks@[j]
        &&& env_within(self.env.locals@, 0, nb as int)
        &&& self.env.locals@.len() <= usize::MAX
        &&& nb <= MAX_BITS
    }

    /// The same scopes are open and the environment is the same.
    pub open spec fn same_shape(&self, o: &Self) -> bool {
        &&& self.scopes@.len() == o.scopes@.len()
        &&& self.marks@ == o.marks@
        &&& self.env.locals@ == o.env.locals@
    }

    pub fn new() -> (r: Self)
        ensures
            r.scopes@.len() == 0,
            r.marks@.len() == 0,
            r.env.locals@.len() == 0,
    {
        BindingStack { scopes: Vec::new(), marks: Vec::new(), env: Env::new() }
    }

    /// Brings binders into the environment, recording the ones they shadow.
    fn push_symbols(&mut self, locals: &Vec<(BinderId, Binder)>, shadowed: &mut Vec<Shadowed>, Ghost(binders): Ghost<Seq<Binder>>)
        requires
            env_within(old(self).env.locals@, 0, binders.len() as int),
            env_named(old(self).env.locals@, binders),
            shadowed_within(old(shadowed)@, binders.len()),
            forall|i: int| 0 <= i < locals@.len() ==> (#[trigger] locals@[i]).0.0 < binders.len()
                && locals@[i].1 == binders[locals@[i].0.0 as int],
        ensures
            env_within(final(self).env.locals@, 0, binders.len() as int),
            env_named(final(self).env.locals@, binders),
            shadowed_within(final(shadowed)@, binders.len()),
            final(self).scopes@ == old(self).scopes@,
            final(self).marks@ == old(self).marks@,
            final(self).env.locals@.len() == old(self).env.locals@.len() + locals@.len(),
            final(self).env.locals@.len() <= usize::MAX,
            old(self).env.locals@ == final(self).env.locals@.take(old(self).env.locals@.len() as int),
            forall|i: int| 0 <= i < locals@.len() ==> #[trigger] final(self).env.locals@[old(self).env.locals@.len() + i].1
                == locals@[i].0,
            final(self).env.locals@ == pushed_env(old(self).env.locals@, locals@),
            final(shadowed)@ == old(shadowed)@ + shadow_records(old(self).env.locals@, locals@),
    {
        let _ = self.env.len();
        proof {
            assert(locals@.take(0) =~= Seq::<(BinderId, Binder)>::empty());
            assert(pushed_env(old(self).env.locals@, Seq::<(BinderId, Binder)>::empty()) =~= old(self).env.locals@);
            assert(old(shadowed)@ + shadow_records(old(self).env.locals@, Seq::<(BinderId, Binder)>::empty()) =~= old(shadowed)@);
        }
        let mut i: usize = 0;
        while i < locals.len()
            invariant
                i <= locals@.len(),
                env_within(self.env.locals@, 0, binders.len() as int),
                env_named(self.env.locals@, binders),
                shadowed_within(shadowed@, binders.len()),
                forall|k: int| 0 <= k < locals@.len() ==> (#[trigger] locals@[k]).0.0 < binders.len()
                    && locals@[k].1 == binders[locals@[k].0.0 as int],
                self.scopes@ == old(self).scopes@,
                self.marks@ == old(self).marks@,
                self.env.locals@.len() == old(self).env.locals@.len() + i,
                self.env.locals@.len() <= usize::MAX,
                old(self).env.locals@ == self.env.locals@.take(old(self).env.locals@.len() as int),
                forall|k: int| 0 <= k < i ==> #[trigger] self.env.locals@[old(self).env.locals@.len() + k].1
                    == locals@[k].0,
                self.env.locals@ == pushed_env(old(self).env.locals@, locals@.take(i as int)),
                shadowed@ == old(shadowed)@ + shadow_records(old(self).env.locals@, locals@.take(i as int)),
            decreases locals@.len() - i,
        {
            let (id, binder) = locals[i];
            let ghost sh0 = shadowed@;
            proof {
                let t = locals@.take(i + 1);
                assert(t.drop_last() =~= locals@.take(i as int));
                assert(t.last() == locals@[i as int]);
            }
            proof {
                assert(locals@[i as int].0.0 < binders.len());
                lemma_env_lookup_within(self.env.locals@, binder.name, 0, binders.len() as int);
            }
            match self.env.lookup(binder.name) {
                Some(old_binder) => {
                    shadowed.push(Shadowed { new: id, old: old_binder });
                },
                None => {},
            }
            let ghost before = self.env.locals@;
            self.env.push(binder.name, id);
            proof {
                assert forall|k: int| 0 <= k < self.env.locals@.len() implies (#[trigger] self.env.locals@[k]).1.0
                    < binders.len() && binders[self.env.locals@[k].1.0 as int].name == self.env.locals@[k].0 by {
                    if k < before.len() {
                        assert(self.env.locals@[k] == before[k]);
                    }
                }
                assert(self.env.locals@.take(old(self).env.locals@.len() as int) =~= before.take(
                    old(self).env.locals@.len() as int,
                ));
                assert forall|k: int| 0 <= k < i + 1 implies #[trigger] self.env.locals@[old(self).env.locals@.len() + k].1
                    == locals@[k].0 by {
                    if k < i {
                        assert(self.env.locals@[old(self).env.locals@.len() + k] == before[old(self).env.locals@.len() + k]);
                    }
                }
                let t = locals@.take(i + 1);
                assert(t.map_values(|l: (BinderId, Binder)| (l.1.name, l.0)) =~= locals@.take(i as int).map_values(
                    |l: (BinderId, Binder)| (l.1.name, l.0),
                ).push((binder.name, id)));
                assert(self.env.locals@ =~= pushed_env(old(self).env.locals@, t));
                assert(shadowed@ =~= old(shadowed)@ + shadow_records(old(self).env.locals@, t));
            }
            i = i + 1;
        }
        proof {
            assert(locals@.take(i as int) =~= locals@);
        }
    }

    /// Opens `scope`, bringing all its binders into the environment.
    pub fn push(&mut self, scope: ScopeInfo, db: &SemanticDb, shadowed: &mut Vec<Shadowed>)
        requires
            db.inv(),
            old(self).wf(db@.binders.len()),
            env_named(old(self).env.locals@, db@.binders),
            scope.wf(),
            scope.end() <= db@.binders.len(),
            shadowed_within(old(shadowed)@, db@.binders.len()),
        ensures
            final(self).wf(db@.binders.len()),
            env_named(final(self).env.locals@, db@.binders),
            shadowed_within(final(shadowed)@, db@.binders.len()),
            final(self).scopes@.len() == old(self).scopes@.len() + 1,
            final(self).marks@ == old(self).marks@.push(old(self).env.locals@.len() as usize),
            old(self).env.locals@.len() <= final(self).env.locals@.len(),
            old(self).env.locals@ == final(self).env.locals@.take(old(self).env.locals@.len() as int),
            forall|i: int|
                old(self).env.locals@.len() <= i < final(self).env.locals@.len() ==> scope.start() <= (
                #[trigger] final(self).env.locals@[i]).1.0 < scope.end(),
            final(shadowed)@ == old(shadowed)@ + shadow_records(
                old(self).env.locals@,
                scope_locals(db@.binders, scope.start() as int, scope.num() as int),
            ),
            final(self).env.locals@ == pushed_env(
                old(self).env.locals@,
                scope_locals(db@.binders, scope.start() as int, scope.num() as int),
            ),
    {
        let locals = db.binders_full(&scope);
        proof {
            assert(locals@ =~= scope_locals(db@.binders, scope.start() as int, scope.num() as int));
        }
        let mark = self.env.len();
        self.push_symbols(&locals, shadowed, Ghost(db@.binders));
        proof {
            assert forall|i: int|
                old(self).env.locals@.len() <= i < self.env.locals@.len() implies scope.start() <= (
                #[trigger] self.env.locals@[i]).1.0 < scope.end() by {
                let k = i - old(self).env.locals@.len();
                assert(self.env.locals@[old(self).env.locals@.len() + k].1 == locals@[k].0);
            }
        }
        self.scopes.push(scope);
        self.marks.push(mark);
    }

    /// Opens `scope`, bringing only its free binders into the environment.
    pub fn push_free(&mut self, scope: ScopeInfo, db: &SemanticDb, shadowed: &mut Vec<Shadowed>)
        requires
            db.inv(),
            old(self).wf(db@.binders.len()),
            env_named(old(self).env.locals@, db@.binders),
            scope.wf(),
            scope.end() <= db@.binders.len(),
            shadowed_within(old(shadowed)@, db@.binders.len()),
        ensures
            final(self).wf(db@.binders.len()),
            env_named(final(self).env.locals@, db@.binders),
            shadowed_within(final(shadowed)@, db@.binders.len()),
            final(self).scopes@.len() == old(self).scopes@.len() + 1,
            final(self).marks@ == old(self).marks@.push(old(self).env.locals@.len() as usize),
            old(self).env.locals@.len() <= final(self).env.locals@.len(),
            old(self).env.locals@ == final(self).env.locals@.take(old(self).env.locals@.len() as int),
            forall|i: int|
                old(self).env.locals@.len() <= i < final(self).env.locals@.len() ==> scope.start() <= (
                #[trigger] final(self).env.locals@[i]).1.0 < scope.end(),
    {
        let locals = db.free_binders_of(&scope);
        let mark = self.env.len();
        self.push_symbols(&locals, shadowed, Ghost(db@.binders));
        proof {
            crate::db::lemma_bit_ids_in_range(scope.free_bits(), true, scope.start() as int);
            assert forall|i: int|
                old(self).env.locals@.len() <= i < self.env.locals@.len() implies scope.start() <= (
                #[trigger] self.env.locals@[i]).1.0 < scope.end() by {
                let k = i - old(self).env.locals@.len();
                assert(self.env.locals@[old(self).env.locals@.len() + k].1 == locals@[k].0);
            }
        }
        self.scopes.push(scope);
        self.marks.push(mark);
    }

    /// Opens a scope without binders; binders are absorbed into it later.
    pub fn push_empty(&mut self, db: &SemanticDb, span: SourceSpan)
        requires
            db.inv(),
            old(self).wf(db@.binders.len()),
        ensures
            final(self).wf(db@.binders.len()),
            final(self).scopes@.len() == old(self).scopes@.len() + 1,
            final(self).marks@ == old(self).marks@.push(old(self).env.locals@.len() as usize),
            final(self).env.locals@ == old(self).env.locals@,
    {
        proof {
            db.lemma_inv_wf();
        }
        let s = ScopeInfo::ground(db.next_binder(), span);
        let mark = self.env.len();
        self.scopes.push(s);
        self.marks.push(mark);
    }

    /// Closes the innermost scope, dropping the binders it brought into the
    /// environment.
    pub fn pop(&mut self, Ghost(nb): Ghost<nat>) -> (r: ScopeInfo)
        requires
            old(self).wf(nb),
            old(self).scopes@.len() > 0,
        ensures
            final(self).wf(nb),
            r.wf(),
            r.end() <= nb,
            final(self).scopes@.len() == old(self).scopes@.len() - 1,
            final(self).marks@ == old(self).marks@.drop_last(),
            final(self).env.locals@ == old(self).env.locals@.take(old(self).marks@.last() as int),
    {
        let mark = self.marks.pop().unwrap();
        let scope = self.scopes.pop().unwrap();
        proof {
            assert(old(self).scopes@[old(self).scopes@.len() - 1] == scope);
            assert(old(self).marks@[old(self).marks@.len() - 1] == mark);
        }
        self.env.truncate(mark);
        proof {
            assert forall|i: int| 0 <= i < self.marks@.len() implies #[trigger] self.marks@[i]
                <= self.env.locals@.len() by {
                assert(old(self).marks@[i] <= old(self).marks@[old(self).marks@.len() - 1]);
            }
            assert forall|i: int| 0 <= i < self.env.locals@.len() implies 0 <= (
            #[trigger] self.env.locals@[i]).1.0 < nb by {
                assert(self.env.locals@[i] == old(self).env.locals@[i]);
            }
        }
        scope
    }

    /// Brings the free binders of `scope` into the environment and merges
    /// `scope` into the innermost open scope.  When the innermost scope does
    /// not end where `scope` starts, the binders stay in the environment until
    /// the innermost scope closes, and their uses are not recorded.
    pub fn absorb_free(&mut self, scope: ScopeInfo, db: &SemanticDb, shadowed: &mut Vec<Shadowed>)
        requires
            db.inv(),
            old(self).wf(db@.binders.len()),
            env_named(old(self).env.locals@, db@.binders),
            scope.wf(),
            scope.end() <= db@.binders.len(),
            shadowed_within(old(shadowed)@, db@.binders.len()),
        ensures
            final(self).wf(db@.binders.len()),
            env_named(final(self).env.locals@, db@.binders),
            shadowed_within(final(shadowed)@, db@.binders.len()),
            old(self).scopes@.len() > 0 ==> final(self).scopes@.len() == old(self).scopes@.len()
                && final(self).marks@ == old(self).marks@,
            old(self).env.locals@.len() <= final(self).env.locals@.len(),
            old(self).env.locals@ == final(self).env.locals@.take(old(self).env.locals@.len() as int),
            forall|i: int|
                old(self).env.locals@.len() <= i < final(self).env.locals@.len() ==> scope.start() <= (
                #[trigger] final(self).env.locals@[i]).1.0 < scope.end(),
            final(self).env.locals@ == pushed_env(old(self).env.locals@, free_locals(scope, db@.binders)),
            final(shadowed)@ == old(shadowed)@ + shadow_records(old(self).env.locals@, free_locals(scope, db@.binders)),
            old(self).scopes@.len() > 0 ==> final(self).scopes@.drop_last() == old(self).scopes@.drop_last()
                && if old(self).scopes@.last().end() == scope.start() {
                ScopeInfo::absorbed(old(self).scopes@.last(), scope, final(self).scopes@.last())
            } else {
                final(self).scopes@.last() == old(self).scopes@.last()
            },
            old(self).scopes@.len() == 0 ==> final(self).scopes@ == seq![scope] && final(self).marks@ == seq![
                old(self).env.locals@.len() as usize,
            ],
    {
        let locals = db.free_binders_of(&scope);
        let mark = self.env.len();
        proof {
            crate::db::lemma_bit_ids_in_range(scope.free_bits(), true, scope.start() as int);
            assert forall|k: int| 0 <= k < locals@.len() implies #[trigger] locals@[k] == free_locals(scope, db@.binders)[k] by {
                let id = bit_ids(scope.free_bits(), true, scope.start() as int)[k];
                assert(locals@[k].0.0 == id);
                assert(locals@[k].0 == BinderId(id as u32));
            }
            assert(locals@ =~= free_locals(scope, db@.binders));
        }
        self.push_symbols(&locals, shadowed, Ghost(db@.binders));
        proof {
            assert forall|i: int|
                old(self).env.locals@.len() <= i < self.env.locals@.len() implies scope.start() <= (
                #[trigger] self.env.locals@[i]).1.0 < scope.end() by {
                let k = i - old(self).env.locals@.len();
                assert(self.env.locals@[old(self).env.locals@.len() + k].1 == locals@[k].0);
            }
        }
        let n = self.scopes.len();
        if n > 0 {
            proof {
                assert(self.scopes@[n - 1].wf());
            }
            if self.scopes[n - 1].binder_end().0 == scope.binder_start().0 {
                self.scopes[n - 1].absorb(scope);
            }
            proof {
                assert forall|i: int| 0 <= i < self.marks@.len() implies #[trigger] self.marks@[i]
                    <= self.env.locals@.len() by {
                    assert(old(self).marks@[i] <= old(self).env.locals@.len());
                }
            }
        } else {
            self.scopes.push(scope);
            self.marks.push(mark);
        }
    }

    pub fn lookup(&self, sym: Symbol) -> (r: Option<BinderId>)
        ensures
            r == env_lookup(self.env.locals@, sym),
    {
        self.env.lookup(sym)
    }

    /// Records a use of `binder` from the innermost scope: a use of its own
    /// binder, or a capture of an outer binder, which is then a use in the
    /// scope that owns it.
    pub fn use_from_current(&mut self, binder: BinderId, Ghost(nb): Ghost<nat>)
        requires
            old(self).wf(nb),
        ensures
            final(self).wf(nb),
            final(self).same_shape(old(self)),
            old(self).scopes@.len() == 0 ==> final(self).scopes@ == old(self).scopes@,
            old(self).scopes@.len() > 0 && old(self).scopes@.last().spec_contains(binder) ==> final(self).scopes@.drop_last()
                == old(self).scopes@.drop_last() && ScopeInfo::marked_used(
                old(self).scopes@.last(),
                binder,
                final(self).scopes@.last(),
            ),
            old(self).scopes@.len() > 0 && !old(self).scopes@.last().spec_contains(binder) ==> (if binder.0
                < old(self).scopes@.last().start() {
                ScopeInfo::marked_captured(old(self).scopes@.last(), binder, final(self).scopes@.last())
            } else {
                final(self).scopes@.last() == old(self).scopes@.last()
            }) && use_recorded_in_owner(
                old(self).scopes@.drop_last(),
                binder,
                final(self).scopes@.drop_last(),
            ),
            used_from_current(old(self).scopes@, binder, final(self).scopes@),
    {
        let n = self.scopes.len();
        if n == 0 {
            return;
        }
        proof {
            assert(self.scopes@[n - 1].wf());
        }
        if self.scopes[n - 1].contains(binder) {
            self.scopes[n - 1].mark_used(binder);
            proof {
                assert(self.scopes@.drop_last() =~= old(self).scopes@.drop_last());
            }
        } else {
            if binder.0 < self.scopes[n - 1].binder_start().0 {
                self.scopes[n - 1].mark_captured(binder);
            }
            let ghost mid = self.scopes@;
            proof {
                assert(mid.drop_last() =~= old(self).scopes@.drop_last());
                assert(!mid[n - 1].spec_contains(binder));
                lemma_owner_prefix(mid, mid.drop_last(), binder, n - 1);
                lemma_owner_prefix(mid, old(self).scopes@, binder, n - 1);
            }
            self.use_in_owner(binder, Ghost(nb));
            proof {
                let fin = self.scopes@;
                assert(owner_below(mid, binder, n as int) == owner_below(mid, binder, n - 1));
                match owner_below(mid, binder, n as int) {
                    Some(i) => {
                        assert(fin[n - 1] == mid[n - 1]);
                        assert(fin.drop_last().len() == mid.drop_last().len());
                        assert forall|j: int| 0 <= j < mid.drop_last().len() && j != i implies
                            #[trigger] fin.drop_last()[j] == mid.drop_last()[j] by {
                            assert(fin[j] == mid[j]);
                        }
                        assert(fin.drop_last()[i] == fin[i]);
                        assert(mid.drop_last()[i] == mid[i]);
                    },
                    None => {
                        assert(fin.drop_last() =~= mid.drop_last());
                    },
                }
            }
        }
    }

    /// Records a use of `binder` in the innermost scope that owns it.
    pub fn use_in_owner(&mut self, binder: BinderId, Ghost(nb): Ghost<nat>)
        requires
            old(self).wf(nb),
        ensures
            final(self).wf(nb),
            final(self).same_shape(old(self)),
            use_recorded_in_owner(old(self).scopes@, binder, final(self).scopes@),
    {
        let mut i = self.scopes.len();
        while i > 0
            invariant
                i <= self.scopes@.len(),
                self.wf(nb),
                self.same_shape(old(self)),
                self.scopes@ == old(self).scopes@,
                owner_below(old(self).scopes@, binder, old(self).scopes@.len() as int) == owner_below(
                    old(self).scopes@,
                    binder,
                    i as int,
                ),
            decreases i,
        {
            proof {
                assert(self.scopes@[i - 1].wf());
            }
            if self.scopes[i - 1].contains(binder) {
                self.scopes[i - 1].mark_used(binder);
                proof {
                    assert forall|j: int| 0 <= j < old(self).scopes@.len() && j != i - 1 implies
                        #[trigger] self.scopes@[j] == old(self).scopes@[j] by {}
                }
                return;
            }
            i = i - 1;
        }
    }
}

/// The precondition shared by the process walkers.
pub open spec fn walk_proc_pre(db: SemanticDb, stack: BindingStack, lo: int, hi: int) -> bool {
    &&& db.inv()
    &&& stack.wf(db@.binders.len())
    &&& env_named(stack.env.locals@, db@.binders)
    &&& env_located(stack.env.locals@, db@.binders, lo, hi)
    &&& hi <= db@.procs.len()
    &&& hi <= crate::index::index_bound()
}

/// The postcondition shared by the process walkers: the database is still
/// consistent, the same scopes are open over the same environment, and the
/// database changed by a resolution step of `lo..hi`.
pub open spec fn walk_proc_post(
    od: SemanticDb,
    nd: SemanticDb,
    os: BindingStack,
    ns: BindingStack,
    lo: int,
    hi: int,
) -> bool {
    &&& nd.inv()
    &&& ns.wf(nd@.binders.len())
    &&& env_named(ns.env.locals@, nd@.binders)
    &&& env_located(ns.env.locals@, nd@.binders, lo, hi)
    &&& ns.same_shape(&os)
    &&& resolution_step(od@, nd@, lo, hi)
}

/// Like `walk_proc_post`, but the environment may have grown: binders were
/// brought into the innermost open scope.
pub open spec fn walk_proc_grow(
    od: SemanticDb,
    nd: SemanticDb,
    os: BindingStack,
    ns: BindingStack,
    lo: int,
    hi: int,
) -> bool {
    &&& nd.inv()
    &&& ns.wf(nd@.binders.len())
    &&& env_named(ns.env.locals@, nd@.binders)
    &&& env_located(ns.env.locals@, nd@.binders, lo, hi)
    &&& ns.scopes@.len() == os.scopes@.len()
    &&& ns.marks@ == os.marks@
    &&& os.env.locals@.len() <= ns.env.locals@.len()
    &&& ns.env.locals@.take(os.env.locals@.len() as int) == os.env.locals@
    &&& resolution_step(od@, nd@, lo, hi)
}

pub broadcast proof fn lemma_walk_grow_trans(
    d0: SemanticDb,
    d1: SemanticDb,
    d2: SemanticDb,
    s0: BindingStack,
    s1: BindingStack,
    s2: BindingStack,
    lo: int,
    hi: int,
)
    requires
        #[trigger] walk_proc_grow(d0, d1, s0, s1, lo, hi),
        #[trigger] walk_proc_grow(d1, d2, s1, s2, lo, hi),
    ensures
        walk_proc_grow(d0, d2, s0, s2, lo, hi),
{
    lemma_step_trans(d0@, d1@, d2@, lo, hi);
    assert(s2.env.locals@.take(s0.env.locals@.len() as int) =~= s2.env.locals@.take(
        s1.env.locals@.len() as int,
    ).take(s0.env.locals@.len() as int));
}

/// A walk that keeps the shape also counts as one that grows the environment.
pub broadcast proof fn lemma_walk_post_grow(
    d0: SemanticDb,
    d1: SemanticDb,
    s0: BindingStack,
    s1: BindingStack,
    lo: int,
    hi: int,
)
    requires
        #[trigger] walk_proc_post(d0, d1, s0, s1, lo, hi),
    ensures
        walk_proc_grow(d0, d1, s0, s1, lo, hi),
{
    assert(s1.env.locals@.take(s0.env.locals@.len() as int) =~= s0.env.locals@);
}

pub broadcast proof fn lemma_walk_proc_trans(
    d0: SemanticDb,
    d1: SemanticDb,
    d2: SemanticDb,
    s0: BindingStack,
    s1: BindingStack,
    s2: BindingStack,
    lo: int,
    hi: int,
)
    requires
        #[trigger] walk_proc_post(d0, d1, s0, s1, lo, hi),
        #[trigger] walk_proc_post(d1, d2, s1, s2, lo, hi),
    ensures
        walk_proc_post(d0, d2, s0, s2, lo, hi),
{
    lemma_step_trans(d0@, d1@, d2@, lo, hi);
}

/// The environment `env` after bringing the binders `locals` into it, in order.
pub open spec fn pushed_env(env: Seq<(Symbol, BinderId)>, locals: Seq<(BinderId, Binder)>) -> Seq<(Symbol, BinderId)> {
    env + locals.map_values(|l: (BinderId, Binder)| (l.1.name, l.0))
}

/// The `n` binders of `binders` from `start` on, with their ids.
pub open spec fn scope_locals(binders: Seq<Binder>, start: int, n: int) -> Seq<(BinderId, Binder)> {
    Seq::new(n as nat, |i: int| (BinderId((start + i) as u32), binders[start + i]))
}

/// The shadowing records made while bringing `locals` into `env`: each binder
/// that finds one of its name already in the environment shadows the
/// innermost such binder.
pub open spec fn shadow_records(env: Seq<(Symbol, BinderId)>, locals: Seq<(BinderId, Binder)>) -> Seq<Shadowed>
    decreases locals.len(),
{
    if locals.len() == 0 {
        Seq::empty()
    } else {
        let prev = locals.drop_last();
        shadow_records(env, prev) + match env_lookup(pushed_env(env, prev), locals.last().1.name) {
            Some(o) => seq![Shadowed { new: locals.last().0, old: o }],
            None => Seq::empty(),
        }
    }
}

/// The innermost of the first `upto` scopes of `scopes` that holds `b`.
pub open spec fn owner_below(scopes: Seq<ScopeInfo>, b: BinderId, upto: int) -> Option<int>
    decreases upto,
{
    if upto <= 0 {
        None
    } else if scopes[upto - 1].spec_contains(b) {
        Some(upto - 1)
    } else {
        owner_below(scopes, b, upto - 1)
    }
}

/// `n` is the stack of scopes `o` with the use of `b` recorded in the
/// innermost scope that holds it; unchanged when none does.
pub open spec fn use_recorded_in_owner(o: Seq<ScopeInfo>, b: BinderId, n: Seq<ScopeInfo>) -> bool {
    match owner_below(o, b, o.len() as int) {
        Some(i) => n.len() == o.len() && (forall|j: int| 0 <= j < o.len() && j != i ==> #[trigger] n[j] == o[j])
            && ScopeInfo::marked_used(o[i], b, n[i]),
        None => n == o,
    }
}

/// The owner among the first `upto` scopes depends on those scopes alone.
proof fn lemma_owner_prefix(a: Seq<ScopeInfo>, c: Seq<ScopeInfo>, b: BinderId, upto: int)
    requires
        0 <= upto <= a.len(),
        upto <= c.len(),
        forall|j: int| 0 <= j < upto ==> #[trigger] a[j] == c[j],
    ensures
        owner_below(a, b, upto) == owner_below(c, b, upto),
        owner_below(a, b, upto) matches Some(i) ==> 0 <= i < upto && a[i].spec_contains(b),
    decreases upto,
{
    if upto > 0 {
        assert(a[upto - 1] == c[upto - 1]);
        lemma_owner_prefix(a, c, b, upto - 1);
    }
}

/// The free binders of `scope`, with their records in `binders`.
pub open spec fn free_locals(scope: ScopeInfo, binders: Seq<Binder>) -> Seq<(BinderId, Binder)> {
    bit_ids(scope.free_bits(), true, scope.start() as int).map_values(
        |id: int| (BinderId(id as u32), binders[id]),
    )
}

/// What `report_shadowed` reports for the shadowing record `sh` at process
/// `current`.
pub open spec fn shadow_diag(binders: Seq<Binder>, current: PID, sh: Shadowed, disallow_dups: bool) -> Diagnostic {
    let nb = binders[sh.new.0 as int];
    let ob = binders[sh.old.0 as int];
    let original = SymbolOccurrence { symbol: ob.name, position: ob.source_position };
    Diagnostic {
        pid: current,
        kind: if disallow_dups && ob.scope.0 == current.0 {
            DiagnosticKind::Error(ErrorKind::DuplicateVarDef { original })
        } else {
            DiagnosticKind::Warning(WarningKind::ShadowedVar { original })
        },
        exact_position: Some(nb.source_position),
    }
}

/// The diagnostics for the shadowing records `shs`, in order.
pub open spec fn shadow_diags(binders: Seq<Binder>, current: PID, shs: Seq<Shadowed>, disallow_dups: bool) -> Seq<Diagnostic> {
    shs.map_values(|sh: Shadowed| shadow_diag(binders, current, sh, disallow_dups))
}

/// Reports binders that shadow others.  With `disallow_dups`, a binder that
/// shadows one of the same process is a duplicate definition (an error);
/// every other shadowing is a warning.
pub fn report_shadowed(
    db: &mut SemanticDb,
    current: PID,
    shadowed: &Vec<Shadowed>,
    disallow_dups: bool,
    Ghost(lo): Ghost<int>,
    Ghost(hi): Ghost<int>,
)
    requires
        old(db).inv(),
        shadowed_within(shadowed@, old(db)@.binders.len()),
        lo <= current.0 < hi,
    ensures
        final(db).inv(),
        resolution_step(old(db)@, final(db)@, lo, hi),
        final(db)@.bound == old(db)@.bound,
        final(db)@.binders == old(db)@.binders,
        final(db)@ == (DbView {
            diags: old(db)@.diags + shadow_diags(old(db)@.binders, current, shadowed@, disallow_dups),
            ..old(db)@
        }),
{
    proof {
        assert(shadowed@.take(0) =~= Seq::<Shadowed>::empty());
        assert(old(db)@.diags + shadow_diags(old(db)@.binders, current, Seq::<Shadowed>::empty(), disallow_dups) =~= old(db)@.diags);
    }
    let mut i: usize = 0;
    while i < shadowed.len()
        invariant
            i <= shadowed@.len(),
            db.inv(),
            shadowed_within(shadowed@, db@.binders.len()),
            db@.binders == old(db)@.binders,
            db@.bound == old(db)@.bound,
            lo <= current.0 < hi,
            resolution_step(old(db)@, db@, lo, hi),
            db@ == (DbView {
                diags: old(db)@.diags + shadow_diags(old(db)@.binders, current, shadowed@.take(i as int), disallow_dups),
                ..old(db)@
            }),
        decreases shadowed@.len() - i,
    {
        let shadow = shadowed[i];
        proof {
            assert(shadowed@[i as int].new.0 < db@.binders.len());
        }
        let new_binder = db.binder(shadow.new);
        let old_binder = db.binder(shadow.old);
        let ghost before = db@;
        if disallow_dups && old_binder.scope.0 == current.0 {
            db.error(
                current,
                ErrorKind::DuplicateVarDef { original: SymbolOccurrence::from_binder(&old_binder) },
                Some(new_binder.source_position),
            );
        } else {
            db.warning(
                current,
                WarningKind::ShadowedVar { original: SymbolOccurrence::from_binder(&old_binder) },
                Some(new_binder.source_position),
            );
        }
        proof {
            assert(resolution_step(before, db@, lo, hi));
            lemma_step_trans(old(db)@, before, db@, lo, hi);
            let t = shadowed@.take(i + 1);
            assert(t =~= shadowed@.take(i as int).push(shadow));
            assert(shadow_diags(old(db)@.binders, current, t, disallow_dups) =~= shadow_diags(
                old(db)@.binders,
                current,
                shadowed@.take(i as int),
                disallow_dups,
            ).push(shadow_diag(old(db)@.binders, current, shadow, disallow_dups)));
            assert(db@.diags =~= old(db)@.diags + shadow_diags(old(db)@.binders, current, t, disallow_dups));
        }
        i = i + 1;
    }
    proof {
        assert(shadowed@.take(i as int) =~= shadowed@);
    }
}

/// The string table `strings` after interning `s` where there is room for it.
pub open spec fn interned_if_room(strings: Seq<Seq<char>>, s: Seq<char>) -> Seq<Seq<char>> {
    if strings.contains(s) || strings.len() < u32::MAX {
        crate::db::interned(strings, s)
    } else {
        strings
    }
}

/// Interning a string where there is room a second time changes nothing.
pub proof fn lemma_interned_if_room_idem(strings: Seq<Seq<char>>, s: Seq<char>)
    ensures
        interned_if_room(interned_if_room(strings, s), s) == interned_if_room(strings, s),
{
    if strings.contains(s) || strings.len() < u32::MAX {
        let t = crate::db::interned(strings, s);
        if !strings.contains(s) {
            assert(t[strings.len() as int] == s);
        }
        assert(t.contains(s));
    }
}

/// The symbol of `s`, interning it when there is room for a new symbol;
/// `None` when `s` is new and the table is full.
pub fn intern_guarded(db: &mut SemanticDb, s: &str) -> (r: Option<Symbol>)
    requires
        old(db).inv(),
    ensures
        final(db).inv(),
        forall|lo: int, hi: int| resolution_step(old(db)@, final(db)@, lo, hi),
        final(db)@.bound == old(db)@.bound,
        final(db)@.binders == old(db)@.binders,
        final(db)@.diags == old(db)@.diags,
        final(db)@.scopes == old(db)@.scopes,
        match r {
            Some(sym) => sym.0 < final(db)@.strings.len() && final(db)@.strings[sym.0 as int] == s@,
            None => final(db)@.strings == old(db)@.strings && !final(db)@.strings.contains(s@)
                && final(db)@.strings.len() >= u32::MAX,
        },
        final(db)@.strings == interned_if_room(old(db)@.strings, s@),
{
    proof {
        db.lemma_inv_wf();
    }
    if db.symbol_count() < 0xFFFF_FFFFusize {
        Some(db.intern(s))
    } else {
        db.symbol_of(s)
    }
}

/// In a table without duplicates, `sym` is the only symbol of its string.
pub proof fn lemma_unique_symbol(strings: Seq<Seq<char>>, sym: Symbol, name: Seq<char>)
    requires
        strings.no_duplicates(),
        sym.0 < strings.len(),
        strings[sym.0 as int] == name,
    ensures
        forall|s: Symbol| s.0 < strings.len() && #[trigger] strings[s.0 as int] == name ==> s == sym,
{
}

/// The scopes `n` are `o` after a use of `binder` from the innermost scope:
/// the use is marked in the scope that owns `binder`, and an outer binder is
/// also marked captured by the innermost scope.
pub open spec fn used_from_current(o: Seq<ScopeInfo>, binder: BinderId, n: Seq<ScopeInfo>) -> bool {
    &&& n.len() == o.len()
    &&& o.len() == 0 ==> n == o
    &&& o.len() > 0 && o.last().spec_contains(binder) ==> n.drop_last() == o.drop_last()
        && ScopeInfo::marked_used(o.last(), binder, n.last())
    &&& o.len() > 0 && !o.last().spec_contains(binder) ==> (if binder.0 < o.last().start() {
        ScopeInfo::marked_captured(o.last(), binder, n.last())
    } else {
        n.last() == o.last()
    }) && use_recorded_in_owner(o.drop_last(), binder, n.drop_last())
}

/// What resolving the use `id` at `site` does, from database `o` and open
/// scopes `os` (with environment `locals`) to `n` and `ns`: when a binder of
/// its name is in scope, the occurrence is bound to the innermost one, a
/// binder of the other kind than `expects_name` asks for is reported, and the
/// use is recorded in the scopes; otherwise nothing is bound, the scopes are
/// unchanged, and the use is reported unbound at `site`.
pub open spec fn use_outcome(
    o: DbView,
    n: DbView,
    locals: Seq<(Symbol, BinderId)>,
    os: Seq<ScopeInfo>,
    ns: Seq<ScopeInfo>,
    id: Id,
    expects_name: bool,
    site: PID,
) -> bool {
    let sym = symbol_index(n.strings, id.name@);
    let occ = SymbolOccurrence { symbol: sym, position: id.pos };
    &&& n.strings == interned_if_room(o.strings, id.name@)
    &&& n.binders == o.binders
    &&& n.scopes == o.scopes
    &&& n.procs == o.procs
    &&& n.enclosing == o.enclosing
    &&& if n.strings.contains(id.name@) && env_lookup(locals, sym) is Some {
        let b = env_lookup(locals, sym)->0;
        &&& lookup_binding(n.bound, occ) == Some(VarBinding::Bound(b))
        &&& forall|x: SymbolOccurrence|
            x != occ ==> #[trigger] lookup_binding(n.bound, x) == lookup_binding(o.bound, x)
        &&& n.diags == if (o.binders[b.0 as int].kind is Name) != expects_name {
            o.diags.push(
                Diagnostic {
                    pid: site,
                    kind: DiagnosticKind::Error(ErrorKind::kind_mismatch_spec(b, sym, expects_name)),
                    exact_position: Some(id.pos),
                },
            )
        } else {
            o.diags
        }
        &&& used_from_current(os, b, ns)
    } else {
        &&& n.bound == o.bound
        &&& n.diags == o.diags.push(
            Diagnostic {
                pid: site,
                kind: DiagnosticKind::Error(ErrorKind::UnboundVariable),
                exact_position: Some(id.pos),
            },
        )
        &&& ns == os
    }
}

/// What resolving the occurrence `var` at `site` against the environment
/// `locals` does to the database, from `o` to `n`, when it returns `r`: with
/// `Some((occ, b))`, `b` is the innermost binder of that name in `locals`,
/// the occurrence is recorded as bound to it, and a binder of the other kind
/// than `expects_name` asks for is reported at `site`; with `None`, no binder
/// of that name is in `locals` and nothing is recorded.
pub open spec fn var_resolved(
    o: DbView,
    n: DbView,
    locals: Seq<(Symbol, BinderId)>,
    var: Id,
    expects_name: bool,
    site: PID,
    r: Option<(SymbolOccurrence, BinderId)>,
) -> bool {
    match r {
        Some((occ, b)) => {
            &&& occ.position == var.pos
            &&& occ.symbol.0 < n.strings.len()
            &&& n.strings[occ.symbol.0 as int] == var.name@
            &&& env_lookup(locals, occ.symbol) == Some(b)
            &&& b.0 < n.binders.len()
            &&& lookup_binding(n.bound, occ) == Some(VarBinding::Bound(b))
            &&& forall|x: SymbolOccurrence|
                x != occ ==> #[trigger] lookup_binding(n.bound, x) == lookup_binding(o.bound, x)
            &&& n.diags == if (o.binders[b.0 as int].kind is Name) != expects_name {
                o.diags.push(
                    Diagnostic {
                        pid: site,
                        kind: DiagnosticKind::Error(
                            ErrorKind::kind_mismatch_spec(b, occ.symbol, expects_name),
                        ),
                        exact_position: Some(occ.position),
                    },
                )
            } else {
                o.diags
            }
        },
        None => {
            &&& n.bound == o.bound
            &&& n.diags == o.diags
            &&& forall|sym: Symbol|
                sym.0 < n.strings.len() && #[trigger] n.strings[sym.0 as int] == var.name@
                    ==> env_lookup(locals, sym) is None
        },
    }
}

/// Resolves variable `var` against the open scopes, recording the binding at
/// `site`.  Returns `None` when no binder of that name is in scope.
pub fn resolve_var(
    var: &Id,
    expects_name: bool,
    site: PID,
    db: &mut SemanticDb,
    stack: &mut BindingStack,
    Ghost(lo): Ghost<int>,
    Ghost(hi): Ghost<int>,
) -> (r: Option<(SymbolOccurrence, BinderId)>)
    requires
        old(db).inv(),
        old(stack).wf(old(db)@.binders.len()),
        env_named(old(stack).env.locals@, old(db)@.binders),
        env_located(old(stack).env.locals@, old(db)@.binders, lo, hi),
        lo <= site.0 < hi,
    ensures
        final(db).inv(),
        final(stack).wf(final(db)@.binders.len()),
        env_named(final(stack).env.locals@, final(db)@.binders),
        final(stack).same_shape(old(stack)),
        resolution_step(old(db)@, final(db)@, lo, hi),
        final(db)@.binders == old(db)@.binders,
        var_resolved(old(db)@, final(db)@, old(stack).env.locals@, *var, expects_name, site, r),
        final(db)@.strings == interned_if_room(old(db)@.strings, var.name@),
        final(db)@.scopes == old(db)@.scopes,
        r matches Some((_, b)) ==> used_from_current(old(stack).scopes@, b, final(stack).scopes@),
        r is None ==> *final(stack) == *old(stack),
{
    let sym = match intern_guarded(db, var.name.as_str()) {
        Some(s) => s,
        None => {
            proof {
                assert forall|sym: Symbol|
                    sym.0 < db@.strings.len() && #[trigger] db@.strings[sym.0 as int] == var.name@
                    implies env_lookup(old(stack).env.locals@, sym) is None by {
                    assert(db@.strings.contains(var.name@));
                }
            }
            return None;
        },
    };
    proof {
        lemma_env_lookup_within(stack.env.locals@, sym, 0, db@.binders.len() as int);
        lemma_named_lookup(stack.env.locals@, db@.binders, sym);
        lemma_located_grow(stack.env.locals@, old(db)@, db@, lo, hi, lo, hi);
        lemma_located_lookup(stack.env.locals@, db@.binders, sym, lo, hi);
    }
    let ghost interned_db = db@;
    proof {
        db.lemma_inv_wf();
    }
    match stack.lookup(sym) {
        Some(binder) => {
            stack.use_from_current(binder, Ghost(db@.binders.len()));
            let occ = SymbolOccurrence { symbol: sym, position: var.pos };
            let ghost before = db@;
            let _ = db.map_symbol_to_binder(occ, binder, expects_name, site);
            proof {
                assert(resolution_step(before, db@, lo, hi));
                lemma_step_trans(old(db)@, before, db@, lo, hi);
            }
            Some((occ, binder))
        },
        None => {
            proof {
                lemma_unique_symbol(interned_db.strings, sym, var.name@);
            }
            None
        },
    }
}

/// Resolves the binder that the reference `=var` or `=*var` in a pattern
/// refers to, recording the binding at `pattern`.
pub fn resolve_var_ref(
    var: &Id,
    kind: VarRefKind,
    pattern: PID,
    db: &mut SemanticDb,
    stack: &mut BindingStack,
    Ghost(lo): Ghost<int>,
    Ghost(hi): Ghost<int>,
) -> (r: Option<(SymbolOccurrence, BinderId)>)
    requires
        old(db).inv(),
        old(stack).wf(old(db)@.binders.len()),
        env_named(old(stack).env.locals@, old(db)@.binders),
        env_located(old(stack).env.locals@, old(db)@.binders, lo, hi),
        lo <= pattern.0 < hi,
    ensures
        final(db).inv(),
        final(stack).wf(final(db)@.binders.len()),
        env_named(final(stack).env.locals@, final(db)@.binders),
        final(stack).same_shape(old(stack)),
        resolution_step(old(db)@, final(db)@, lo, hi),
        final(db)@.binders == old(db)@.binders,
        var_resolved(old(db)@, final(db)@, old(stack).env.locals@, *var, kind is Name, pattern, r),
        final(db)@.strings == interned_if_room(old(db)@.strings, var.name@),
{
    let sym = match intern_guarded(db, var.name.as_str()) {
        Some(s) => s,
        None => {
            proof {
                assert forall|sym: Symbol|
                    sym.0 < db@.strings.len() && #[trigger] db@.strings[sym.0 as int] == var.name@
                    implies env_lookup(old(stack).env.locals@, sym) is None by {
                    assert(db@.strings.contains(var.name@));
                }
            }
            return None;
        },
    };
    proof {
        lemma_env_lookup_within(stack.env.locals@, sym, 0, db@.binders.len() as int);
        lemma_named_lookup(stack.env.locals@, db@.binders, sym);
        lemma_located_grow(stack.env.locals@, old(db)@, db@, lo, hi, lo, hi);
        lemma_located_lookup(stack.env.locals@, db@.binders, sym, lo, hi);
    }
    let ghost interned_db = db@;
    proof {
        db.lemma_inv_wf();
    }
    match stack.lookup(sym) {
        Some(binder) => {
            stack.use_in_owner(binder, Ghost(db@.binders.len()));
            let occ = SymbolOccurrence { symbol: sym, position: var.pos };
            let expects_name = match kind {
                VarRefKind::Name => true,
                VarRefKind::Proc => false,
            };
            let ghost before = db@;
            let _ = db.map_symbol_to_binder(occ, binder, expects_name, pattern);
            proof {
                assert(resolution_step(before, db@, lo, hi));
                lemma_step_trans(old(db)@, before, db@, lo, hi);
            }
            Some((occ, binder))
        },
        None => {
            proof {
                lemma_unique_symbol(interned_db.strings, sym, var.name@);
            }
            None
        },
    }
}

/// Closes the innermost scope of the stack as the scope of process `pid`:
/// reports what its binders shadow, then records the scope in the database.
pub fn close_scope(
    db: &mut SemanticDb,
    stack: &mut BindingStack,
    pid: PID,
    shadowed: &Vec<Shadowed>,
    disallow_dups: bool,
    Ghost(lo): Ghost<int>,
    Ghost(hi): Ghost<int>,
)
    requires
        old(db).inv(),
        old(stack).wf(old(db)@.binders.len()),
        env_named(old(stack).env.locals@, old(db)@.binders),
        old(stack).scopes@.len() > 0,
        shadowed_within(shadowed@, old(db)@.binders.len()),
        lo <= pid.0 < hi,
        hi <= old(db)@.procs.len(),
    ensures
        final(db).inv(),
        final(stack).wf(final(db)@.binders.len()),
        env_named(final(stack).env.locals@, final(db)@.binders),
        resolution_step(old(db)@, final(db)@, lo, hi),
        final(db)@.binders == old(db)@.binders,
        final(stack).scopes@.len() == old(stack).scopes@.len() - 1,
        final(stack).marks@ == old(stack).marks@.drop_last(),
        final(stack).env.locals@ == old(stack).env.locals@.take(old(stack).marks@.last() as int),
        pid.0 < final(db)@.scopes.len(),
        final(db)@.scopes[pid.0 as int] is Some,
        final(db)@.diags == old(db)@.diags + shadow_diags(old(db)@.binders, pid, shadowed@, disallow_dups),
        final(db)@.bound == old(db)@.bound,
        final(db)@.strings == old(db)@.strings,
{
    report_shadowed(db, pid, shadowed, disallow_dups, Ghost(lo), Ghost(hi));
    let popped = stack.pop(Ghost(db@.binders.len()));
    proof {
        db.lemma_inv_wf();
        lemma_named_parts(old(stack).env.locals@, db@.binders, old(stack).marks@.last() as int, old(stack).marks@.last() as int);
    }
    let ghost before = db@;
    let _ = db.add_scope(pid, popped);
    proof {
        assert(resolution_step(before, db@, lo, hi));
        lemma_step_trans(old(db)@, before, db@, lo, hi);
    }
}

} // verus!
