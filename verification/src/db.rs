//! The semantic database: indexed processes, interned symbols, binders, scopes,
//! the enclosure relation, variable bindings and diagnostics.
use crate::ast::{pos_lt, AnnProc, Id, Proc, SourcePos, SourceSpan};
use crate::bits::{bitvec_bits, bv_get, bv_push, bv_repeat, BitList, MAX_BITS};
use crate::index::{index_bound, ProcIndex};
use crate::interner::Interner;
use crate::scope::{bit_ids, id_values, ScopeInfo};
use crate::subtree::{lemma_fit_concat, lemma_fit_proc, subtrees_fit};
use crate::tree::preorder;
use crate::types::{
    occ_lt, Binder, BinderId, BinderKind, BoundOccurence, Diagnostic, DiagnosticKind, ErrorKind,
    Symbol, SymbolOccurrence, VarBinding, WarningKind, PID,
};
use vstd::prelude::*;

verus! {

/// What the database holds, as mathematical values.
#[verifier::ext_equal]
pub struct DbView {
    /// Indexed processes; `procs[i]` has PID `i`.
    pub procs: Seq<AnnProc>,
    /// Interned strings; symbol `i` stands for `strings[i]`.
    pub strings: Seq<Seq<char>>,
    /// Diagnostics in the order they were emitted.
    pub diags: Seq<Diagnostic>,
    /// Binders; binder id `i` stands for `binders[i]`.
    pub binders: Seq<Binder>,
    /// The scope each process introduces, by PID.
    pub scopes: Seq<Option<ScopeInfo>>,
    /// The nearest enclosing scoped process of each process, by PID.
    pub enclosing: Seq<PID>,
    /// Variable occurrences and their bindings, in reading order.
    pub bound: Seq<BoundOccurence>,
}

/// The string table after interning `s`: unchanged when `s` is already in
/// it, else with `s` appended.
pub open spec fn interned(strings: Seq<Seq<char>>, s: Seq<char>) -> Seq<Seq<char>> {
    if strings.contains(s) {
        strings
    } else {
        strings.push(s)
    }
}

/// Some diagnostic is an error.
pub open spec fn any_error(ds: Seq<Diagnostic>) -> bool {
    exists|i: int| 0 <= i < ds.len() && (#[trigger] ds[i]).spec_is_error()
}

/// The errors among `ds`, in order.
pub open spec fn errors_of(ds: Seq<Diagnostic>) -> Seq<Diagnostic> {
    ds.filter(|d: Diagnostic| d.spec_is_error())
}

/// The warnings among `ds`, in order.
pub open spec fn warnings_of(ds: Seq<Diagnostic>) -> Seq<Diagnostic> {
    ds.filter(|d: Diagnostic| d.kind is Warning)
}

/// The occurrences are strictly increasing in reading order.
pub open spec fn sorted_occurrences(bound: Seq<BoundOccurence>) -> bool {
    forall|i: int, j: int|
        0 <= i < j < bound.len() ==> occ_lt(#[trigger] bound[i].occurence, #[trigger] bound[j].occurence)
}

/// The binding recorded for `occ`, if any.
pub open spec fn lookup_binding(bound: Seq<BoundOccurence>, occ: SymbolOccurrence) -> Option<
    VarBinding,
> {
    if exists|i: int| 0 <= i < bound.len() && (#[trigger] bound[i]).occurence == occ {
        let i = choose|i: int| 0 <= i < bound.len() && (#[trigger] bound[i]).occurence == occ;
        Some(bound[i].binding)
    } else {
        None
    }
}

/// The occurrence lies in `[span.start, span.end)`.
pub open spec fn occ_in_span(occ: SymbolOccurrence, span: SourceSpan) -> bool {
    !pos_lt(occ.position, span.start) && pos_lt(occ.position, span.end)
}

/// The scopes present in `scopes`, in order.
pub open spec fn present_scopes(scopes: Seq<Option<ScopeInfo>>) -> Seq<ScopeInfo> {
    scopes.filter(|o: Option<ScopeInfo>| o is Some).map_values(|o: Option<ScopeInfo>| o->0)
}

/// `p`'s enclosing scoped process, if it has one recorded.
pub open spec fn enclosing_of(v: DbView, pid: PID) -> Option<PID> {
    if pid.0 < v.enclosing.len() && v.enclosing[pid.0 as int] != PID::spec_top_level() {
        Some(v.enclosing[pid.0 as int])
    } else {
        None
    }
}

pub open spec fn scoped(v: DbView, pid: PID) -> bool {
    pid.0 < v.scopes.len() && v.scopes[pid.0 as int] is Some
}

/// The scoped processes reached by walking outward from `pid` (excluded).
pub open spec fn ancestor_chain(v: DbView, pid: PID) -> Seq<PID>
    decreases pid.0,
{
    match enclosing_of(v, pid) {
        Some(q) => if q.0 < pid.0 {
            (if scoped(v, q) {
                seq![q]
            } else {
                Seq::empty()
            }) + ancestor_chain(v, q)
        } else {
            Seq::empty()
        },
        None => Seq::empty(),
    }
}

/// `pid` itself when it is scoped, then its scoped ancestors, nearest first.
pub open spec fn scope_chain_of(v: DbView, pid: PID) -> Seq<PID> {
    (if scoped(v, pid) {
        seq![pid]
    } else {
        Seq::empty()
    }) + ancestor_chain(v, pid)
}

/// The last binder of `binders[start..end]` named `sym`.
pub open spec fn last_binder_named(binders: Seq<Binder>, start: int, end: int, sym: Symbol) -> Option<
    BinderId,
>
    decreases end - start,
{
    if end <= start {
        None
    } else if binders[end - 1].name == sym {
        Some(BinderId((end - 1) as u32))
    } else {
        last_binder_named(binders, start, end - 1, sym)
    }
}

/// The binder for `sym` in the first scope of `chain` that declares one.
pub open spec fn lookup_chain(v: DbView, chain: Seq<PID>, sym: Symbol) -> Option<BinderId>
    decreases chain.len(),
{
    if chain.len() == 0 {
        None
    } else {
        let s = v.scopes[chain[0].0 as int]->0;
        match last_binder_named(v.binders, s.start() as int, s.end() as int, sym) {
            Some(b) => Some(b),
            None => lookup_chain(v, chain.drop_first(), sym),
        }
    }
}

/// The database is consistent.
pub open spec fn db_wf(v: DbView) -> bool {
    &&& v.strings.no_duplicates()
    &&& v.strings.len() <= u32::MAX
    &&& v.procs.len() <= index_bound()
    &&& subtrees_fit(v.procs)
    &&& v.scopes.len() == v.procs.len()
    &&& forall|i: int|
        0 <= i < v.scopes.len() && (#[trigger] v.scopes[i]) is Some ==> v.scopes[i]->0.wf()
            && v.scopes[i]->0.end() <= v.binders.len()
    &&& v.binders.len() <= MAX_BITS
    &&& v.enclosing.len() <= v.procs.len()
    &&& forall|i: int|
        0 <= i < v.enclosing.len() ==> (#[trigger] v.enclosing[i]) == PID::spec_top_level() || v.enclosing[i].0 < i
    &&& sorted_occurrences(v.bound)
    &&& forall|i: int|
        0 <= i < v.bound.len() && (#[trigger] v.bound[i]).binding is Bound ==> (v.bound[i].binding->0).0
            < v.binders.len()
}

pub struct SemanticDb<'a> {
    index: ProcIndex<'a>,
    interner: Interner,
    diagnostics: Vec<Diagnostic>,
    has_errors: bool,
    binder_is_name: BitList,
    binders: Vec<Binder>,
    proc_to_scope: Vec<Option<ScopeInfo>>,
    enclosing_pids: Vec<PID>,
    var_to_binder: Vec<BoundOccurence>,
}

impl<'a> View for SemanticDb<'a> {
    type V = DbView;

    closed spec fn view(&self) -> DbView {
        DbView {
            procs: self.index.flat(),
            strings: self.interner.strings(),
            diags: self.diagnostics@,
            binders: self.binders@,
            scopes: self.proc_to_scope@,
            enclosing: self.enclosing_pids@,
            bound: self.var_to_binder@,
        }
    }
}

impl<'a> SemanticDb<'a> {
    /// The internal representation agrees with the view.
    pub closed spec fn inv(&self) -> bool {
        &&& db_wf(self@)
        &&& self.has_errors == any_error(self@.diags)
        &&& bitvec_bits(self.binder_is_name).len() == self.binders@.len()
        &&& forall|i: int|
            0 <= i < self.binders@.len() ==> #[trigger] bitvec_bits(self.binder_is_name)[i] == (
            self.binders@[i].kind is Name)
    }

    /// A consistent database satisfies `db_wf`.
    pub proof fn lemma_inv_wf(&self)
        requires
            self.inv(),
        ensures
            db_wf(self@),
    {
    }

    pub fn new() -> (r: Self)
        ensures
            r.inv(),
            r@.procs == Seq::<AnnProc>::empty(),
            r@.strings == Seq::<Seq<char>>::empty(),
            r@.diags == Seq::<Diagnostic>::empty(),
            r@.binders == Seq::<Binder>::empty(),
            r@.scopes == Seq::<Option<ScopeInfo>>::empty(),
            r@.enclosing == Seq::<PID>::empty(),
            r@.bound == Seq::<BoundOccurence>::empty(),
    {
        let r = SemanticDb {
            index: ProcIndex::new(),
            interner: Interner::new(),
            diagnostics: Vec::new(),
            has_errors: false,
            binder_is_name: bv_repeat(false, 0),
            binders: Vec::new(),
            proc_to_scope: Vec::new(),
            enclosing_pids: Vec::new(),
            var_to_binder: Vec::new(),
        };
        proof {
            assert(r.interner.strings().no_duplicates());
        }
        r
    }

    /// The symbol that stands for `s`; a new symbol if `s` was never interned.
    pub fn intern(&mut self, s: &str) -> (r: Symbol)
        requires
            old(self).inv(),
            old(self)@.strings.contains(s@) || old(self)@.strings.len() < u32::MAX,
        ensures
            final(self).inv(),
            final(self)@ == (DbView { strings: interned(old(self)@.strings, s@), ..old(self)@ }),
            r.0 < final(self)@.strings.len(),
            final(self)@.strings[r.0 as int] == s@,
    {
        let r = self.interner.intern(s);
        proof {
            assert(db_wf(self@));
        }
        r
    }

    /// The symbol of `s`, if it was interned.
    pub fn symbol_of(&self, s: &str) -> (r: Option<Symbol>)
        requires
            self.inv(),
        ensures
            match r {
                Some(sym) => sym.0 < self@.strings.len() && self@.strings[sym.0 as int] == s@,
                None => !self@.strings.contains(s@),
            },
    {
        self.interner.lookup(s)
    }

    /// The string of `sym`, or `None` if it was never interned.
    pub fn resolve_symbol(&self, sym: Symbol) -> (r: Option<&str>)
        ensures
            match r {
                Some(v) => sym.0 < self@.strings.len() && v@ == self@.strings[sym.0 as int],
                None => sym.0 >= self@.strings.len(),
            },
    {
        self.interner.resolve(sym)
    }

    /// An owned copy of the string of `sym`, or `None` if it was never interned.
    pub fn resolve_symbol_owned(&self, sym: Symbol) -> (r: Option<String>)
        ensures
            match r {
                Some(v) => sym.0 < self@.strings.len() && v@ == self@.strings[sym.0 as int],
                None => sym.0 >= self@.strings.len(),
            },
    {
        self.interner.resolve_owned(sym)
    }

    /// The string of an interned symbol.
    pub fn symbol_str(&self, sym: Symbol) -> (r: &str)
        requires
            sym.0 < self@.strings.len(),
        ensures
            r@ == self@.strings[sym.0 as int],
    {
        self.interner.resolve(sym).unwrap()
    }

    pub fn symbol_count(&self) -> (r: usize)
        ensures
            r == self@.strings.len(),
    {
        self.interner.len()
    }

    /// Records a new binder and returns its id.
    pub fn fresh_binder(&mut self, binder: Binder) -> (r: BinderId)
        requires
            old(self).inv(),
            old(self)@.binders.len() < MAX_BITS,
        ensures
            final(self).inv(),
            final(self)@ == (DbView { binders: old(self)@.binders.push(binder), ..old(self)@ }),
            r.0 == old(self)@.binders.len(),
    {
        let id = self.next_binder();
        let is_proc = match binder.kind {
            BinderKind::Proc => true,
            BinderKind::Name(_) => false,
        };
        bv_push(&mut self.binder_is_name, !is_proc);
        self.binders.push(binder);
        proof {
            let v = self@;
            assert forall|i: int|
                0 <= i < v.scopes.len() && (#[trigger] v.scopes[i]) is Some implies v.scopes[i]->0.wf()
                && v.scopes[i]->0.end() <= v.binders.len() by {
                assert(old(self)@.scopes[i] == v.scopes[i]);
            }
            assert forall|i: int|
                0 <= i < v.bound.len() && (#[trigger] v.bound[i]).binding is Bound implies (v.bound[i].binding->0).0
                < v.binders.len() by {
                assert(old(self)@.bound[i] == v.bound[i]);
            }
            assert forall|i: int| 0 <= i < self.binders@.len() implies #[trigger] bitvec_bits(
                self.binder_is_name,
            )[i] == (self.binders@[i].kind is Name) by {
                if i < old(self).binders@.len() {
                    assert(bitvec_bits(old(self).binder_is_name)[i] == (
                    old(self).binders@[i].kind is Name));
                }
            }
        }
        id
    }

    /// The id the next binder will get.
    pub fn next_binder(&self) -> (r: BinderId)
        requires
            self.inv(),
        ensures
            r.0 == self@.binders.len(),
    {
        BinderId(self.binders.len() as u32)
    }

    /// The binder with id `bid`, if there is one.
    pub fn get_binder(&self, bid: BinderId) -> (r: Option<&Binder>)
        ensures
            match r {
                Some(b) => bid.0 < self@.binders.len() && *b == self@.binders[bid.0 as int],
                None => bid.0 >= self@.binders.len(),
            },
    {
        if (bid.0 as usize) < self.binders.len() {
            Some(&self.binders[bid.0 as usize])
        } else {
            None
        }
    }

    /// The binder with id `bid`, which must exist.
    pub fn binder(&self, bid: BinderId) -> (r: Binder)
        requires
            bid.0 < self@.binders.len(),
        ensures
            r == self@.binders[bid.0 as int],
    {
        self.binders[bid.0 as usize]
    }

    /// Indexes `root` and every process inside it, in preorder, and returns the
    /// PID of `root`.
    pub fn build_index(&mut self, root: &'a AnnProc) -> (r: PID)
        requires
            old(self).inv(),
            old(self)@.procs.len() + preorder(*root).len() <= index_bound(),
        ensures
            final(self).inv(),
            r.0 == old(self)@.procs.len(),
            final(self)@ == (DbView {
                procs: old(self)@.procs + preorder(*root),
                scopes: old(self)@.scopes + Seq::new(
                    preorder(*root).len(),
                    |_i: int| None::<ScopeInfo>,
                ),
                ..old(self)@
            }),
    {
        let start = self.index.len();
        self.index.index_proc(root);
        let end = self.index.len();
        let mut nones: Vec<Option<ScopeInfo>> = Vec::new();
        let mut k = start;
        while k < end
            invariant
                start <= k <= end,
                nones@ == Seq::new((k - start) as nat, |_i: int| None::<ScopeInfo>),
            decreases end - k,
        {
            nones.push(None);
            k = k + 1;
            proof {
                assert(nones@ =~= Seq::new((k - start) as nat, |_i: int| None::<ScopeInfo>));
            }
        }
        self.proc_to_scope.append(&mut nones);
        proof {
            let v = self@;
            let o = old(self)@;
            assert(v.scopes =~= o.scopes + Seq::new(preorder(*root).len(), |_i: int| None::<ScopeInfo>));
            lemma_fit_proc(*root);
            lemma_fit_concat(o.procs, preorder(*root));
            assert forall|i: int|
                0 <= i < v.scopes.len() && (#[trigger] v.scopes[i]) is Some implies v.scopes[i]->0.wf()
                && v.scopes[i]->0.end() <= v.binders.len() by {
                assert(i < o.scopes.len());
                assert(o.scopes[i] == v.scopes[i]);
            }
        }
        PID(start as u32)
    }

    /// The process with the given PID, if it is indexed.
    pub fn get(&self, id: PID) -> (r: Option<&'a AnnProc>)
        ensures
            match r {
                Some(p) => id.0 < self@.procs.len() && *p == self@.procs[id.0 as int],
                None => id.0 >= self@.procs.len(),
            },
    {
        self.index.get(id.0 as usize)
    }

    /// The PID of the node `proc`, found by identity: a node of equal value
    /// at another address is a different process.
    pub fn lookup(&self, proc: &AnnProc) -> (r: Option<PID>)
        requires
            self.inv(),
        ensures
            r matches Some(pid) ==> pid.0 < self@.procs.len() && self@.procs[pid.0 as int] == *proc,
    {
        let n = self.index.len();
        let mut i: usize = 0;
        while i < n
            invariant
                self.inv(),
                n == self@.procs.len(),
                n <= u32::MAX,
                i <= n,
            decreases n - i,
        {
            let candidate = self.index.get(i).unwrap();
            if same_node(candidate, proc) {
                return Some(PID(i as u32));
            }
            i = i + 1;
        }
        None
    }

    /// Whether the node `proc` is indexed (found by identity).
    pub fn contains(&self, proc: &AnnProc) -> (r: bool)
        requires
            self.inv(),
        ensures
            r ==> self@.procs.contains(*proc),
    {
        match self.lookup(proc) {
            Some(pid) => {
                proof {
                    assert(self@.procs[pid.0 as int] == *proc);
                }
                true
            },
            None => false,
        }
    }

    /// The process with the given PID, which must be indexed.
    pub fn proc_at(&self, id: PID) -> (r: &'a AnnProc)
        requires
            id.0 < self@.procs.len(),
        ensures
            *r == self@.procs[id.0 as int],
    {
        self.index.get(id.0 as usize).unwrap()
    }

    pub fn pid_count(&self) -> (r: usize)
        ensures
            r == self@.procs.len(),
    {
        self.index.len()
    }

    /// All PIDs in indexing order.
    pub fn pids(&self) -> (r: Vec<PID>)
        requires
            self.inv(),
        ensures
            r@.len() == self@.procs.len(),
            forall|i: int| 0 <= i < r@.len() ==> (#[trigger] r@[i]).0 == i,
    {
        let n = self.index.len();
        let mut r: Vec<PID> = Vec::new();
        let mut i: usize = 0;
        while i < n
            invariant
                n == self@.procs.len(),
                n <= u32::MAX,
                i <= n,
                r@.len() == i,
                forall|k: int| 0 <= k < r@.len() ==> (#[trigger] r@[k]).0 == k,
            decreases n - i,
        {
            r.push(PID(i as u32));
            i = i + 1;
        }
        r
    }

    /// All (PID, process) pairs in indexing order.
    pub fn iter(&self) -> (r: Vec<(PID, &'a AnnProc)>)
        requires
            self.inv(),
        ensures
            r@.len() == self@.procs.len(),
            forall|i: int|
                0 <= i < r@.len() ==> (#[trigger] r@[i]).0.0 == i && *r@[i].1 == self@.procs[i],
    {
        let n = self.index.len();
        let mut r: Vec<(PID, &'a AnnProc)> = Vec::new();
        let mut i: usize = 0;
        while i < n
            invariant
                n == self@.procs.len(),
                n <= u32::MAX,
                i <= n,
                r@.len() == i,
                forall|k: int|
                    0 <= k < r@.len() ==> (#[trigger] r@[k]).0.0 == k && *r@[k].1 == self@.procs[k],
            decreases n - i,
        {
            let p = self.index.get(i).unwrap();
            r.push((PID(i as u32), p));
            i = i + 1;
        }
        r
    }

    /// The first process, in indexing order, that `predicate` accepts.
    pub fn find_proc<P: Fn(&'a AnnProc) -> bool>(&self, predicate: P) -> (r: Option<(PID, &'a AnnProc)>)
        requires
            self.inv(),
            forall|p: &'a AnnProc| #[trigger] predicate.requires((p,)),
        ensures
            match r {
                Some((pid, p)) => pid.0 < self@.procs.len() && *p == self@.procs[pid.0 as int]
                    && predicate.ensures((p,), true) && forall|q: int|
                    0 <= q < pid.0 ==> #[trigger] predicate.ensures((&self@.procs[q],), false),
                None => forall|q: int|
                    0 <= q < self@.procs.len() ==> #[trigger] predicate.ensures((&self@.procs[q],), false),
            },
    {
        let all = self.iter();
        let mut i: usize = 0;
        while i < all.len()
            invariant
                self.inv(),
                forall|p: &'a AnnProc| #[trigger] predicate.requires((p,)),
                all@.len() == self@.procs.len(),
                forall|k: int|
                    0 <= k < all@.len() ==> (#[trigger] all@[k]).0.0 == k && *all@[k].1 == self@.procs[k],
                i <= all@.len(),
                forall|q: int|
                    0 <= q < i ==> #[trigger] predicate.ensures((&self@.procs[q],), false),
            decreases all@.len() - i,
        {
            let (pid, p) = all[i];
            proof {
                assert(all@[i as int].0.0 == i);
            }
            if predicate(p) {
                return Some((pid, p));
            }
            proof {
                assert(*all@[i as int].1 == self@.procs[i as int]);
            }
            i = i + 1;
        }
        None
    }

    /// Every process that `predicate` accepts, with its PID, in indexing order.
    pub fn filter_procs<P: Fn(&'a AnnProc) -> bool>(&self, predicate: P) -> (r: Vec<(PID, &'a AnnProc)>)
        requires
            self.inv(),
            forall|p: &'a AnnProc| #[trigger] predicate.requires((p,)),
        ensures
            forall|k: int|
                0 <= k < r@.len() ==> (#[trigger] r@[k]).0.0 < self@.procs.len() && *r@[k].1
                    == self@.procs[r@[k].0.0 as int] && predicate.ensures((r@[k].1,), true),
            forall|k: int, l: int| 0 <= k < l < r@.len() ==> r@[k].0.0 < r@[l].0.0,
            forall|q: int|
                0 <= q < self@.procs.len() ==> (exists|k: int| 0 <= k < r@.len() && (#[trigger] r@[k]).0.0 == q)
                    || #[trigger] predicate.ensures((&self@.procs[q],), false),
    {
        let all = self.iter();
        let mut r: Vec<(PID, &'a AnnProc)> = Vec::new();
        let mut i: usize = 0;
        while i < all.len()
            invariant
                self.inv(),
                forall|p: &'a AnnProc| #[trigger] predicate.requires((p,)),
                all@.len() == self@.procs.len(),
                forall|k: int|
                    0 <= k < all@.len() ==> (#[trigger] all@[k]).0.0 == k && *all@[k].1 == self@.procs[k],
                i <= all@.len(),
                forall|k: int|
                    0 <= k < r@.len() ==> (#[trigger] r@[k]).0.0 < i && *r@[k].1
                        == self@.procs[r@[k].0.0 as int] && predicate.ensures((r@[k].1,), true),
                forall|k: int, l: int| 0 <= k < l < r@.len() ==> r@[k].0.0 < r@[l].0.0,
                forall|q: int|
                    0 <= q < i ==> (exists|k: int| 0 <= k < r@.len() && (#[trigger] r@[k]).0.0 == q)
                        || #[trigger] predicate.ensures((&self@.procs[q],), false),
            decreases all@.len() - i,
        {
            let (pid, p) = all[i];
            proof {
                assert(all@[i as int].0.0 == i);
                assert(*all@[i as int].1 == self@.procs[i as int]);
            }
            let ghost before = r@;
            if predicate(p) {
                r.push((pid, p));
                proof {
                    assert(r@[before.len() as int].0.0 == i);
                    assert forall|q: int|
                        0 <= q < i + 1 implies (exists|k: int| 0 <= k < r@.len() && (#[trigger] r@[k]).0.0 == q)
                            || #[trigger] predicate.ensures((&self@.procs[q],), false) by {
                        if q < i {
                            if exists|k: int| 0 <= k < before.len() && (#[trigger] before[k]).0.0 == q {
                                let k = choose|k: int| 0 <= k < before.len() && (#[trigger] before[k]).0.0 == q;
                                assert(r@[k] == before[k]);
                            }
                        } else {
                            assert(r@[before.len() as int].0.0 == q);
                        }
                    }
                }
            } else {
                proof {
                    assert(predicate.ensures((p,), false));
                }
            }
            i = i + 1;
        }
        r
    }

    /// The scopes of all scoped processes, in PID order.
    pub fn scopes(&self) -> (r: Vec<&ScopeInfo>)
        requires
            self.inv(),
        ensures
            r@.len() == present_scopes(self@.scopes).len(),
            forall|k: int| 0 <= k < r@.len() ==> *(#[trigger] r@[k]) == present_scopes(self@.scopes)[k],
    {
        let mut r: Vec<&ScopeInfo> = Vec::new();
        let mut i: usize = 0;
        proof {
            assert(self@.scopes.take(0) =~= Seq::<Option<ScopeInfo>>::empty());
        }
        while i < self.proc_to_scope.len()
            invariant
                i <= self@.scopes.len(),
                self.proc_to_scope@ == self@.scopes,
                r@.len() == present_scopes(self@.scopes.take(i as int)).len(),
                forall|k: int| 0 <= k < r@.len() ==> *(#[trigger] r@[k]) == present_scopes(self@.scopes.take(i as int))[k],
            decreases self@.scopes.len() - i,
        {
            proof {
                assert(self@.scopes.take(i + 1).drop_last() =~= self@.scopes.take(i as int));
                reveal_with_fuel(Seq::filter, 1);
            }
            match &self.proc_to_scope[i] {
                Some(sc) => {
                    r.push(sc);
                    proof {
                        let f = self@.scopes.take(i + 1).filter(|o: Option<ScopeInfo>| o is Some);
                        let g = self@.scopes.take(i as int).filter(|o: Option<ScopeInfo>| o is Some);
                        assert(f =~= g.push(self@.scopes[i as int]));
                        assert(present_scopes(self@.scopes.take(i + 1)) =~= present_scopes(self@.scopes.take(i as int)).push(*sc));
                    }
                },
                None => {
                    proof {
                        let f = self@.scopes.take(i + 1).filter(|o: Option<ScopeInfo>| o is Some);
                        let g = self@.scopes.take(i as int).filter(|o: Option<ScopeInfo>| o is Some);
                        assert(f =~= g);
                    }
                },
            }
            i = i + 1;
        }
        proof {
            assert(self@.scopes.take(i as int) =~= self@.scopes);
        }
        r
    }

    /// The PIDs of all `for` comprehensions, in indexing order.
    pub fn for_comprehensions(&self) -> (r: Vec<PID>)
        requires
            self.inv(),
        ensures
            forall|i: int|
                0 <= i < r@.len() ==> (#[trigger] r@[i]).0 < self@.procs.len()
                    && self@.procs[r@[i].0 as int].proc is ForComprehension,
            forall|p: int|
                0 <= p < self@.procs.len() && (#[trigger] self@.procs[p]).proc is ForComprehension
                    ==> exists|i: int| 0 <= i < r@.len() && r@[i].0 == p,
            forall|i: int, j: int| 0 <= i < j < r@.len() ==> (#[trigger] r@[i]).0 < (#[trigger] r@[j]).0,
    {
        let n = self.index.len();
        let mut r: Vec<PID> = Vec::new();
        let mut i: usize = 0;
        while i < n
            invariant
                n == self@.procs.len(),
                n <= u32::MAX,
                i <= n,
                forall|k: int|
                    0 <= k < r@.len() ==> (#[trigger] r@[k]).0 < i
                        && self@.procs[r@[k].0 as int].proc is ForComprehension,
                forall|p: int|
                    0 <= p < i && (#[trigger] self@.procs[p]).proc is ForComprehension ==> exists|k: int|
                        0 <= k < r@.len() && r@[k].0 == p,
                forall|a: int, b: int| 0 <= a < b < r@.len() ==> (#[trigger] r@[a]).0 < (#[trigger] r@[b]).0,
            decreases n - i,
        {
            let p = self.index.get(i).unwrap();
            let ghost prev = r@;
            if let Proc::ForComprehension { .. } = &p.proc {
                r.push(PID(i as u32));
                proof {
                    assert(r@[r@.len() - 1].0 == i);
                }
            }
            proof {
                assert forall|q: int|
                    0 <= q < i + 1 && (#[trigger] self@.procs[q]).proc is ForComprehension implies exists|k: int|
                    0 <= k < r@.len() && r@[k].0 == q by {
                    if q < i {
                        let k = choose|k: int| 0 <= k < prev.len() && prev[k].0 == q;
                        assert(r@[k] == prev[k]);
                    } else {
                        assert(r@[r@.len() - 1].0 == q);
                    }
                }
            }
            i = i + 1;
        }
        r
    }

    /// Appends a diagnostic.
    pub fn emit_diagnostic(&mut self, diagnostic: Diagnostic)
        requires
            old(self).inv(),
        ensures
            final(self).inv(),
            final(self)@ == (DbView { diags: old(self)@.diags.push(diagnostic), ..old(self)@ }),
    {
        self.diagnostics.push(diagnostic);
        if diagnostic.is_error() {
            self.has_errors = true;
        }
        proof {
            let ds = self.diagnostics@;
            let last = ds.len() - 1;
            if diagnostic.spec_is_error() {
                assert(ds[last].spec_is_error());
            }
            if old(self).has_errors {
                let i = choose|i: int|
                    0 <= i < old(self)@.diags.len() && (#[trigger] old(self)@.diags[i]).spec_is_error();
                assert(ds[i] == old(self)@.diags[i]);
            }
            if any_error(ds) {
                let i = choose|i: int| 0 <= i < ds.len() && (#[trigger] ds[i]).spec_is_error();
                if i < last {
                    assert(old(self)@.diags[i] == ds[i]);
                }
            }
        }
    }

    /// Appends diagnostics, in order.
    pub fn push_diagnostics(&mut self, diagnostics: Vec<Diagnostic>)
        requires
            old(self).inv(),
        ensures
            final(self).inv(),
            final(self)@ == (DbView { diags: old(self)@.diags + diagnostics@, ..old(self)@ }),
    {
        let mut i: usize = 0;
        while i < diagnostics.len()
            invariant
                i <= diagnostics@.len(),
                self.inv(),
                self@ == (DbView {
                    diags: old(self)@.diags + diagnostics@.take(i as int),
                    ..old(self)@
                }),
            decreases diagnostics@.len() - i,
        {
            self.emit_diagnostic(diagnostics[i]);
            i = i + 1;
            proof {
                assert(old(self)@.diags + diagnostics@.take(i as int) =~= old(self)@.diags
                    + diagnostics@.take(i - 1) + seq![diagnostics@[i - 1]]);
                assert(self@ =~= DbView {
                    diags: old(self)@.diags + diagnostics@.take(i as int),
                    ..old(self)@
                });
            }
        }
        proof {
            assert(diagnostics@.take(i as int) =~= diagnostics@);
            assert(self@ =~= DbView { diags: old(self)@.diags + diagnostics@, ..old(self)@ });
        }
    }

    pub fn error(&mut self, pid: PID, kind: ErrorKind, pos: Option<SourcePos>)
        requires
            old(self).inv(),
        ensures
            final(self).inv(),
            final(self)@ == (DbView {
                diags: old(self)@.diags.push(
                    Diagnostic { pid, kind: DiagnosticKind::Error(kind), exact_position: pos },
                ),
                ..old(self)@
            }),
    {
        self.emit_diagnostic(Diagnostic::error(pid, kind, pos));
    }

    pub fn warning(&mut self, pid: PID, kind: WarningKind, pos: Option<SourcePos>)
        requires
            old(self).inv(),
        ensures
            final(self).inv(),
            final(self)@ == (DbView {
                diags: old(self)@.diags.push(
                    Diagnostic { pid, kind: DiagnosticKind::Warning(kind), exact_position: pos },
                ),
                ..old(self)@
            }),
    {
        self.emit_diagnostic(Diagnostic::warning(pid, kind, pos));
    }

    /// Some error has been emitted.
    pub fn has_errors(&self) -> (r: bool)
        requires
            self.inv(),
        ensures
            r == any_error(self@.diags),
    {
        self.has_errors
    }

    /// The errors, in the order they were emitted.
    pub fn errors(&self) -> (r: Vec<Diagnostic>)
        ensures
            r@ == errors_of(self@.diags),
    {
        let mut r: Vec<Diagnostic> = Vec::new();
        let mut i: usize = 0;
        proof {
            assert(self.diagnostics@.take(0) =~= Seq::<Diagnostic>::empty());
        }
        while i < self.diagnostics.len()
            invariant
                i <= self.diagnostics@.len(),
                r@ == errors_of(self.diagnostics@.take(i as int)),
            decreases self.diagnostics@.len() - i,
        {
            let d = self.diagnostics[i];
            proof {
                assert(self.diagnostics@.take(i + 1).drop_last() =~= self.diagnostics@.take(
                    i as int,
                ));
                reveal_with_fuel(Seq::filter, 1);
            }
            if d.is_error() {
                r.push(d);
            }
            i = i + 1;
        }
        proof {
            assert(self.diagnostics@.take(i as int) =~= self.diagnostics@);
        }
        r
    }

    /// The warnings, in the order they were emitted.
    pub fn warnings(&self) -> (r: Vec<Diagnostic>)
        ensures
            r@ == warnings_of(self@.diags),
    {
        let mut r: Vec<Diagnostic> = Vec::new();
        let mut i: usize = 0;
        proof {
            assert(self.diagnostics@.take(0) =~= Seq::<Diagnostic>::empty());
        }
        while i < self.diagnostics.len()
            invariant
                i <= self.diagnostics@.len(),
                r@ == warnings_of(self.diagnostics@.take(i as int)),
            decreases self.diagnostics@.len() - i,
        {
            let d = self.diagnostics[i];
            proof {
                assert(self.diagnostics@.take(i + 1).drop_last() =~= self.diagnostics@.take(
                    i as int,
                ));
                reveal_with_fuel(Seq::filter, 1);
            }
            if d.is_warning() {
                r.push(d);
            }
            i = i + 1;
        }
        proof {
            assert(self.diagnostics@.take(i as int) =~= self.diagnostics@);
        }
        r
    }

    /// All diagnostics, in the order they were emitted.
    pub fn diagnostics(&self) -> (r: &[Diagnostic])
        ensures
            r@ == self@.diags,
    {
        self.diagnostics.as_slice()
    }
}


impl<'a> SemanticDb<'a> {
    /// Records the scope that process `proc` introduces.  Returns `false`, and
    /// keeps the old scope, when the process already has one.
    pub fn add_scope(&mut self, proc: PID, scope: ScopeInfo) -> (r: bool)
        requires
            old(self).inv(),
            proc.0 < old(self)@.procs.len(),
            scope.wf(),
            scope.end() <= old(self)@.binders.len(),
        ensures
            final(self).inv(),
            r == (old(self)@.scopes[proc.0 as int] is None),
            final(self)@ == (DbView {
                scopes: if r {
                    old(self)@.scopes.update(proc.0 as int, Some(scope))
                } else {
                    old(self)@.scopes
                },
                ..old(self)@
            }),
    {
        let i = proc.0 as usize;
        if self.proc_to_scope[i].is_some() {
            return false;
        }
        self.proc_to_scope.set(i, Some(scope));
        proof {
            let v = self@;
            let o = old(self)@;
            assert forall|k: int|
                0 <= k < v.scopes.len() && (#[trigger] v.scopes[k]) is Some implies v.scopes[k]->0.wf()
                && v.scopes[k]->0.end() <= v.binders.len() by {
                if k != i {
                    assert(o.scopes[k] == v.scopes[k]);
                }
            }
        }
        true
    }

    /// The scope that process `proc` introduces, if any.
    pub fn get_scope(&self, proc: PID) -> (r: Option<&ScopeInfo>)
        requires
            self.inv(),
        ensures
            match r {
                Some(s) => scoped(self@, proc) && *s == self@.scopes[proc.0 as int]->0 && s.wf()
                    && s.end() <= self@.binders.len(),
                None => !scoped(self@, proc),
            },
    {
        let i = proc.0 as usize;
        if i < self.proc_to_scope.len() {
            match &self.proc_to_scope[i] {
                Some(s) => Some(s),
                None => None,
            }
        } else {
            None
        }
    }

    /// Records a use of binder `bid` in the scope that process `proc`
    /// introduces; nothing else changes.
    pub fn mark_binder_used(&mut self, proc: PID, bid: BinderId)
        requires
            old(self).inv(),
            scoped(old(self)@, proc),
            old(self)@.scopes[proc.0 as int]->0.spec_contains(bid),
        ensures
            final(self).inv(),
            final(self)@ == (DbView {
                scopes: old(self)@.scopes.update(proc.0 as int, Some(final(self)@.scopes[proc.0 as int]->0)),
                ..old(self)@
            }),
            ScopeInfo::marked_used(
                old(self)@.scopes[proc.0 as int]->0,
                bid,
                final(self)@.scopes[proc.0 as int]->0,
            ),
    {
        let i = proc.0 as usize;
        match &mut self.proc_to_scope[i] {
            Some(s) => {
                s.mark_used(bid);
            },
            None => {},
        }
        proof {
            let v = self@;
            let o = old(self)@;
            assert(v.scopes =~= o.scopes.update(i as int, Some(v.scopes[i as int]->0)));
            assert forall|k: int|
                0 <= k < v.scopes.len() && (#[trigger] v.scopes[k]) is Some implies v.scopes[k]->0.wf()
                && v.scopes[k]->0.end() <= v.binders.len() by {
                if k != i {
                    assert(o.scopes[k] == v.scopes[k]);
                }
            }
        }
    }

    /// Process `pid` introduces a lexical scope.
    pub fn is_scoped(&self, pid: PID) -> (r: bool)
        requires
            self.inv(),
        ensures
            r == scoped(self@, pid),
    {
        self.get_scope(pid).is_some()
    }

    /// The binders of `scope`, which must lie within the database.
    pub fn binders(&self, scope: &ScopeInfo) -> (r: Vec<Binder>)
        requires
            self.inv(),
            scope.wf(),
            scope.end() <= self@.binders.len(),
        ensures
            r@ == self@.binders.subrange(scope.start() as int, scope.end() as int),
    {
        let rng = scope.as_range();
        let mut r: Vec<Binder> = Vec::new();
        let mut i = rng.start;
        while i < rng.end
            invariant
                rng.start <= i <= rng.end,
                rng.start == scope.start(),
                rng.end == scope.end(),
                rng.end <= self@.binders.len(),
                r@ == self@.binders.subrange(rng.start as int, i as int),
            decreases rng.end - i,
        {
            r.push(self.binders[i]);
            i = i + 1;
            proof {
                assert(r@ =~= self@.binders.subrange(rng.start as int, i as int));
            }
        }
        r
    }

    /// The binders introduced by process `proc`; `None` if it introduces none.
    pub fn binders_of(&self, proc: PID) -> (r: Option<Vec<Binder>>)
        requires
            self.inv(),
        ensures
            match r {
                Some(bs) => scoped(self@, proc) && self@.scopes[proc.0 as int]->0.num() > 0
                    && bs@ == self@.binders.subrange(
                    self@.scopes[proc.0 as int]->0.start() as int,
                    self@.scopes[proc.0 as int]->0.end() as int,
                ),
                None => !scoped(self@, proc) || self@.scopes[proc.0 as int]->0.num() == 0,
            },
    {
        match self.get_scope(proc) {
            Some(scope) => {
                if scope.num_binders() == 0 {
                    None
                } else {
                    Some(self.binders(scope))
                }
            },
            None => None,
        }
    }

    /// The binders of `scope` with their ids.
    pub fn binders_full(&self, scope: &ScopeInfo) -> (r: Vec<(BinderId, Binder)>)
        requires
            self.inv(),
            scope.wf(),
            scope.end() <= self@.binders.len(),
        ensures
            r@.len() == scope.num(),
            forall|i: int|
                0 <= i < r@.len() ==> (#[trigger] r@[i]).0.0 == scope.start() + i && r@[i].1
                    == self@.binders[scope.start() + i],
    {
        let rng = scope.as_range();
        let mut r: Vec<(BinderId, Binder)> = Vec::new();
        let mut i = rng.start;
        while i < rng.end
            invariant
                rng.start <= i <= rng.end,
                rng.start == scope.start(),
                rng.end == scope.end(),
                rng.end <= self@.binders.len(),
                rng.end <= MAX_BITS,
                r@.len() == i - rng.start,
                forall|k: int|
                    0 <= k < r@.len() ==> (#[trigger] r@[k]).0.0 == rng.start + k && r@[k].1
                        == self@.binders[rng.start + k],
            decreases rng.end - i,
        {
            r.push((BinderId(i as u32), self.binders[i]));
            i = i + 1;
        }
        r
    }

    /// The free binders of `scope` with their ids, in order.
    pub fn free_binders_of(&self, scope: &ScopeInfo) -> (r: Vec<(BinderId, Binder)>)
        requires
            self.inv(),
            scope.wf(),
            scope.end() <= self@.binders.len(),
        ensures
            r@.len() == bit_ids(scope.free_bits(), true, scope.start() as int).len(),
            forall|i: int|
                0 <= i < r@.len() ==> (#[trigger] r@[i]).0.0 == bit_ids(
                    scope.free_bits(),
                    true,
                    scope.start() as int,
                )[i] && r@[i].0.0 < self@.binders.len() && r@[i].1 == self@.binders[r@[i].0.0 as int],
    {
        let ids = scope.free();
        proof {
            lemma_bit_ids_in_range(scope.free_bits(), true, scope.start() as int);
        }
        let mut r: Vec<(BinderId, Binder)> = Vec::new();
        let mut i: usize = 0;
        while i < ids.len()
            invariant
                i <= ids@.len(),
                id_values(ids@) == bit_ids(scope.free_bits(), true, scope.start() as int),
                scope.end() <= self@.binders.len(),
                scope.free_bits().len() == scope.num(),
                forall|k: int|
                    0 <= k < ids@.len() ==> scope.start() <= #[trigger] id_values(ids@)[k] < scope.start() + scope.num(),
                r@.len() == i,
                forall|k: int|
                    0 <= k < r@.len() ==> (#[trigger] r@[k]).0 == ids@[k] && r@[k].0.0 < self@.binders.len()
                        && r@[k].1 == self@.binders[r@[k].0.0 as int],
            decreases ids@.len() - i,
        {
            let bid = ids[i];
            proof {
                assert(id_values(ids@)[i as int] == bid.0);
            }
            r.push((bid, self.binders[bid.0 as usize]));
            i = i + 1;
        }
        proof {
            assert forall|k: int| 0 <= k < r@.len() implies (#[trigger] r@[k]).0.0 == bit_ids(
                scope.free_bits(),
                true,
                scope.start() as int,
            )[k] by {
                assert(id_values(ids@)[k] == ids@[k].0);
            }
        }
        r
    }

    /// Process `proc` introduces free binders.
    pub fn has_free(&self, proc: PID) -> (r: bool)
        requires
            self.inv(),
        ensures
            r == (scoped(self@, proc) && crate::bits::count_true(
                self@.scopes[proc.0 as int]->0.free_bits(),
            ) != 0),
    {
        match self.get_scope(proc) {
            Some(scope) => scope.num_free() != 0,
            None => false,
        }
    }

    /// The free binders introduced by process `proc`, in order; none if it has no scope.
    pub fn free_of(&self, proc: PID) -> (r: Vec<BinderId>)
        requires
            self.inv(),
        ensures
            if scoped(self@, proc) {
                id_values(r@) == bit_ids(
                    self@.scopes[proc.0 as int]->0.free_bits(),
                    true,
                    self@.scopes[proc.0 as int]->0.start() as int,
                )
            } else {
                r@.len() == 0
            },
    {
        match self.get_scope(proc) {
            Some(scope) => scope.free(),
            None => Vec::new(),
        }
    }

    /// Every process that introduces a scope, with its scope, in PID order.
    pub fn scopes_full(&self) -> (r: Vec<(PID, &ScopeInfo)>)
        requires
            self.inv(),
        ensures
            forall|i: int|
                0 <= i < r@.len() ==> scoped(self@, (#[trigger] r@[i]).0) && *r@[i].1
                    == self@.scopes[r@[i].0.0 as int]->0,
            forall|p: int|
                0 <= p < self@.scopes.len() && (#[trigger] self@.scopes[p]) is Some ==> exists|i: int|
                    0 <= i < r@.len() && r@[i].0.0 == p,
            forall|i: int, j: int| 0 <= i < j < r@.len() ==> (#[trigger] r@[i]).0.0 < (#[trigger] r@[j]).0.0,
    {
        let n = self.proc_to_scope.len();
        let mut r: Vec<(PID, &ScopeInfo)> = Vec::new();
        let mut i: usize = 0;
        while i < n
            invariant
                n == self@.scopes.len(),
                n <= u32::MAX,
                i <= n,
                forall|k: int|
                    0 <= k < r@.len() ==> (#[trigger] r@[k]).0.0 < i && scoped(self@, r@[k].0)
                        && *r@[k].1 == self@.scopes[r@[k].0.0 as int]->0,
                forall|p: int|
                    0 <= p < i && (#[trigger] self@.scopes[p]) is Some ==> exists|k: int|
                        0 <= k < r@.len() && r@[k].0.0 == p,
                forall|a: int, b: int| 0 <= a < b < r@.len() ==> (#[trigger] r@[a]).0.0 < (#[trigger] r@[b]).0.0,
            decreases n - i,
        {
            let ghost prev = r@;
            match &self.proc_to_scope[i] {
                Some(s) => {
                    r.push((PID(i as u32), s));
                },
                None => {},
            }
            proof {
                assert forall|q: int|
                    0 <= q < i + 1 && (#[trigger] self@.scopes[q]) is Some implies exists|k: int|
                    0 <= k < r@.len() && r@[k].0.0 == q by {
                    if q < i {
                        let k = choose|k: int| 0 <= k < prev.len() && prev[k].0.0 == q;
                        assert(r@[k] == prev[k]);
                    } else {
                        assert(r@[r@.len() - 1].0.0 == q);
                    }
                }
            }
            i = i + 1;
        }
        r
    }

    /// Binder `binder` is name-valued.
    pub fn is_name(&self, binder: BinderId) -> (r: bool)
        requires
            self.inv(),
            binder.0 < self@.binders.len(),
        ensures
            r == (self@.binders[binder.0 as int].kind is Name),
    {
        bv_get(&self.binder_is_name, binder.0 as usize)
    }

    /// The last binder of `scope` named `sym`.
    pub fn find_binder_for_symbol(&self, sym: Symbol, scope: &ScopeInfo) -> (r: Option<BinderId>)
        requires
            self.inv(),
            scope.wf(),
            scope.end() <= self@.binders.len(),
        ensures
            r == last_binder_named(self@.binders, scope.start() as int, scope.end() as int, sym),
    {
        let start = scope.binder_start().0 as usize;
        let mut end = start + scope.num_binders();
        while end > start
            invariant
                start <= end <= scope.end(),
                start == scope.start(),
                scope.end() <= self@.binders.len(),
                last_binder_named(self@.binders, start as int, scope.end() as int, sym)
                    == last_binder_named(self@.binders, start as int, end as int, sym),
            decreases end - start,
        {
            if self.binders[end - 1].name == sym {
                return Some(BinderId((end - 1) as u32));
            }
            end = end - 1;
        }
        None
    }
}

impl<'a> SemanticDb<'a> {
    /// Records `binding` for `occ`, replacing any earlier binding of `occ`.
    /// Returns `true` when `occ` had no binding.
    fn insert_binding(&mut self, occ: SymbolOccurrence, binding: VarBinding) -> (r: bool)
        requires
            old(self).inv(),
            binding is Bound ==> (binding->0).0 < old(self)@.binders.len(),
        ensures
            final(self).inv(),
            r == (lookup_binding(old(self)@.bound, occ) is None),
            lookup_binding(final(self)@.bound, occ) == Some(binding),
            forall|o: SymbolOccurrence|
                o != occ ==> #[trigger] lookup_binding(final(self)@.bound, o) == lookup_binding(
                    old(self)@.bound,
                    o,
                ),
            final(self)@.procs == old(self)@.procs,
            final(self)@.strings == old(self)@.strings,
            final(self)@.diags == old(self)@.diags,
            final(self)@.binders == old(self)@.binders,
            final(self)@.scopes == old(self)@.scopes,
            final(self)@.enclosing == old(self)@.enclosing,
    {
        let ghost b = self.var_to_binder@;
        let entry = BoundOccurence { occurence: occ, binding };
        let n = self.var_to_binder.len();
        let mut i: usize = 0;
        while i < n && self.var_to_binder[i].occurence.less(&occ)
            invariant
                i <= n,
                n == b.len(),
                self.var_to_binder@ == b,
                forall|j: int| 0 <= j < i ==> occ_lt(#[trigger] b[j].occurence, occ),
            decreases n - i,
        {
            i = i + 1;
        }
        let found = i < n && self.var_to_binder[i].occurence == occ;
        proof {
            // Past the stopping point, every entry comes after `occ` (or is `occ` itself).
            assert forall|j: int| i <= j < n implies #[trigger] b[j].occurence == occ || occ_lt(
                occ,
                b[j].occurence,
            ) by {
                if j > i {
                    assert(occ_lt(b[i as int].occurence, b[j].occurence));
                }
            }
            assert forall|j: int| 0 <= j < n && #[trigger] b[j].occurence == occ implies found
                && j == i by {
                if j < i {
                    assert(occ_lt(b[j].occurence, occ));
                } else if j > i {
                    assert(occ_lt(b[i as int].occurence, b[j].occurence));
                }
            }
        }
        if found {
            self.var_to_binder.set(i, entry);
        } else {
            self.var_to_binder.insert(i, entry);
        }
        proof {
            let nb = self.var_to_binder@;
            assert(nb[i as int] == entry);
            if found {
                assert(nb == b.update(i as int, entry));
            } else {
                assert(nb == b.insert(i as int, entry));
            }
            assert forall|x: int, y: int| 0 <= x < y < nb.len() implies occ_lt(
                #[trigger] nb[x].occurence,
                #[trigger] nb[y].occurence,
            ) by {
                if found {
                    if x != i && y != i {
                        assert(occ_lt(b[x].occurence, b[y].occurence));
                    }
                } else {
                    if x < i && y < i {
                        assert(occ_lt(b[x].occurence, b[y].occurence));
                    } else if x < i && y == i {
                    } else if x < i && y > i {
                        assert(nb[y] == b[y - 1]);
                        assert(occ_lt(b[x].occurence, occ));
                    } else if x == i {
                        assert(nb[y] == b[y - 1]);
                    } else {
                        assert(nb[x] == b[x - 1] && nb[y] == b[y - 1]);
                        assert(occ_lt(b[x - 1].occurence, b[y - 1].occurence));
                    }
                }
            }
            assert(lookup_binding(nb, occ) == Some(binding)) by {
                assert(nb[i as int].occurence == occ);
                let k = choose|k: int| 0 <= k < nb.len() && (#[trigger] nb[k]).occurence == occ;
                if k != i {
                    if k < i {
                        assert(occ_lt(nb[k].occurence, nb[i as int].occurence));
                    } else {
                        assert(occ_lt(nb[i as int].occurence, nb[k].occurence));
                    }
                }
            }
            assert forall|o: SymbolOccurrence| o != occ implies #[trigger] lookup_binding(nb, o)
                == lookup_binding(b, o) by {
                if exists|k: int| 0 <= k < nb.len() && (#[trigger] nb[k]).occurence == o {
                    let k = choose|k: int| 0 <= k < nb.len() && (#[trigger] nb[k]).occurence == o;
                    let kb = if found || k < i {
                        k
                    } else {
                        k - 1
                    };
                    assert(b[kb].occurence == o);
                    let kk = choose|kk: int| 0 <= kk < b.len() && (#[trigger] b[kk]).occurence == o;
                    if kk != kb {
                        if kk < kb {
                            assert(occ_lt(b[kk].occurence, b[kb].occurence));
                        } else {
                            assert(occ_lt(b[kb].occurence, b[kk].occurence));
                        }
                    }
                } else {
                    if exists|kk: int| 0 <= kk < b.len() && (#[trigger] b[kk]).occurence == o {
                        let kk = choose|kk: int| 0 <= kk < b.len() && (#[trigger] b[kk]).occurence == o;
                        let k = if found || kk < i {
                            kk
                        } else {
                            kk + 1
                        };
                        assert(nb[k].occurence == o);
                    }
                }
            }
            let v = self@;
            assert forall|x: int|
                0 <= x < v.bound.len() && (#[trigger] v.bound[x]).binding is Bound implies (v.bound[x].binding->0).0
                < v.binders.len() by {
                if x != i {
                    let xb = if found || x < i {
                        x
                    } else {
                        x - 1
                    };
                    assert(v.bound[x] == b[xb]);
                }
            }
        }
        !found
    }

    /// Records that occurrence `occ` refers to `binder`, and reports a kind
    /// mismatch at `site` when the binder is a name but a process is expected
    /// there, or the other way round.  Returns `true` when `occ` had no binding.
    pub fn map_symbol_to_binder(
        &mut self,
        occ: SymbolOccurrence,
        binder: BinderId,
        expects_name: bool,
        site: PID,
    ) -> (r: bool)
        requires
            old(self).inv(),
            binder.0 < old(self)@.binders.len(),
        ensures
            final(self).inv(),
            r == (lookup_binding(old(self)@.bound, occ) is None),
            lookup_binding(final(self)@.bound, occ) == Some(VarBinding::Bound(binder)),
            forall|o: SymbolOccurrence|
                o != occ ==> #[trigger] lookup_binding(final(self)@.bound, o) == lookup_binding(
                    old(self)@.bound,
                    o,
                ),
            final(self)@.diags == if (old(self)@.binders[binder.0 as int].kind is Name)
                != expects_name {
                old(self)@.diags.push(
                    Diagnostic {
                        pid: site,
                        kind: DiagnosticKind::Error(
                            ErrorKind::kind_mismatch_spec(binder, occ.symbol, expects_name),
                        ),
                        exact_position: Some(occ.position),
                    },
                )
            } else {
                old(self)@.diags
            },
            final(self)@.procs == old(self)@.procs,
            final(self)@.strings == old(self)@.strings,
            final(self)@.binders == old(self)@.binders,
            final(self)@.scopes == old(self)@.scopes,
            final(self)@.enclosing == old(self)@.enclosing,
    {
        let is_name_binder = self.is_name(binder);
        if is_name_binder != expects_name {
            self.error(
                site,
                ErrorKind::kind_mismatch(binder, occ.symbol, expects_name),
                Some(occ.position),
            );
        }
        self.insert_binding(occ, VarBinding::Bound(binder))
    }

    /// Records that occurrence `occ` is a free variable of a pattern, the
    /// `index`-th binder of that pattern.  Returns `true` when `occ` had no binding.
    pub fn map_symbol_as_free(&mut self, occ: SymbolOccurrence, index: usize) -> (r: bool)
        requires
            old(self).inv(),
        ensures
            final(self).inv(),
            r == (lookup_binding(old(self)@.bound, occ) is None),
            lookup_binding(final(self)@.bound, occ) == Some(VarBinding::Free { index }),
            forall|o: SymbolOccurrence|
                o != occ ==> #[trigger] lookup_binding(final(self)@.bound, o) == lookup_binding(
                    old(self)@.bound,
                    o,
                ),
            final(self)@.procs == old(self)@.procs,
            final(self)@.strings == old(self)@.strings,
            final(self)@.diags == old(self)@.diags,
            final(self)@.binders == old(self)@.binders,
            final(self)@.scopes == old(self)@.scopes,
            final(self)@.enclosing == old(self)@.enclosing,
    {
        self.insert_binding(occ, VarBinding::Free { index })
    }

    /// The binding recorded for `occurence`, if any.
    pub fn binder_of(&self, occurence: SymbolOccurrence) -> (r: Option<VarBinding>)
        requires
            self.inv(),
        ensures
            r == lookup_binding(self@.bound, occurence),
    {
        let n = self.var_to_binder.len();
        let mut i: usize = 0;
        while i < n
            invariant
                i <= n,
                n == self@.bound.len(),
                sorted_occurrences(self@.bound),
                forall|j: int| 0 <= j < i ==> (#[trigger] self@.bound[j]).occurence != occurence,
            decreases n - i,
        {
            if self.var_to_binder[i].occurence == occurence {
                proof {
                    let b = self@.bound;
                    assert(sorted_occurrences(b));
                    let k = choose|k: int| 0 <= k < b.len() && (#[trigger] b[k]).occurence == occurence;
                    if k != i {
                        if k < i {
                            assert(occ_lt(b[k].occurence, b[i as int].occurence));
                        } else {
                            assert(occ_lt(b[i as int].occurence, b[k].occurence));
                        }
                    }
                }
                return Some(self.var_to_binder[i].binding);
            }
            i = i + 1;
        }
        None
    }

    /// The binding recorded for the occurrence of identifier `id`, if any.
    pub fn binder_of_id(&self, id: &Id) -> (r: Option<VarBinding>)
        requires
            self.inv(),
        ensures
            match r {
                Some(vb) => exists|sym: Symbol|
                    sym.0 < self@.strings.len() && self@.strings[sym.0 as int] == id.name@
                        && lookup_binding(self@.bound, SymbolOccurrence { position: id.pos, symbol: sym })
                        == Some(vb),
                None => forall|sym: Symbol|
                    sym.0 < self@.strings.len() && self@.strings[sym.0 as int] == id.name@ ==> lookup_binding(
                        self@.bound,
                        SymbolOccurrence { position: id.pos, symbol: sym },
                    ) is None,
            },
    {
        match self.symbol_of(id.name.as_str()) {
            Some(sym) => {
                let r = self.binder_of(SymbolOccurrence { position: id.pos, symbol: sym });
                proof {
                    assert forall|s2: Symbol|
                        s2.0 < self@.strings.len() && self@.strings[s2.0 as int]
                            == id.name@ implies s2 == sym by {
                        assert(self@.strings.no_duplicates());
                    }
                }
                r
            },
            None => None,
        }
    }

    /// Every variable occurrence with its binding, in reading order.
    pub fn bound_positions(&self) -> (r: Vec<BoundOccurence>)
        requires
            self.inv(),
        ensures
            r@ == self@.bound,
            sorted_occurrences(r@),
    {
        self.var_to_binder.clone()
    }

    /// The variable occurrences within `[span.start, span.end)`, in reading order.
    pub fn bound_in_range(&self, span: SourceSpan) -> (r: Vec<BoundOccurence>)
        requires
            self.inv(),
        ensures
            r@ == self@.bound.filter(|b: BoundOccurence| occ_in_span(b.occurence, span)),
    {
        let mut r: Vec<BoundOccurence> = Vec::new();
        let mut i: usize = 0;
        proof {
            assert(self@.bound.take(0) =~= Seq::<BoundOccurence>::empty());
        }
        while i < self.var_to_binder.len()
            invariant
                i <= self@.bound.len(),
                r@ == self@.bound.take(i as int).filter(
                    |b: BoundOccurence| occ_in_span(b.occurence, span),
                ),
            decreases self@.bound.len() - i,
        {
            let e = self.var_to_binder[i];
            proof {
                assert(self@.bound.take(i + 1).drop_last() =~= self@.bound.take(i as int));
                reveal_with_fuel(Seq::filter, 1);
            }
            if !e.occurence.position.before(&span.start) && e.occurence.position.before(&span.end) {
                r.push(e);
            }
            i = i + 1;
        }
        proof {
            assert(self@.bound.take(i as int) =~= self@.bound);
        }
        r
    }

    /// The variable occurrences within the span of `scope`.
    pub fn bound_in_scope(&self, scope: &ScopeInfo) -> (r: Vec<BoundOccurence>)
        requires
            self.inv(),
        ensures
            r@ == self@.bound.filter(
                |b: BoundOccurence| occ_in_span(b.occurence, scope.spec_span()),
            ),
    {
        self.bound_in_range(scope.span())
    }

    /// The free-variable bindings within `[span.start, span.end)`, in reading order.
    pub fn free_in_range(&self, span: SourceSpan) -> (r: Vec<VarBinding>)
        requires
            self.inv(),
        ensures
            r@ == self@.bound.filter(|b: BoundOccurence| occ_in_span(b.occurence, span)).filter(
                |b: BoundOccurence| b.binding is Free,
            ).map_values(|b: BoundOccurence| b.binding),
    {
        let all = self.bound_in_range(span);
        let ghost inr = all@;
        let mut r: Vec<VarBinding> = Vec::new();
        let mut i: usize = 0;
        proof {
            assert(inr.take(0) =~= Seq::<BoundOccurence>::empty());
            assert(r@ =~= inr.take(0).filter(|b: BoundOccurence| b.binding is Free).map_values(
                |b: BoundOccurence| b.binding,
            ));
        }
        while i < all.len()
            invariant
                i <= inr.len(),
                all@ == inr,
                r@ == inr.take(i as int).filter(|b: BoundOccurence| b.binding is Free).map_values(
                    |b: BoundOccurence| b.binding,
                ),
            decreases inr.len() - i,
        {
            let e = all[i];
            proof {
                assert(inr.take(i + 1).drop_last() =~= inr.take(i as int));
                reveal_with_fuel(Seq::filter, 1);
            }
            if e.binding.is_free() {
                r.push(e.binding);
                proof {
                    let f = inr.take(i + 1).filter(|b: BoundOccurence| b.binding is Free);
                    let g = inr.take(i as int).filter(|b: BoundOccurence| b.binding is Free);
                    assert(f =~= g.push(e));
                    assert(r@ =~= f.map_values(|b: BoundOccurence| b.binding));
                }
            } else {
                proof {
                    let f = inr.take(i + 1).filter(|b: BoundOccurence| b.binding is Free);
                    let g = inr.take(i as int).filter(|b: BoundOccurence| b.binding is Free);
                    assert(f =~= g);
                }
            }
            i = i + 1;
        }
        proof {
            assert(inr.take(i as int) =~= inr);
        }
        r
    }
}

/// The scope against which a free variable of process `pid` is resolved: its
/// own scope, else the scope of its enclosing process.
pub open spec fn free_var_scope(v: DbView, pid: PID) -> Option<ScopeInfo> {
    if scoped(v, pid) {
        v.scopes[pid.0 as int]
    } else {
        match enclosing_of(v, pid) {
            Some(q) => if scoped(v, q) {
                v.scopes[q.0 as int]
            } else {
                None
            },
            None => None,
        }
    }
}

/// `vb`, seen from process `pid`, denotes a binder.
pub open spec fn resolvable(v: DbView, pid: PID, vb: VarBinding) -> bool {
    match vb {
        VarBinding::Bound(_) => true,
        VarBinding::Free { index } => free_var_scope(v, pid) is Some && index < free_var_scope(
            v,
            pid,
        )->0.num(),
    }
}

/// The binder that `vb` denotes, seen from process `pid`.
pub open spec fn resolved_binder(v: DbView, pid: PID, vb: VarBinding) -> BinderId {
    match vb {
        VarBinding::Bound(b) => b,
        VarBinding::Free { index } => BinderId((free_var_scope(v, pid)->0.start() + index) as u32),
    }
}

/// Every process on a scope chain introduces a scope.
pub proof fn lemma_chain_scoped(v: DbView, pid: PID)
    ensures
        forall|k: int|
            0 <= k < scope_chain_of(v, pid).len() ==> scoped(v, #[trigger] scope_chain_of(v, pid)[k]),
{
    lemma_ancestors_scoped(v, pid);
    let head: Seq<PID> = if scoped(v, pid) {
        seq![pid]
    } else {
        Seq::empty()
    };
    let c = scope_chain_of(v, pid);
    assert forall|k: int| 0 <= k < c.len() implies scoped(v, #[trigger] c[k]) by {
        if k < head.len() {
        } else {
            assert(c[k] == ancestor_chain(v, pid)[k - head.len()]);
        }
    }
}

proof fn lemma_ancestors_scoped(v: DbView, pid: PID)
    ensures
        forall|k: int|
            0 <= k < ancestor_chain(v, pid).len() ==> scoped(v, #[trigger] ancestor_chain(v, pid)[k]),
    decreases pid.0,
{
    match enclosing_of(v, pid) {
        Some(q) => if q.0 < pid.0 {
            lemma_ancestors_scoped(v, q);
            let head: Seq<PID> = if scoped(v, q) {
                seq![q]
            } else {
                Seq::empty()
            };
            let c = ancestor_chain(v, pid);
            assert forall|k: int| 0 <= k < c.len() implies scoped(v, #[trigger] c[k]) by {
                if k >= head.len() {
                    assert(c[k] == ancestor_chain(v, q)[k - head.len()]);
                }
            }
        },
        None => {},
    }
}

impl<'a> SemanticDb<'a> {
    /// Gives every indexed process a slot in the enclosure table; new slots hold
    /// the top-level sentinel.
    pub fn resize_enclosing(&mut self)
        requires
            old(self).inv(),
        ensures
            final(self).inv(),
            final(self)@ == (DbView {
                enclosing: old(self)@.enclosing + Seq::new(
                    (old(self)@.procs.len() - old(self)@.enclosing.len()) as nat,
                    |_i: int| PID::spec_top_level(),
                ),
                ..old(self)@
            }),
    {
        let n = self.index.len();
        let start = self.enclosing_pids.len();
        let mut extra: Vec<PID> = Vec::new();
        let mut k = start;
        while k < n
            invariant
                start <= k <= n,
                extra@ == Seq::new((k - start) as nat, |_i: int| PID::spec_top_level()),
            decreases n - k,
        {
            extra.push(PID::top_level());
            k = k + 1;
            proof {
                assert(extra@ =~= Seq::new((k - start) as nat, |_i: int| PID::spec_top_level()));
            }
        }
        self.enclosing_pids.append(&mut extra);
        proof {
            let v = self@;
            let o = old(self)@;
            assert(v.enclosing =~= o.enclosing + Seq::new(
                (o.procs.len() - o.enclosing.len()) as nat,
                |_i: int| PID::spec_top_level(),
            ));
            assert forall|i: int| 0 <= i < v.enclosing.len() implies (#[trigger] v.enclosing[i])
                == PID::spec_top_level() || v.enclosing[i].0 < i by {
                if i < o.enclosing.len() {
                    assert(o.enclosing[i] == v.enclosing[i]);
                }
            }
            assert(self@ =~= DbView {
                enclosing: old(self)@.enclosing + Seq::new(
                    (old(self)@.procs.len() - old(self)@.enclosing.len()) as nat,
                    |_i: int| PID::spec_top_level(),
                ),
                ..old(self)@
            });
        }
    }

    /// Records `enclosing` as the nearest enclosing scoped process of `pid`.
    pub fn set_enclosing(&mut self, pid: PID, enclosing: PID)
        requires
            old(self).inv(),
            pid.0 < old(self)@.enclosing.len(),
            enclosing == PID::spec_top_level() || enclosing.0 < pid.0,
        ensures
            final(self).inv(),
            final(self)@ == (DbView {
                enclosing: old(self)@.enclosing.update(pid.0 as int, enclosing),
                ..old(self)@
            }),
    {
        self.enclosing_pids.set(pid.0 as usize, enclosing);
        proof {
            let v = self@;
            let o = old(self)@;
            assert forall|i: int| 0 <= i < v.enclosing.len() implies (#[trigger] v.enclosing[i])
                == PID::spec_top_level() || v.enclosing[i].0 < i by {
                if i != pid.0 {
                    assert(o.enclosing[i] == v.enclosing[i]);
                }
            }
        }
    }

    /// The process whose scope immediately encloses `pid`, if it is not the top level.
    pub fn enclosing_process(&self, pid: PID) -> (r: Option<PID>)
        requires
            self.inv(),
        ensures
            r == enclosing_of(self@, pid),
            r matches Some(q) ==> q.0 < pid.0,
    {
        let i = pid.0 as usize;
        if i < self.enclosing_pids.len() {
            let parent = self.enclosing_pids[i];
            if parent.0 != u32::MAX {
                return Some(parent);
            }
        }
        None
    }

    /// The scope of the process that immediately encloses `pid`.
    pub fn enclosing_scope(&self, pid: PID) -> (r: Option<&ScopeInfo>)
        requires
            self.inv(),
        ensures
            match r {
                Some(s) => enclosing_of(self@, pid) is Some && scoped(
                    self@,
                    enclosing_of(self@, pid)->0,
                ) && *s == self@.scopes[(enclosing_of(self@, pid)->0).0 as int]->0 && s.wf() && s.end()
                    <= self@.binders.len(),
                None => enclosing_of(self@, pid) is None || !scoped(
                    self@,
                    enclosing_of(self@, pid)->0,
                ),
            },
    {
        match self.enclosing_process(pid) {
            Some(parent) => self.get_scope(parent),
            None => None,
        }
    }

    /// `pid` when it introduces a scope, then each scoped process on the way out
    /// to the top level, nearest first.
    pub fn process_scope_chain(&self, pid: PID) -> (r: Vec<PID>)
        requires
            self.inv(),
        ensures
            r@ == scope_chain_of(self@, pid),
    {
        let mut r: Vec<PID> = Vec::new();
        if self.is_scoped(pid) {
            r.push(pid);
        }
        let mut cur = self.enclosing_process(pid);
        proof {
            assert(r@ =~= if scoped(self@, pid) {
                seq![pid]
            } else {
                Seq::empty()
            });
        }
        while cur.is_some()
            invariant
                self.inv(),
                scope_chain_of(self@, pid) == r@ + match cur {
                    Some(q) => (if scoped(self@, q) {
                        seq![q]
                    } else {
                        Seq::empty()
                    }) + ancestor_chain(self@, q),
                    None => Seq::empty(),
                },
            decreases match cur {
                Some(q) => q.0 as int + 1,
                None => 0,
            },
        {
            let q = cur.unwrap();
            let ghost before = r@;
            if self.is_scoped(q) {
                r.push(q);
            }
            cur = self.enclosing_process(q);
            proof {
                let head: Seq<PID> = if scoped(self@, q) {
                    seq![q]
                } else {
                    Seq::empty()
                };
                assert(r@ =~= before + head);
                let tail = match cur {
                    Some(q2) => (if scoped(self@, q2) {
                        seq![q2]
                    } else {
                        Seq::empty()
                    }) + ancestor_chain(self@, q2),
                    None => Seq::empty(),
                };
                assert(ancestor_chain(self@, q) == tail);
                assert(before + (head + ancestor_chain(self@, q)) =~= r@ + tail);
            }
        }
        proof {
            assert(r@ + Seq::<PID>::empty() =~= r@);
        }
        r
    }

    /// The scopes of `process_scope_chain(pid)`, in the same order.
    pub fn scope_chain(&self, pid: PID) -> (r: Vec<&ScopeInfo>)
        requires
            self.inv(),
        ensures
            r@.len() == scope_chain_of(self@, pid).len(),
            forall|i: int|
                0 <= i < r@.len() ==> scoped(self@, scope_chain_of(self@, pid)[i]) && *(#[trigger] r@[i])
                    == self@.scopes[scope_chain_of(self@, pid)[i].0 as int]->0,
    {
        let chain = self.process_scope_chain(pid);
        proof {
            lemma_chain_scoped(self@, pid);
        }
        let mut r: Vec<&ScopeInfo> = Vec::new();
        let mut i: usize = 0;
        while i < chain.len()
            invariant
                self.inv(),
                chain@ == scope_chain_of(self@, pid),
                forall|k: int| 0 <= k < chain@.len() ==> scoped(self@, #[trigger] chain@[k]),
                i <= chain@.len(),
                r@.len() == i,
                forall|k: int|
                    0 <= k < r@.len() ==> *(#[trigger] r@[k]) == self@.scopes[chain@[k].0 as int]->0,
            decreases chain@.len() - i,
        {
            let s = self.get_scope(chain[i]).unwrap();
            r.push(s);
            i = i + 1;
        }
        r
    }

    /// The binder of `sym` in the nearest scope of the chain from `start_pid`
    /// that declares it.
    pub fn lookup_in_scope_chain(&self, sym: Symbol, start_pid: PID) -> (r: Option<BinderId>)
        requires
            self.inv(),
        ensures
            r == lookup_chain(self@, scope_chain_of(self@, start_pid), sym),
    {
        let chain = self.process_scope_chain(start_pid);
        proof {
            lemma_chain_scoped(self@, start_pid);
            assert(chain@.skip(0) =~= chain@);
        }
        let mut i: usize = 0;
        while i < chain.len()
            invariant
                self.inv(),
                chain@ == scope_chain_of(self@, start_pid),
                forall|k: int| 0 <= k < chain@.len() ==> scoped(self@, #[trigger] chain@[k]),
                i <= chain@.len(),
                lookup_chain(self@, chain@, sym) == lookup_chain(self@, chain@.skip(i as int), sym),
            decreases chain@.len() - i,
        {
            let scope = self.get_scope(chain[i]).unwrap();
            let found = self.find_binder_for_symbol(sym, scope);
            proof {
                assert(chain@.skip(i as int)[0] == chain@[i as int]);
                assert(chain@.skip(i as int).drop_first() =~= chain@.skip(i + 1));
            }
            if found.is_some() {
                return found;
            }
            i = i + 1;
        }
        None
    }

    /// The binder that `vb` denotes, seen from process `pid`.
    /// Whether `vb`, seen from process `pid`, denotes a binder: a free
    /// variable needs a scope at `pid` or around it with room for its index.
    pub fn is_resolvable(&self, pid: PID, vb: VarBinding) -> (r: bool)
        requires
            self.inv(),
        ensures
            r == resolvable(self@, pid, vb),
    {
        match vb {
            VarBinding::Bound(_) => true,
            VarBinding::Free { index } => {
                let scope = match self.get_scope(pid) {
                    Some(s) => Some(s),
                    None => self.enclosing_scope(pid),
                };
                match scope {
                    Some(s) => index < s.num_binders(),
                    None => false,
                }
            },
        }
    }

    pub fn resolve_var_binding(&self, pid: PID, vb: VarBinding) -> (r: BinderId)
        requires
            self.inv(),
            resolvable(self@, pid, vb),
        ensures
            r == resolved_binder(self@, pid, vb),
    {
        match vb {
            VarBinding::Bound(bid) => bid,
            VarBinding::Free { index } => {
                let scope = match self.get_scope(pid) {
                    Some(s) => s,
                    None => self.enclosing_scope(pid).unwrap(),
                };
                BinderId(scope.binder_start().0 + index as u32)
            },
        }
    }

    /// The binder of an occurrence: through its recorded binding when it has
    /// one, else by looking its symbol up the scope chain of `pid`.
    pub fn resolve_occurence(&self, occ: SymbolOccurrence, pid: PID) -> (r: Option<BinderId>)
        requires
            self.inv(),
            lookup_binding(self@.bound, occ) matches Some(vb) ==> resolvable(self@, pid, vb),
        ensures
            r == match lookup_binding(self@.bound, occ) {
                Some(vb) => Some(resolved_binder(self@, pid, vb)),
                None => lookup_chain(self@, scope_chain_of(self@, pid), occ.symbol),
            },
    {
        match self.binder_of(occ) {
            Some(vb) => Some(self.resolve_var_binding(pid, vb)),
            None => self.lookup_in_scope_chain(occ.symbol, pid),
        }
    }
}

/// Every id in `bit_ids(bits, want, start)` is at least `start` and below `start + bits.len()`.
pub proof fn lemma_bit_ids_in_range(bits: Seq<bool>, want: bool, start: int)
    ensures
        forall|k: int|
            0 <= k < bit_ids(bits, want, start).len() ==> start <= #[trigger] bit_ids(bits, want, start)[k]
                < start + bits.len(),
    decreases bits.len(),
{
    if bits.len() > 0 {
        lemma_bit_ids_in_range(bits.drop_last(), want, start);
        let prev = bit_ids(bits.drop_last(), want, start);
        let all = bit_ids(bits, want, start);
        assert forall|k: int| 0 <= k < all.len() implies start <= #[trigger] all[k] < start
            + bits.len() by {
            if k < prev.len() {
                assert(all[k] == prev[k]);
            }
        }
    }
}

impl SymbolOccurrence {
    /// The occurrence of identifier `id`, whose name is interned in `db`.
    pub fn from_id(id: &Id, db: &mut SemanticDb) -> (r: SymbolOccurrence)
        requires
            old(db).inv(),
            old(db)@.strings.contains(id.name@) || old(db)@.strings.len() < u32::MAX,
        ensures
            final(db).inv(),
            final(db)@ == (DbView { strings: interned(old(db)@.strings, id.name@), ..old(db)@ }),
            r.position == id.pos,
            r.symbol.0 < final(db)@.strings.len(),
            final(db)@.strings[r.symbol.0 as int] == id.name@,
    {
        let symbol = db.intern(id.name.as_str());
        SymbolOccurrence { position: id.pos, symbol }
    }
}

/// Whether `a` and `b` are one node in memory (`std::ptr::eq`); one node
/// has one value.  Which nodes share an address is not stated.
#[verifier::external_body]
fn same_node(a: &AnnProc, b: &AnnProc) -> (r: bool)
    ensures
        r ==> *a == *b,
{
    std::ptr::eq(a, b)
}

} // verus!
