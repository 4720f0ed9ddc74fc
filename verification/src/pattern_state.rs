//! The state of the resolution of one pattern, and the conditions that the
//! pattern walkers keep.
use crate::ast::{
    AnnProc, Bind, Case, Collection, Id, KeyValue, LetBinding, Name, NameDecl, Names, Proc, Source,
    SourceSpan, SyncSendCont, Var,
};
use crate::bits::{
    bitvec_bits, bv_clear_from, bv_len, bv_push, bv_repeat, bv_set, fbs_grow_and_insert, fbs_new,
    fixed_bits, BitList, MAX_BITS,
};
use crate::db::{lookup_binding, DbView, SemanticDb};
use crate::resolver::{
    binders_located_from, env_located, lemma_located_from_grow, lemma_located_grow,
    env_extends, lemma_extends_trans, env_within, env_named, lemma_named_grow, lemma_named_lookup, lemma_named_parts, intern_guarded, lemma_env_lookup_within, lemma_step_trans, resolution_step,
    resolve_var_ref, BindingStack, Env, forgotten,
};
use crate::scope::ScopeInfo;
use crate::resolution::symbol_index;
use crate::var_uses::{pattern_var_settled, recorded, tables_full};
use crate::types::{Binder, BinderId, BinderKind, ErrorKind, Symbol, SymbolOccurrence, VarBinding, WarningKind, PID};
use fixedbitset::FixedBitSet;
use vstd::prelude::*;

verus! {

broadcast use lemma_step_trans, lemma_extends_trans, lemma_named_grow, lemma_located_from_grow, lemma_located_grow;

/// The state of the resolution of one pattern: the binders it introduced so
/// far (`free[i]` for binder `first_binder + i`, cleared once the binder is
/// only visible to a sub-pattern's continuation), their uses, the outer
/// binders it refers to, and the pattern variables in scope.
pub struct PatternResolver {
    pub id: PID,
    pub first_binder: BinderId,
    pub var_index: usize,
    pub scope_guard: usize,
    pub env: Env,
    pub free: BitList,
    pub used: BitList,
    pub refs: FixedBitSet,
}

impl PatternResolver {
    /// Consistent with a database of `nb` binders.
    pub open spec fn wf(&self, nb: nat) -> bool {
        &&& self.first_binder.0 + bitvec_bits(self.free).len() == nb
        &&& bitvec_bits(self.used).len() == bitvec_bits(self.free).len()
        &&& self.scope_guard <= bitvec_bits(self.free).len()
        &&& env_within(self.env.locals@, self.first_binder.0 as int, nb as int)
        &&& fixed_bits(self.refs).len() <= nb
        &&& nb <= MAX_BITS
    }

    pub fn new(pattern_id: PID, first_binder: BinderId, var_index: usize) -> (r: Self)
        requires
            first_binder.0 <= MAX_BITS,
        ensures
            r.wf(first_binder.0 as nat),
            r.id == pattern_id,
            r.first_binder == first_binder,
            r.scope_guard == 0,
            r.env.locals@.len() == 0,
    {
        PatternResolver {
            id: pattern_id,
            first_binder,
            var_index,
            scope_guard: 0,
            env: Env::new(),
            free: bv_repeat(false, 0),
            used: bv_repeat(false, 0),
            refs: fbs_new(),
        }
    }

    /// The scope of the resolved pattern.
    pub fn take(self, span: SourceSpan, Ghost(nb): Ghost<nat>) -> (r: ScopeInfo)
        requires
            self.wf(nb),
        ensures
            r.wf(),
            r.start() == self.first_binder.0,
            r.end() == nb,
            r.spec_span() == span,
    {
        let mut result = ScopeInfo::from_parts(self.first_binder, self.free, self.refs, span);
        result.set_uses(self.used);
        result
    }

    fn next_index(&mut self) -> (r: usize)
        ensures
            r == old(self).var_index,
            final(self).id == old(self).id,
            final(self).first_binder == old(self).first_binder,
            final(self).scope_guard == old(self).scope_guard,
            final(self).env == old(self).env,
            final(self).free == old(self).free,
            final(self).used == old(self).used,
            final(self).refs == old(self).refs,
    {
        let r = self.var_index;
        if self.var_index < usize::MAX {
            self.var_index = self.var_index + 1;
        }
        r
    }

    /// Looks `var` up among the pattern variables; with `check_scope`, only
    /// the variables of the innermost sub-pattern count.  A hit is marked as
    /// used and recorded in the database.
    fn internal_resolve(
        &mut self,
        var: &Id,
        expects_name: bool,
        db: &mut SemanticDb,
        check_scope: bool,
        Ghost(lo): Ghost<int>,
        Ghost(hi): Ghost<int>,
    ) -> (r: Option<BinderId>)
        requires
            old(db).inv(),
            old(self).wf(old(db)@.binders.len()),
            env_named(old(self).env.locals@, old(db)@.binders),
            binders_located_from(old(db)@.binders, old(self).first_binder.0 as int, lo, hi),
            lo <= old(self).id.0 < hi,
        ensures
            final(db).inv(),
            final(self).wf(final(db)@.binders.len()),
            final(db)@.binders == old(db)@.binders,
            final(self).id == old(self).id,
            final(self).first_binder == old(self).first_binder,
            final(self).scope_guard == old(self).scope_guard,
            final(self).env == old(self).env,
            final(self).free == old(self).free,
            resolution_step(old(db)@, final(db)@, lo, hi),
            r is Some ==> recorded(final(db)@, *var),
            r == pattern_lookup(
                old(self).env.locals@,
                final(db)@.strings,
                var.name@,
                old(self).first_binder.0 as int,
                old(self).scope_guard as int,
                check_scope,
            ),
            r is None ==> final(db)@.bound == old(db)@.bound && final(db)@.diags == old(db)@.diags
                && final(self).used == old(self).used,
            r matches Some(b) ==> bitvec_bits(final(self).used) == bitvec_bits(old(self).used).update(
                b.0 - old(self).first_binder.0,
                true,
            ),
            r matches Some(b) ==> lookup_binding(
                final(db)@.bound,
                SymbolOccurrence { symbol: symbol_index(final(db)@.strings, var.name@), position: var.pos },
            ) == Some(VarBinding::Bound(b)),
            final(self).refs == old(self).refs,
            final(self).var_index == old(self).var_index,
            final(db)@.strings == crate::resolver::interned_if_room(old(db)@.strings, var.name@),
    {
        let sym = match intern_guarded(db, var.name.as_str()) {
            Some(s) => s,
            None => return None,
        };
        proof {
            db.lemma_inv_wf();
            crate::resolver::lemma_unique_symbol(db@.strings, sym, var.name@);
            assert(db@.strings.contains(var.name@)) by {
                assert(db@.strings[sym.0 as int] == var.name@);
            }
            let i = choose|i: int| 0 <= i < db@.strings.len() && db@.strings[i] == var.name@;
            assert(Symbol(i as u32) == sym) by {
                assert(Symbol(i as u32).0 == i);
            }
            lemma_env_lookup_within(
                self.env.locals@,
                sym,
                self.first_binder.0 as int,
                db@.binders.len() as int,
            );
            lemma_named_lookup(self.env.locals@, db@.binders, sym);
        }
        match self.env.lookup(sym) {
            Some(binder) => {
                let idx = (binder.0 - self.first_binder.0) as usize;
                if !check_scope || idx >= self.scope_guard {
                    bv_set(&mut self.used, idx, true);
                    let occ = SymbolOccurrence { symbol: sym, position: var.pos };
                    let ghost mid = db@;
                    let _ = db.map_symbol_to_binder(occ, binder, expects_name, self.id);
                    proof {
                        assert(resolution_step(old(db)@, mid, lo, hi));
                        assert(resolution_step(mid, db@, lo, hi));
                        assert(lookup_binding(db@.bound, SymbolOccurrence { symbol: sym, position: var.pos }) is Some);
                    }
                    return Some(binder);
                }
                proof {
                    assert(resolution_step(old(db)@, db@, lo, hi));
                }
                None
            },
            None => {
                proof {
                    assert(resolution_step(old(db)@, db@, lo, hi));
                }
                None
            },
        }
    }

    /// Resolves `var` to a variable of the innermost sub-pattern, or
    /// introduces it as a new free variable.
    pub fn resolve_or_introduce_var(
        &mut self,
        var: &Id,
        kind: BinderKind,
        db: &mut SemanticDb,
        Ghost(lo): Ghost<int>,
        Ghost(hi): Ghost<int>,
    )
        requires
            old(db).inv(),
            old(self).wf(old(db)@.binders.len()),
            env_named(old(self).env.locals@, old(db)@.binders),
            binders_located_from(old(db)@.binders, old(self).first_binder.0 as int, lo, hi),
            lo <= old(self).id.0 < hi,
        ensures
            final(db).inv(),
            final(self).wf(final(db)@.binders.len()),
            env_named(final(self).env.locals@, final(db)@.binders),
            final(self).id == old(self).id,
            final(self).first_binder == old(self).first_binder,
            final(self).scope_guard == old(self).scope_guard,
            env_extends(final(self).env.locals@, old(self).env.locals@),
            resolution_step(old(db)@, final(db)@, lo, hi),
            pattern_var_settled(final(db)@, *var),
            final(db)@.strings == crate::resolver::interned_if_room(old(db)@.strings, var.name@),
            match pattern_lookup(
                old(self).env.locals@,
                final(db)@.strings,
                var.name@,
                old(self).first_binder.0 as int,
                old(self).scope_guard as int,
                true,
            ) {
                Some(b) => final(db)@.binders == old(db)@.binders && final(self).env == old(self).env
                    && lookup_binding(
                    final(db)@.bound,
                    SymbolOccurrence { symbol: symbol_index(final(db)@.strings, var.name@), position: var.pos },
                ) == Some(VarBinding::Bound(b)),
                None => introduced_free(old(db)@, final(db)@, *old(self), *final(self), *var, kind) || (
                tables_full(final(db)@) && final(db)@.binders == old(db)@.binders),
            },
    {
        let expects_name = match kind {
            BinderKind::Proc => false,
            BinderKind::Name(_) => true,
        };
        match self.internal_resolve(var, expects_name, db, true, Ghost(lo), Ghost(hi)) {
            Some(_) => {
                proof {
                    assert(self.env.locals@.take(self.env.locals@.len() as int) =~= self.env.locals@);
                }
            },
            None => {
                let ghost mid = db@;
                proof {
                    crate::resolver::lemma_interned_if_room_idem(old(db)@.strings, var.name@);
                }
                self.introduce_free(var, kind, db, Ghost(lo), Ghost(hi));
            },
        }
    }

    /// Resolves the reference `=var`: to a pattern variable, or else to a
    /// binder of the enclosing scopes, which the pattern then refers to.
    pub fn resolve_ref(
        &mut self,
        var: &Id,
        expects_name: bool,
        kind: crate::ast::VarRefKind,
        db: &mut SemanticDb,
        lex_env: &mut BindingStack,
        Ghost(lo): Ghost<int>,
        Ghost(hi): Ghost<int>,
    ) -> (r: Option<BinderId>)
        requires
            old(db).inv(),
            old(self).wf(old(db)@.binders.len()),
            old(lex_env).wf(old(db)@.binders.len()),
            env_named(old(self).env.locals@, old(db)@.binders),
            env_named(old(lex_env).env.locals@, old(db)@.binders),
            binders_located_from(old(db)@.binders, old(self).first_binder.0 as int, lo, hi),
            env_located(old(lex_env).env.locals@, old(db)@.binders, lo, hi),
            lo <= old(self).id.0 < hi,
        ensures
            final(db).inv(),
            final(self).wf(final(db)@.binders.len()),
            final(lex_env).wf(final(db)@.binders.len()),
            env_named(final(self).env.locals@, final(db)@.binders),
            env_named(final(lex_env).env.locals@, final(db)@.binders),
            final(lex_env).same_shape(old(lex_env)),
            final(db)@.binders == old(db)@.binders,
            final(self).id == old(self).id,
            final(self).first_binder == old(self).first_binder,
            final(self).scope_guard == old(self).scope_guard,
            final(self).env == old(self).env,
            resolution_step(old(db)@, final(db)@, lo, hi),
            r is Some ==> recorded(final(db)@, *var),
            r == match pattern_lookup(
                old(self).env.locals@,
                final(db)@.strings,
                var.name@,
                old(self).first_binder.0 as int,
                old(self).scope_guard as int,
                false,
            ) {
                Some(b) => Some(b),
                None => if final(db)@.strings.contains(var.name@) {
                    crate::resolver::env_lookup(
                        old(lex_env).env.locals@,
                        symbol_index(final(db)@.strings, var.name@),
                    )
                } else {
                    None
                },
            },
            r matches Some(b) ==> lookup_binding(
                final(db)@.bound,
                SymbolOccurrence { symbol: symbol_index(final(db)@.strings, var.name@), position: var.pos },
            ) == Some(VarBinding::Bound(b)),
            r is None ==> final(db)@.bound == old(db)@.bound && final(db)@.diags == old(db)@.diags,
    {
        match self.internal_resolve(var, expects_name, db, false, Ghost(lo), Ghost(hi)) {
            Some(b) => Some(b),
            None => {
                let ghost s1 = db@.strings;
                proof {
                    crate::resolver::lemma_interned_if_room_idem(old(db)@.strings, var.name@);
                }
                match resolve_var_ref(var, kind, self.id, db, lex_env, Ghost(lo), Ghost(hi)) {
                    Some((occ, binder)) => {
                        proof {
                            assert(db@.strings == s1);
                            db.lemma_inv_wf();
                            crate::resolver::lemma_unique_symbol(db@.strings, occ.symbol, var.name@);
                            assert(db@.strings.contains(var.name@)) by {
                                assert(db@.strings[occ.symbol.0 as int] == var.name@);
                            }
                            let i = choose|i: int| 0 <= i < db@.strings.len() && db@.strings[i] == var.name@;
                            assert(Symbol(i as u32) == occ.symbol) by {
                                assert(Symbol(i as u32).0 == i);
                            }
                            assert(occ == SymbolOccurrence { symbol: occ.symbol, position: var.pos });
                            assert(lookup_binding(db@.bound, SymbolOccurrence { symbol: occ.symbol, position: var.pos }) is Some);
                            assert(symbol_index(db@.strings, var.name@) == occ.symbol);
                        }
                        fbs_grow_and_insert(&mut self.refs, binder.0 as usize);
                        Some(binder)
                    },
                    None => {
                        proof {
                            assert(db@.strings == s1);
                            db.lemma_inv_wf();
                            if db@.strings.contains(var.name@) {
                                let i = choose|i: int| 0 <= i < db@.strings.len() && db@.strings[i] == var.name@;
                                assert(symbol_index(db@.strings, var.name@).0 == i);
                                assert(db@.strings[symbol_index(db@.strings, var.name@).0 as int] == var.name@);
                            }
                        }
                        None
                    },
                }
            },
        }
    }

    /// Introduces `id` as a new free variable of the pattern.  Nothing is
    /// introduced when the database has no room for another binder or symbol.
    pub fn introduce_free(
        &mut self,
        id: &Id,
        kind: BinderKind,
        db: &mut SemanticDb,
        Ghost(lo): Ghost<int>,
        Ghost(hi): Ghost<int>,
    )
        requires
            old(db).inv(),
            old(self).wf(old(db)@.binders.len()),
            env_named(old(self).env.locals@, old(db)@.binders),
            lo <= old(self).id.0 < hi,
        ensures
            final(db).inv(),
            final(self).wf(final(db)@.binders.len()),
            env_named(final(self).env.locals@, final(db)@.binders),
            final(self).id == old(self).id,
            final(self).first_binder == old(self).first_binder,
            final(self).scope_guard == old(self).scope_guard,
            env_extends(final(self).env.locals@, old(self).env.locals@),
            resolution_step(old(db)@, final(db)@, lo, hi),
            pattern_var_settled(final(db)@, *id),
            final(db)@.strings == old(db)@.strings || final(db)@.strings == crate::resolver::interned_if_room(
                old(db)@.strings,
                id.name@,
            ),
            introduced_free(old(db)@, final(db)@, *old(self), *final(self), *id, kind) || (tables_full(
                final(db)@,
            ) && final(db)@.binders == old(db)@.binders),
    {
        let index = self.next_index();
        match new_free(self.id, id, kind, index, db, Ghost(lo), Ghost(hi)) {
            Some((name, fresh)) => {
                proof {
                    db.lemma_inv_wf();
                }
                bv_push(&mut self.free, true);
                bv_push(&mut self.used, false);
                let ghost before = self.env.locals@;
                self.env.push(name, fresh);
                proof {
                    assert(self.env.locals@.take(before.len() as int) =~= before);
                    assert forall|k: int| 0 <= k < self.env.locals@.len() implies (#[trigger] self.env.locals@[k]).1.0
                        < db@.binders.len() && db@.binders[self.env.locals@[k].1.0 as int].name == self.env.locals@[k].0 by {
                        if k < before.len() {
                            assert(self.env.locals@[k] == before[k]);
                        }
                    }
                }
            },
            None => {
                proof {
                    assert(self.env.locals@.take(self.env.locals@.len() as int) =~= self.env.locals@);
                }
            },
        }
    }

    /// Starts a sub-pattern: returns the scope guard to restore and the
    /// environment length before the sub-pattern's variables.
    pub fn open_sub(&mut self) -> (r: (usize, usize))
        ensures
            r.0 == old(self).scope_guard,
            r.1 == old(self).env.locals@.len(),
            final(self).scope_guard == bitvec_bits(old(self).free).len(),
            final(self).id == old(self).id,
            final(self).first_binder == old(self).first_binder,
            final(self).env == old(self).env,
            final(self).free == old(self).free,
            final(self).used == old(self).used,
            final(self).refs == old(self).refs,
            final(self).var_index == old(self).var_index,
    {
        let old_guard = self.scope_guard;
        self.scope_guard = bv_len(&self.free);
        (old_guard, self.env.len())
    }

    /// Ends a sub-pattern's own part: its variables stop being free (they are
    /// now bound for what follows), and the outer guard comes back.
    pub fn seal_sub(&mut self, old_guard: usize, Ghost(nb): Ghost<nat>)
        requires
            old(self).wf(nb),
            old_guard <= old(self).scope_guard,
        ensures
            final(self).wf(nb),
            final(self).scope_guard == old_guard,
            final(self).id == old(self).id,
            final(self).first_binder == old(self).first_binder,
            final(self).env == old(self).env,
            bitvec_bits(final(self).free) == Seq::new(
                bitvec_bits(old(self).free).len(),
                |i: int| i < old(self).scope_guard && bitvec_bits(old(self).free)[i],
            ),
            final(self).used == old(self).used,
            final(self).refs == old(self).refs,
            final(self).var_index == old(self).var_index,
    {
        bv_clear_from(&mut self.free, self.scope_guard);
        self.scope_guard = old_guard;
        proof {
            assert(bitvec_bits(self.free) =~= Seq::new(
                bitvec_bits(old(self).free).len(),
                |i: int| i < old(self).scope_guard && bitvec_bits(old(self).free)[i],
            ));
        }
    }

    /// Forgets the sub-pattern variables held in `start..end` of the environment.
    pub fn close_sub(&mut self, start: usize, end: usize, Ghost(prefix): Ghost<Seq<(Symbol, BinderId)>>, Ghost(bs): Ghost<Seq<Binder>>)
        requires
            old(self).wf(bs.len()),
            env_named(old(self).env.locals@, bs),
            prefix.len() <= start <= end,
            env_extends(old(self).env.locals@, prefix),
        ensures
            final(self).wf(bs.len()),
            env_named(final(self).env.locals@, bs),
            final(self).id == old(self).id,
            final(self).first_binder == old(self).first_binder,
            final(self).scope_guard == old(self).scope_guard,
            env_extends(final(self).env.locals@, prefix),
            final(self).env.locals@ == forgotten(old(self).env.locals@, start as int, end as int),
            final(self).var_index == old(self).var_index,
            final(self).free == old(self).free,
            final(self).used == old(self).used,
            final(self).refs == old(self).refs,
    {
        let ghost nb = bs.len();
        let ghost before = self.env.locals@;
        self.env.forget(start, end);
        proof {
            let after = self.env.locals@;
            if start < before.len() {
                if end >= before.len() {
                    lemma_named_parts(before, bs, start as int, start as int);
                } else {
                    lemma_named_parts(before, bs, start as int, end as int);
                }
                if end >= before.len() {
                    assert(after =~= before.take(start as int));
                    assert(after.take(prefix.len() as int) =~= before.take(prefix.len() as int));
                } else {
                    assert(after.take(prefix.len() as int) =~= before.take(prefix.len() as int));
                }
                assert(env_within(after, self.first_binder.0 as int, nb as int)) by {
                    assert forall|i: int| 0 <= i < after.len() implies self.first_binder.0 <= (
                    #[trigger] after[i]).1.0 < nb by {
                        if i < start {
                            assert(after[i] == before[i]);
                        } else {
                            assert(after[i] == before[i - start + end]);
                        }
                    }
                }
            }
        }
    }

    /// Forgets the variables of the sub-patterns opened at `opened`, innermost first.
    pub fn close_all(&mut self, opened: &Vec<(usize, usize)>, Ghost(base): Ghost<Seq<(Symbol, BinderId)>>, Ghost(bs): Ghost<Seq<Binder>>)
        requires
            old(self).wf(bs.len()),
            env_named(old(self).env.locals@, bs),
            env_extends(old(self).env.locals@, base),
            opened_within(opened@, base.len()),
        ensures
            final(self).wf(bs.len()),
            env_named(final(self).env.locals@, bs),
            final(self).id == old(self).id,
            final(self).first_binder == old(self).first_binder,
            final(self).scope_guard == old(self).scope_guard,
            env_extends(final(self).env.locals@, base),
            final(self).env.locals@ == closed_all(old(self).env.locals@, opened@, opened@.len() as int),
            final(self).var_index == old(self).var_index,
            final(self).free == old(self).free,
            final(self).used == old(self).used,
            final(self).refs == old(self).refs,
    {
        let mut j = opened.len();
        while j > 0
            invariant
                j <= opened@.len(),
                opened_within(opened@, base.len()),
                self.wf(bs.len()),
                env_named(self.env.locals@, bs),
                self.id == old(self).id,
                self.first_binder == old(self).first_binder,
                self.scope_guard == old(self).scope_guard,
                env_extends(self.env.locals@, base),
                closed_all(old(self).env.locals@, opened@, opened@.len() as int) == closed_all(
                    self.env.locals@,
                    opened@,
                    j as int,
                ),
                self.var_index == old(self).var_index,
                self.free == old(self).free,
                self.used == old(self).used,
                self.refs == old(self).refs,
            decreases j,
        {
            let (start, end) = opened[j - 1];
            proof {
                assert(base.len() <= opened@[j - 1].0 <= opened@[j - 1].1);
            }
            self.close_sub(start, end, Ghost(base), Ghost(bs));
            j = j - 1;
        }
    }
}

/// Every sub-pattern bound in `opened` starts at or after `base_len`.
pub open spec fn opened_within(opened: Seq<(usize, usize)>, base_len: nat) -> bool {
    forall|k: int| 0 <= k < opened.len() ==> base_len <= (#[trigger] opened[k]).0 <= opened[k].1
}

/// Records `id` as a new free binder of process `pid`, the `index`-th of its
/// pattern.  `None` when the database has no room for it.
pub fn new_free(
    pid: PID,
    id: &Id,
    kind: BinderKind,
    index: usize,
    db: &mut SemanticDb,
    Ghost(lo): Ghost<int>,
    Ghost(hi): Ghost<int>,
) -> (r: Option<(Symbol, BinderId)>)
    requires
        old(db).inv(),
        lo <= pid.0 < hi,
    ensures
        final(db).inv(),
        resolution_step(old(db)@, final(db)@, lo, hi),
        final(db)@.strings == old(db)@.strings || final(db)@.strings == crate::resolver::interned_if_room(
            old(db)@.strings,
            id.name@,
        ),
        match r {
            Some((name, b)) => b.0 == old(db)@.binders.len() && final(db)@.binders.len()
                == old(db)@.binders.len() + 1 && final(db)@.binders[b.0 as int].name == name
                && recorded(final(db)@, *id) && name == symbol_index(final(db)@.strings, id.name@)
                && final(db)@.binders == old(db)@.binders.push(
                Binder { name, kind, scope: pid, index, source_position: id.pos },
            ) && lookup_binding(final(db)@.bound, SymbolOccurrence { symbol: name, position: id.pos })
                == Some(VarBinding::Free { index }),
            None => final(db)@.binders == old(db)@.binders && tables_full(final(db)@),
        },
{
    proof {
        db.lemma_inv_wf();
    }
    if db.next_binder().0 as usize >= MAX_BITS {
        return None;
    }
    let name = match intern_guarded(db, id.name.as_str()) {
        Some(s) => s,
        None => {
            proof {
                assert(resolution_step(old(db)@, db@, lo, hi));
            }
            return None;
        },
    };
    let ghost before = db@;
    proof {
        assert(resolution_step(old(db)@, before, lo, hi));
        db.lemma_inv_wf();
    }
    let fresh = db.fresh_binder(
        Binder { name, kind, scope: pid, index, source_position: id.pos },
    );
    let _ = db.map_symbol_as_free(SymbolOccurrence { symbol: name, position: id.pos }, index);
    proof {
        assert(resolution_step(before, db@, lo, hi));
        assert(lookup_binding(db@.bound, SymbolOccurrence { symbol: name, position: id.pos }) is Some);
    }
    Some((name, fresh))
}

/// `id` was introduced as a new free variable of the pattern: a binder of its
/// name is appended to the database, the occurrence is recorded as the
/// pattern's next free variable, and the variable enters the pattern's
/// environment, free and not yet used.
pub open spec fn introduced_free(
    o: DbView,
    n: DbView,
    os: PatternResolver,
    ns: PatternResolver,
    id: Id,
    kind: BinderKind,
) -> bool {
    let sym = symbol_index(n.strings, id.name@);
    &&& n.strings.contains(id.name@)
    &&& n.binders == o.binders.push(
        Binder { name: sym, kind, scope: os.id, index: os.var_index, source_position: id.pos },
    )
    &&& lookup_binding(n.bound, SymbolOccurrence { symbol: sym, position: id.pos }) == Some(
        VarBinding::Free { index: os.var_index },
    )
    &&& ns.env.locals@ == os.env.locals@.push((sym, BinderId(o.binders.len() as u32)))
    &&& bitvec_bits(ns.free) == bitvec_bits(os.free).push(true)
    &&& bitvec_bits(ns.used) == bitvec_bits(os.used).push(false)
}

/// The binder that a reference `=name` in a pattern refers to: a pattern
/// variable of that name, else the innermost binder of that name in the
/// enclosing scopes `lex`.
pub open spec fn ref_target(
    locals: Seq<(Symbol, BinderId)>,
    lex: Seq<(Symbol, BinderId)>,
    strings: Seq<Seq<char>>,
    name: Seq<char>,
    first: int,
    guard: int,
) -> Option<BinderId> {
    match pattern_lookup(locals, strings, name, first, guard, false) {
        Some(b) => Some(b),
        None => if strings.contains(name) {
            crate::resolver::env_lookup(lex, symbol_index(strings, name))
        } else {
            None
        },
    }
}

/// What looking the name `name` up among the pattern variables `locals`
/// finds: the innermost variable of that name, when the name is interned in
/// `strings` and, with `check_scope`, the variable is at least `guard` binders
/// after `first`.
pub open spec fn pattern_lookup(
    locals: Seq<(Symbol, BinderId)>,
    strings: Seq<Seq<char>>,
    name: Seq<char>,
    first: int,
    guard: int,
    check_scope: bool,
) -> Option<BinderId> {
    if !strings.contains(name) {
        None
    } else {
        match crate::resolver::env_lookup(locals, symbol_index(strings, name)) {
            Some(b) => if !check_scope || b.0 - first >= guard {
                Some(b)
            } else {
                None
            },
            None => None,
        }
    }
}

/// `l` after forgetting the sub-patterns opened at the first `j` entries of
/// `opened`, innermost first.
pub open spec fn closed_all(l: Seq<(Symbol, BinderId)>, opened: Seq<(usize, usize)>, j: int) -> Seq<(Symbol, BinderId)>
    decreases j,
{
    if j <= 0 {
        l
    } else {
        closed_all(forgotten(l, opened[j - 1].0 as int, opened[j - 1].1 as int), opened, j - 1)
    }
}

/// The precondition shared by the pattern walkers.
pub open spec fn walk_pre(db: SemanticDb, env: BindingStack, res: PatternResolver, lo: int, hi: int) -> bool {
    &&& db.inv()
    &&& env.wf(db@.binders.len())
    &&& env_named(env.env.locals@, db@.binders)
    &&& res.wf(db@.binders.len())
    &&& env_named(res.env.locals@, db@.binders)
    &&& lo <= res.id.0 < hi
    &&& env_located(env.env.locals@, db@.binders, lo, hi)
    &&& binders_located_from(db@.binders, res.first_binder.0 as int, lo, hi)
}

/// The postcondition shared by the pattern walkers.
pub open spec fn walk_post(
    od: SemanticDb,
    nd: SemanticDb,
    oe: BindingStack,
    ne: BindingStack,
    or: PatternResolver,
    nr: PatternResolver,
    lo: int,
    hi: int,
) -> bool {
    &&& nd.inv()
    &&& ne.wf(nd@.binders.len())
    &&& env_named(ne.env.locals@, nd@.binders)
    &&& ne.same_shape(&oe)
    &&& nr.wf(nd@.binders.len())
    &&& env_named(nr.env.locals@, nd@.binders)
    &&& nr.id == or.id
    &&& nr.first_binder == or.first_binder
    &&& nr.scope_guard == or.scope_guard
    &&& env_extends(nr.env.locals@, or.env.locals@)
    &&& resolution_step(od@, nd@, lo, hi)
}

pub broadcast proof fn lemma_walk_trans(
    d0: SemanticDb,
    d1: SemanticDb,
    d2: SemanticDb,
    e0: BindingStack,
    e1: BindingStack,
    e2: BindingStack,
    r0: PatternResolver,
    r1: PatternResolver,
    r2: PatternResolver,
    lo: int,
    hi: int,
)
    requires
        #[trigger] walk_post(d0, d1, e0, e1, r0, r1, lo, hi),
        #[trigger] walk_post(d1, d2, e1, e2, r1, r2, lo, hi),
    ensures
        walk_post(d0, d2, e0, e2, r0, r2, lo, hi),
{
    lemma_extends_trans(r0.env.locals@, r1.env.locals@, r2.env.locals@);
    lemma_step_trans(d0@, d1@, d2@, lo, hi);
}

} // verus!
