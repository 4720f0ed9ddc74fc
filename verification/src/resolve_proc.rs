//! Resolution of processes: every variable occurrence is bound to the binder
//! it refers to, every binding construct gets its scope, and misplaced
//! connectives, unbound variables, duplicates and shadowing are reported.
//!
//! A process is resolved together with its PID; the PIDs of the processes
//! inside it follow in preorder, so each is the PID of its parent plus the
//! sizes of what precedes it.
use crate::ast::{
    AnnProc, Bind, Id, BinaryExpOp, Case, Collection, KeyValue, LetBinding, Name, NameDecl, Names, Proc,
    Source, SourcePos, SourceSpan, SyncSendCont, UnaryExpOp, Var,
};
use crate::bits::MAX_BITS;
use crate::db::{lookup_binding, DbView, SemanticDb};
use crate::index::{
    index_bound, lemma_binds_prefix, lemma_cases_prefix, lemma_lets_prefix, lemma_pairs_prefix,
    lemma_receipts_prefix, lemma_seq_prefix,
};
use crate::resolve_pattern::{resolve_name_pattern, resolve_proc_pattern};
use crate::resolver::{
    env_located, lemma_located_grow, lemma_new_binders_located,
    close_scope, intern_guarded, lemma_step_trans, lemma_walk_grow_trans, lemma_walk_post_grow,
    lemma_walk_proc_trans, resolution_step, walk_proc_grow,
    resolve_var, scope_locals, shadow_diags, shadow_records, shadowed_within, use_outcome,
    walk_proc_post, walk_proc_pre, BindingStack, Shadowed,
};
use crate::scope::ScopeInfo;
use crate::scoping::{
    decls_made_name, scoped_uses_name, decls_made, plain, decls_made_pairs, decls_made_seq, env_interned, lemma_name_env_stable,
    lemma_pairs_prefix_bounds, lemma_pairs_take, lemma_plain_compose, lemma_plain_refl,
    lemma_plain_step, lemma_seq_prefix_bounds, lemma_seq_take, lemma_use_plain, name_env,
    plain_fits, plain_pairs, plain_post, plain_seq, plain_walk, plain_walk_name, plain_walk_pairs,
    plain_walk_seq, scoped_uses, scoped_uses_pairs, scoped_uses_seq,
};
use crate::sizes::{bind_size, names_size, name_size, proc_size};
use crate::tree::{
    preorder, preorder_bind, preorder_binds, preorder_cases, preorder_lets, preorder_name,
    preorder_names, preorder_pairs, preorder_receipts, preorder_seq, preorder_source,
};
use crate::types::{Binder, BinderId, BinderKind, Diagnostic, DiagnosticKind, ErrorKind, Symbol, SymbolOccurrence, PID};
use crate::text::{decimal, u32_to_string};
use crate::scope_sites::{
    all_scoped, lemma_scoped_concat, lemma_scoped_empty, lemma_scoped_grow, scope_sites,
    scope_sites_bind_inputs, scope_sites_bind_name, scope_sites_binds_inputs,
    scope_sites_binds_names, scope_sites_cases, scope_sites_lets, scope_sites_name,
    scope_sites_pairs, scope_sites_receipts, scope_sites_seq, scope_sites_source_inputs,
    scope_sites_source_name,
};
use crate::var_uses::{
    all_settled, lemma_settled_concat, lemma_settled_empty, lemma_settled_grow, use_settled, uses,
    uses_bind_inputs, uses_bind_name, uses_binds_inputs, uses_binds_names, uses_cases, uses_lets,
    uses_name, uses_pairs, uses_receipts, uses_seq, uses_source_inputs, uses_source_name,
    all_pattern_vars_settled, lemma_pattern_settled_concat, lemma_pattern_settled_empty,
    lemma_pattern_settled_grow, patterns_vars, patterns_vars_bind_inputs, patterns_vars_bind_name,
    patterns_vars_binds_inputs, patterns_vars_binds_lhs, patterns_vars_binds_names,
    patterns_vars_cases, patterns_vars_lets_lhs, patterns_vars_lets_rhs, patterns_vars_name,
    patterns_vars_pairs, patterns_vars_receipts, patterns_vars_seq, patterns_vars_source_inputs,
    patterns_vars_source_name,
};

use vstd::prelude::*;
use vstd::string::StringExecFns;

verus! {

broadcast use lemma_located_grow, lemma_step_trans, lemma_walk_proc_trans, lemma_walk_grow_trans, lemma_walk_post_grow, crate::resolver::lemma_named_grow,
    lemma_settled_grow, lemma_settled_concat, lemma_settled_empty, lemma_pattern_settled_grow,
    lemma_pattern_settled_concat, lemma_pattern_settled_empty, lemma_scoped_grow, lemma_scoped_concat,
    lemma_scoped_empty;

/// Bringing into a located environment binders `start..end` that a
/// resolution step of `lo..hi` appended keeps the environment located.
proof fn lemma_scope_pushed(
    d0: crate::db::DbView,
    d1: crate::db::DbView,
    s0: Seq<(crate::types::Symbol, BinderId)>,
    s1: Seq<(crate::types::Symbol, BinderId)>,
    start: int,
    end: int,
    lo: int,
    hi: int,
)
    requires
        resolution_step(d0, d1, lo, hi),
        d0.binders.len() <= start,
        end <= d1.binders.len(),
        env_located(s0, d1.binders, lo, hi),
        s0.len() <= s1.len(),
        s1.take(s0.len() as int) == s0,
        forall|i: int| s0.len() <= i < s1.len() ==> start <= (#[trigger] s1[i]).1.0 < end,
    ensures
        env_located(s1, d1.binders, lo, hi),
{
    lemma_new_binders_located(d0, d1, lo, hi, start, end);
    crate::resolver::lemma_located_push(s0, s1, d1.binders, start, end, lo, hi);
}

/// An empty span at the origin.
fn no_span() -> (r: SourceSpan)
    ensures
        r == (SourceSpan { start: SourcePos { line: 0, col: 0 }, end: SourcePos { line: 0, col: 0 } }),
{
    SourceSpan { start: SourcePos::origin(), end: SourcePos::origin() }
}

/// Resolves the use `id` of a variable at process `site`, reporting it as
/// unbound when no binder of its name is in scope.
fn resolve_use(
    db: &mut SemanticDb,
    stack: &mut BindingStack,
    id: &Id,
    expects_name: bool,
    site: PID,
    Ghost(lo): Ghost<int>,
    Ghost(hi): Ghost<int>,
)
    requires
        walk_proc_pre(*old(db), *old(stack), lo, hi),
        lo <= site.0 < hi,
    ensures
        walk_proc_post(*old(db), *final(db), *old(stack), *final(stack), lo, hi),
        use_settled(final(db)@, *id),
        use_outcome(
            old(db)@,
            final(db)@,
            old(stack).env.locals@,
            old(stack).scopes@,
            final(stack).scopes@,
            *id,
            expects_name,
            site,
        ),
        env_interned(old(stack).env.locals@, old(db)@.strings.len()) ==> plain_post(
            old(db)@,
            final(db)@,
            seq![(*id, name_env(old(db)@.strings, old(stack).env.locals@))],
            0,
        ),
{
    let resolved = resolve_var(id, expects_name, site, db, stack, Ghost(lo), Ghost(hi));
    proof {
        db.lemma_inv_wf();
    }
    match resolved {
        Some((occ, _)) => {
            proof {
                crate::resolver::lemma_unique_symbol(db@.strings, occ.symbol, id.name@);
                assert(db@.strings.contains(id.name@)) by {
                    assert(db@.strings[occ.symbol.0 as int] == id.name@);
                }
                let i = choose|i: int| 0 <= i < db@.strings.len() && db@.strings[i] == id.name@;
                assert(Symbol(i as u32) == occ.symbol) by {
                    assert(Symbol(i as u32).0 == i);
                }
                assert(occ == SymbolOccurrence { symbol: occ.symbol, position: id.pos });
                assert(lookup_binding(db@.bound, SymbolOccurrence { symbol: occ.symbol, position: id.pos }) is Some);
            }
        },
        None => {
            let ghost d0 = db@;
            proof {
                if db@.strings.contains(id.name@) {
                    let i = choose|i: int| 0 <= i < db@.strings.len() && db@.strings[i] == id.name@;
                    assert(crate::resolution::symbol_index(db@.strings, id.name@).0 == i);
                }
            }
            db.error(site, ErrorKind::UnboundVariable, Some(id.pos));
            proof {
                assert(resolution_step(d0, db@, lo, hi));
                assert(db@.diags[d0.diags.len() as int].kind == DiagnosticKind::Error(ErrorKind::UnboundVariable));
            }
        },
    }
    proof {
        db.lemma_inv_wf();
        if env_interned(old(stack).env.locals@, old(db)@.strings.len()) {
            lemma_use_plain(
                old(db)@,
                db@,
                old(stack).env.locals@,
                old(stack).scopes@,
                stack.scopes@,
                *id,
                expects_name,
                site,
            );
        }
    }
}

/// A pattern-only form (a wildcard, a type, a variable reference, or a
/// negation, conjunction or disjunction) standing where a process is expected.
pub open spec fn connective_outside_pattern(p: Proc) -> bool {
    match p {
        Proc::SimpleType(_) | Proc::VarRef { .. } | Proc::ProcVar(Var::Wildcard) => true,
        Proc::UnaryExp { op: UnaryExpOp::Negation, .. } => true,
        Proc::BinaryExp { op: BinaryExpOp::Conjunction, .. } => true,
        Proc::BinaryExp { op: BinaryExpOp::Disjunction, .. } => true,
        _ => false,
    }
}

/// Resolves the process `this`, whose PID is `pid`.
#[verifier::rlimit(40)]
pub fn resolve_unguarded(
    db: &mut SemanticDb,
    stack: &mut BindingStack,
    this: &AnnProc,
    pid: usize,
    Ghost(lo): Ghost<int>,
    Ghost(hi): Ghost<int>,
)
    requires
        walk_proc_pre(*old(db), *old(stack), lo, hi),
        lo <= pid,
        pid + preorder(*this).len() <= hi,
    ensures
        walk_proc_post(*old(db), *final(db), *old(stack), *final(stack), lo, hi),
        all_settled(final(db)@, uses(*this)),
        all_pattern_vars_settled(final(db)@, patterns_vars(*this)),
        all_scoped(final(db)@, scope_sites(*this, pid as int)),
        this.proc matches Proc::ProcVar(Var::Id(id)) ==> use_outcome(
            old(db)@,
            final(db)@,
            old(stack).env.locals@,
            old(stack).scopes@,
            final(stack).scopes@,
            id,
            false,
            PID(pid as u32),
        ),
        connective_outside_pattern(this.proc) ==> final(db)@ == (DbView {
            diags: old(db)@.diags.push(
                Diagnostic {
                    pid: PID(pid as u32),
                    kind: DiagnosticKind::Error(ErrorKind::ConnectiveOutsidePattern),
                    exact_position: None,
                },
            ),
            ..old(db)@
        }) && *final(stack) == *old(stack),
        this.proc matches Proc::New { decls, .. } ==> (decls_fit(old(db)@, decls@.len())
            ==> new_shadowing_reported(
            old(db)@,
            final(db)@,
            old(stack).env.locals@,
            decls@.len(),
            PID(pid as u32),
        )),
        plain_walk(old(db)@, final(db)@, old(stack).env.locals@, *this),
        inert(this.proc) ==> final(db)@ == old(db)@ && *final(stack) == *old(stack),
        this.proc matches Proc::New { decls, proc } ==> (decls_fit(old(db)@, decls@.len()) && inert(proc.proc)
            ==> new_shadowing_exact(
            old(db)@,
            final(db)@,
            old(stack).env.locals@,
            decls@.len(),
            PID(pid as u32),
        )),
    decreases *this, 0nat,
{
    proof {
        db.lemma_inv_wf();
        lemma_plain_refl(db@);
    }
    let ghost env0 = name_env(old(db)@.strings, old(stack).env.locals@);
    let ghost next0 = old(db)@.binders.len() as int;
    let ghost locals0 = old(stack).env.locals@;
    let ghost total = scoped_uses(*this, env0, next0);
    let ghost whole = plain(*this) && plain_fits(old(db)@, total, decls_made(*this), locals0);
    let site = PID(pid as u32);
    let first = pid + 1;
    match &this.proc {
        Proc::SimpleType(_) | Proc::VarRef { .. } | Proc::ProcVar(Var::Wildcard) => {
            db.error(site, ErrorKind::ConnectiveOutsidePattern, None);
        },
        Proc::UnaryExp { op: UnaryExpOp::Negation, .. } => {
            db.error(site, ErrorKind::ConnectiveOutsidePattern, None);
        },
        Proc::BinaryExp { op: BinaryExpOp::Conjunction, .. }
        | Proc::BinaryExp { op: BinaryExpOp::Disjunction, .. } => {
            db.error(site, ErrorKind::ConnectiveOutsidePattern, None);
        },
        Proc::ProcVar(Var::Id(id)) => {
            resolve_use(db, stack, id, false, site, Ghost(lo), Ghost(hi));
        },
        Proc::BinaryExp { op: BinaryExpOp::Matches, left, right } => {
            let l = proc_size(left);
            let _ = proc_size(right);
            resolve_unguarded(db, stack, left, first, Ghost(lo), Ghost(hi));
            let pat = PID((first + l) as u32);
            let scope = resolve_proc_pattern(db, stack, pat, right, right.span, Ghost(lo), Ghost(hi));
            proof {
                db.lemma_inv_wf();
            }
            let ghost before = db@;
            let _ = db.add_scope(pat, scope);
            proof {
                assert(resolution_step(before, db@, lo, hi));
            }
        },
        Proc::Par { left, right } | Proc::BinaryExp { left, right, .. } => {
            let l = proc_size(left);
            let ghost a = scoped_uses(**left, env0, next0);
            let ghost ka = decls_made(**left);
            let ghost b = scoped_uses(**right, env0, next0 + ka);
            let ghost kb = decls_made(**right);
            proof {
                if whole {
                    lemma_plain_step(old(db)@, old(db)@, locals0, Seq::empty(), 0, a, ka, total, decls_made(*this), lo, hi);
                }
            }
            resolve_unguarded(db, stack, left, first, Ghost(lo), Ghost(hi));
            let ghost d1 = db@;
            proof {
                db.lemma_inv_wf();
                if whole {
                    assert(Seq::<(Id, crate::scoping::NameEnv)>::empty() + a =~= a);
                    lemma_plain_step(old(db)@, d1, locals0, a, ka, b, kb, total, decls_made(*this), lo, hi);
                }
            }
            resolve_unguarded(db, stack, right, first + l, Ghost(lo), Ghost(hi));
            proof {
                db.lemma_inv_wf();
                if whole {
                    lemma_plain_compose(old(db)@, d1, db@, a, b, ka, kb, lo, hi);
                }
            }
        },
        Proc::UnaryExp { arg, .. } => {
            resolve_unguarded(db, stack, arg, first, Ghost(lo), Ghost(hi));
        },
        Proc::Bundle { proc, .. } => {
            resolve_unguarded(db, stack, proc, first, Ghost(lo), Ghost(hi));
        },
        Proc::IfThenElse { condition, if_true, if_false } => {
            let c = proc_size(condition);
            let t = proc_size(if_true);
            let ghost a = scoped_uses(**condition, env0, next0);
            let ghost ka = decls_made(**condition);
            let ghost b = scoped_uses(**if_true, env0, next0 + ka);
            let ghost kb = decls_made(**if_true);
            proof {
                if whole {
                    lemma_plain_step(old(db)@, old(db)@, locals0, Seq::empty(), 0, a, ka, total, decls_made(*this), lo, hi);
                }
            }
            resolve_unguarded(db, stack, condition, first, Ghost(lo), Ghost(hi));
            let ghost d1 = db@;
            proof {
                db.lemma_inv_wf();
                if whole {
                    assert(Seq::<(Id, crate::scoping::NameEnv)>::empty() + a =~= a);
                    lemma_plain_step(old(db)@, d1, locals0, a, ka, b, kb, total, decls_made(*this), lo, hi);
                }
            }
            resolve_unguarded(db, stack, if_true, first + c, Ghost(lo), Ghost(hi));
            let ghost d2 = db@;
            proof {
                db.lemma_inv_wf();
                if whole {
                    lemma_plain_compose(old(db)@, d1, db@, a, b, ka, kb, lo, hi);
                }
            }
            match if_false {
                Some(branch) => {
                    let ghost cc = scoped_uses(**branch, env0, next0 + ka + kb);
                    let ghost kc = decls_made(**branch);
                    proof {
                        if whole {
                            lemma_plain_step(old(db)@, d2, locals0, a + b, ka + kb, cc, kc, total, decls_made(*this), lo, hi);
                        }
                    }
                    resolve_unguarded(db, stack, branch, first + c + t, Ghost(lo), Ghost(hi));
                    proof {
                        db.lemma_inv_wf();
                        if whole {
                            lemma_plain_compose(old(db)@, d2, db@, a + b, cc, ka + kb, kc, lo, hi);
                        }
                    }
                },
                None => {
                    proof {
                        assert(a + b + Seq::<(Id, crate::scoping::NameEnv)>::empty() =~= a + b);
                    }
                },
            }
        },
        Proc::Method { receiver, args, .. } => {
            let r = proc_size(receiver);
            let ghost a = scoped_uses(**receiver, env0, next0);
            let ghost ka = decls_made(**receiver);
            let ghost b = scoped_uses_seq(args@, env0, next0 + ka);
            let ghost kb = decls_made_seq(args@);
            proof {
                if whole {
                    lemma_plain_step(old(db)@, old(db)@, locals0, Seq::empty(), 0, a, ka, total, decls_made(*this), lo, hi);
                }
            }
            resolve_unguarded(db, stack, receiver, first, Ghost(lo), Ghost(hi));
            let ghost d1 = db@;
            proof {
                db.lemma_inv_wf();
                if whole {
                    assert(Seq::<(Id, crate::scoping::NameEnv)>::empty() + a =~= a);
                    lemma_plain_step(old(db)@, d1, locals0, a, ka, b, kb, total, decls_made(*this), lo, hi);
                }
            }
            resolve_seq(db, stack, args, first + r, Ghost(lo), Ghost(hi));
            proof {
                db.lemma_inv_wf();
                if whole {
                    lemma_plain_compose(old(db)@, d1, db@, a, b, ka, kb, lo, hi);
                }
            }
        },
        Proc::Collection(collection) => {
            match collection.remainder() {
                Some(var) => {
                    db.error(site, ErrorKind::ConnectiveOutsidePattern, var.get_position());
                },
                None => match collection {
                    Collection::List { elements, .. } => resolve_seq(db, stack, elements, first, Ghost(lo), Ghost(hi)),
                    Collection::SetOf { elements, .. } => resolve_seq(db, stack, elements, first, Ghost(lo), Ghost(hi)),
                    Collection::Tuple(elements) => resolve_seq(db, stack, elements, first, Ghost(lo), Ghost(hi)),
                    Collection::MapOf { elements, .. } => resolve_pairs(db, stack, elements, first, Ghost(lo), Ghost(hi)),
                },
            }
        },
        Proc::Eval { name } => {
            resolve_name(db, stack, name, site, first, Ghost(lo), Ghost(hi));
        },
        Proc::Match { expression, cases } => {
            let e = proc_size(expression);
            resolve_unguarded(db, stack, expression, first, Ghost(lo), Ghost(hi));
            resolve_cases(db, stack, cases, first + e, Ghost(lo), Ghost(hi));
        },
        Proc::Send { channel, inputs, .. } => {
            let c = name_size(channel);
            let ghost a = scoped_uses_name(*channel, env0, next0);
            let ghost ka = decls_made_name(*channel);
            let ghost b = scoped_uses_seq(inputs@, env0, next0 + ka);
            let ghost kb = decls_made_seq(inputs@);
            proof {
                if whole {
                    lemma_plain_step(old(db)@, old(db)@, locals0, Seq::empty(), 0, a, ka, total, decls_made(*this), lo, hi);
                }
            }
            resolve_name(db, stack, channel, site, first, Ghost(lo), Ghost(hi));
            let ghost d1 = db@;
            proof {
                db.lemma_inv_wf();
                if whole {
                    assert(Seq::<(Id, crate::scoping::NameEnv)>::empty() + a =~= a);
                    lemma_plain_step(old(db)@, d1, locals0, a, ka, b, kb, total, decls_made(*this), lo, hi);
                }
            }
            resolve_seq(db, stack, inputs, first + c, Ghost(lo), Ghost(hi));
            proof {
                db.lemma_inv_wf();
                if whole {
                    lemma_plain_compose(old(db)@, d1, db@, a, b, ka, kb, lo, hi);
                }
            }
        },
        Proc::SendSync { channel, inputs, cont } => {
            let c = name_size(channel);
            let i = crate::sizes::seq_size(inputs);
            let ghost a = scoped_uses_name(*channel, env0, next0);
            let ghost ka = decls_made_name(*channel);
            let ghost b = scoped_uses_seq(inputs@, env0, next0 + ka);
            let ghost kb = decls_made_seq(inputs@);
            proof {
                if whole {
                    lemma_plain_step(old(db)@, old(db)@, locals0, Seq::empty(), 0, a, ka, total, decls_made(*this), lo, hi);
                }
            }
            resolve_name(db, stack, channel, site, first, Ghost(lo), Ghost(hi));
            let ghost d1 = db@;
            proof {
                db.lemma_inv_wf();
                if whole {
                    assert(Seq::<(Id, crate::scoping::NameEnv)>::empty() + a =~= a);
                    lemma_plain_step(old(db)@, d1, locals0, a, ka, b, kb, total, decls_made(*this), lo, hi);
                }
            }
            resolve_seq(db, stack, inputs, first + c, Ghost(lo), Ghost(hi));
            let ghost d2 = db@;
            proof {
                db.lemma_inv_wf();
                if whole {
                    lemma_plain_compose(old(db)@, d1, db@, a, b, ka, kb, lo, hi);
                }
            }
            match cont {
                SyncSendCont::NonEmpty(k) => {
                    let ghost cc = scoped_uses(**k, env0, next0 + ka + kb);
                    let ghost kc = decls_made(**k);
                    proof {
                        if whole {
                            lemma_plain_step(old(db)@, d2, locals0, a + b, ka + kb, cc, kc, total, decls_made(*this), lo, hi);
                        }
                    }
                    resolve_unguarded(db, stack, k, first + c + i, Ghost(lo), Ghost(hi));
                    proof {
                        db.lemma_inv_wf();
                        if whole {
                            lemma_plain_compose(old(db)@, d2, db@, a + b, cc, ka + kb, kc, lo, hi);
                        }
                    }
                },
                SyncSendCont::Empty => {
                    proof {
                        assert(a + b + Seq::<(Id, crate::scoping::NameEnv)>::empty() =~= a + b);
                    }
                },
            }
        },
        Proc::New { decls, proc } => {
            let ghost d0 = db@;
            let locals = bind_decls(db, decls, site, this.span, Ghost(lo), Ghost(hi));
            let mut shadowed: Vec<Shadowed> = Vec::new();
            let ghost e0 = stack.env.locals@;
            let ghost d_push = db@;
            stack.push(locals, db, &mut shadowed);
            proof {
                lemma_scope_pushed(d0, db@, e0, stack.env.locals@, locals.start() as int, locals.end() as int, lo, hi);
            }
            let ghost opened = *stack;
            proof {
                if whole {
                    lemma_name_env_stable(old(db)@.strings, d_push.strings, locals0);
                    crate::scoping::lemma_new_env(d_push.strings, d_push.binders, locals0, decls@, next0);
                    assert(locals.start() == next0 && locals.num() == decls@.len());
                    assert(name_env(d_push.strings, stack.env.locals@) == env0 + crate::scoping::decl_env(decls@, next0));
                    assert(d_push.binders.len() == next0 + decls@.len());
                }
            }
            resolve_unguarded(db, stack, proc, first, Ghost(lo), Ghost(hi));
            let ghost d_body = db@;
            close_scope(db, stack, site, &shadowed, true, Ghost(lo), Ghost(hi));
            proof {
                db.lemma_inv_wf();
                if whole {
                    let us = scoped_uses(**proc, env0 + crate::scoping::decl_env(decls@, next0), next0 + decls@.len());
                    assert(us == total);
                    let e = Seq::<(Id, crate::scoping::NameEnv)>::empty();
                    assert(plain_post(old(db)@, d_push, e, decls@.len()));
                    assert(plain_post(d_push, d_body, us, decls_made(**proc)));
                    lemma_plain_compose(old(db)@, d_push, d_body, e, us, decls@.len(), decls_made(**proc), lo, hi);
                    assert(plain_post(d_body, db@, e, 0));
                    lemma_plain_compose(old(db)@, d_body, db@, e + us, e, decls@.len() + decls_made(**proc), 0, lo, hi);
                    assert(e + us + e =~= us);
                }
            }
            proof {
                assert(stack.env.locals@ =~= old(stack).env.locals@);
                assert(stack.marks@ =~= old(stack).marks@);
                if decls_fit(old(db)@, decls@.len()) {
                    let ls = scope_locals(d_push.binders, locals.start() as int, locals.num() as int);
                    let lf = scope_locals(db@.binders, old(db)@.binders.len() as int, decls@.len() as int);
                    assert(ls =~= lf) by {
                        assert forall|i: int| 0 <= i < ls.len() implies ls[i] == lf[i] by {
                            assert(db@.binders[locals.start() + i] == d_push.binders[locals.start() + i]);
                        }
                    }
                    assert(shadowed@ =~= shadow_records(e0, lf));
                    assert(db@.diags == d_body.diags + shadow_diags(db@.binders, site, shadow_records(e0, lf), true));
                    if inert(proc.proc) {
                        assert(d_body == d_push);
                        assert(d_push.diags == old(db)@.diags);
                    }
                }
            }
        },
        Proc::ForComprehension { receipts, proc } => {
            let rs = crate::sizes::receipts_size(receipts);
            let mut shadowed: Vec<Shadowed> = Vec::new();
            stack.push_empty(db, this.span);
            resolve_receipts(db, stack, receipts, site, this.span, first, &mut shadowed, Ghost(lo), Ghost(hi));
            resolve_unguarded(db, stack, proc, first + rs, Ghost(lo), Ghost(hi));
            close_scope(db, stack, site, &shadowed, false, Ghost(lo), Ghost(hi));
            proof {
                assert(stack.env.locals@ =~= old(stack).env.locals@);
                assert(stack.marks@ =~= old(stack).marks@);
            }
        },
        Proc::Contract { name, formals, body } => {
            let n = name_size(name);
            let f = names_size(formals);
            resolve_name(db, stack, name, site, first, Ghost(lo), Ghost(hi));
            let ghost d0 = db@;
            let vars = resolve_name_pattern(db, stack, site, this.span, formals, 0, Ghost(lo), Ghost(hi));
            let mut shadowed: Vec<Shadowed> = Vec::new();
            let ghost e0 = stack.env.locals@;
            stack.push_free(vars, db, &mut shadowed);
            proof {
                lemma_scope_pushed(d0, db@, e0, stack.env.locals@, vars.start() as int, vars.end() as int, lo, hi);
            }
            resolve_unguarded(db, stack, body, first + n + f, Ghost(lo), Ghost(hi));
            close_scope(db, stack, site, &shadowed, false, Ghost(lo), Ghost(hi));
            proof {
                assert(stack.env.locals@ =~= old(stack).env.locals@);
                assert(stack.marks@ =~= old(stack).marks@);
            }
        },
        Proc::Let { bindings, body, concurrent } => {
            let b = proc_size(body);
            let mut shadowed: Vec<Shadowed> = Vec::new();
            stack.push_empty(db, this.span);
            if *concurrent {
                resolve_lets_rhs(db, stack, bindings, first + b, Ghost(lo), Ghost(hi));
                let ghost d0 = db@;
                let lhs_scope = resolve_lets_lhs(db, stack, bindings, 0, bindings.len(), site, this.span, 0, Ghost(lo), Ghost(hi));
                proof {
                    assert(bindings@.subrange(0, bindings@.len() as int) =~= bindings@);
                }
                let ghost e0 = stack.env.locals@;
                stack.absorb_free(lhs_scope, db, &mut shadowed);
                proof {
                    lemma_scope_pushed(d0, db@, e0, stack.env.locals@, lhs_scope.start() as int, lhs_scope.end() as int, lo, hi);
                }
            } else {
                resolve_lets_sequential(db, stack, bindings, site, this.span, first + b, &mut shadowed, Ghost(lo), Ghost(hi));
            }
            resolve_unguarded(db, stack, body, first, Ghost(lo), Ghost(hi));
            close_scope(db, stack, site, &shadowed, false, Ghost(lo), Ghost(hi));
            proof {
                assert(stack.env.locals@ =~= old(stack).env.locals@);
                assert(stack.marks@ =~= old(stack).marks@);
            }
        },
        _ => {},
    }
}

/// Resolves the processes `ps`; the first has PID `start`.
fn resolve_seq(
    db: &mut SemanticDb,
    stack: &mut BindingStack,
    ps: &Vec<AnnProc>,
    start: usize,
    Ghost(lo): Ghost<int>,
    Ghost(hi): Ghost<int>,
)
    requires
        walk_proc_pre(*old(db), *old(stack), lo, hi),
        lo <= start,
        start + preorder_seq(ps@).len() <= hi,
    ensures
        walk_proc_post(*old(db), *final(db), *old(stack), *final(stack), lo, hi),
        all_settled(final(db)@, uses_seq(ps@)),
        all_pattern_vars_settled(final(db)@, patterns_vars_seq(ps@)),
        all_scoped(final(db)@, scope_sites_seq(ps@, start as int)),
        plain_walk_seq(old(db)@, final(db)@, old(stack).env.locals@, ps@),
    decreases *ps, 0nat,
{
    proof {
        assert(ps@.take(0) =~= Seq::<AnnProc>::empty());
        db.lemma_inv_wf();
        lemma_plain_refl(db@);
    }
    let ghost env0 = name_env(old(db)@.strings, old(stack).env.locals@);
    let ghost next0 = old(db)@.binders.len() as int;
    let ghost whole = plain_seq(ps@) && plain_fits(
        old(db)@,
        scoped_uses_seq(ps@, env0, next0),
        decls_made_seq(ps@),
        old(stack).env.locals@,
    );
    let mut next = start;
    let mut i: usize = 0;
    while i < ps.len()
        invariant
            i <= ps@.len(),
            walk_proc_pre(*db, *stack, lo, hi),
            walk_proc_post(*old(db), *db, *old(stack), *stack, lo, hi),
            lo <= start,
            start + preorder_seq(ps@).len() <= hi,
            next == start + preorder_seq(ps@.take(i as int)).len(),
            hi <= index_bound(),
            all_settled(db@, uses_seq(ps@.take(i as int))),
            all_pattern_vars_settled(db@, patterns_vars_seq(ps@.take(i as int))),
            all_scoped(db@, scope_sites_seq(ps@.take(i as int), start as int)),
            env0 == name_env(old(db)@.strings, old(stack).env.locals@),
            next0 == old(db)@.binders.len() as int,
            whole == (plain_seq(ps@) && plain_fits(
                old(db)@,
                scoped_uses_seq(ps@, env0, next0),
                decls_made_seq(ps@),
                old(stack).env.locals@,
            )),
            whole ==> plain_post(
                old(db)@,
                db@,
                scoped_uses_seq(ps@.take(i as int), env0, next0),
                decls_made_seq(ps@.take(i as int)),
            ),
        decreases ps@.len() - i,
    {
        proof {
            assert(ps@.take(i + 1).drop_last() =~= ps@.take(i as int));
            assert(ps@.take(i + 1).last() == ps@[i as int]);
            lemma_seq_prefix(ps@, i + 1);
        }
        let n = proc_size(&ps[i]);
        let ghost d1 = db@;
        resolve_unguarded(db, stack, &ps[i], next, Ghost(lo), Ghost(hi));
        proof {
            db.lemma_inv_wf();
            if whole {
                lemma_seq_take(ps@, env0, next0, i as int);
                lemma_seq_prefix_bounds(ps@, env0, next0, i + 1);
                let done = scoped_uses_seq(ps@.take(i as int), env0, next0);
                let kd = decls_made_seq(ps@.take(i as int));
                let part = scoped_uses(ps@[i as int], env0, next0 + kd);
                lemma_plain_step(
                    old(db)@,
                    d1,
                    old(stack).env.locals@,
                    done,
                    kd,
                    part,
                    decls_made(ps@[i as int]),
                    scoped_uses_seq(ps@, env0, next0),
                    decls_made_seq(ps@),
                    lo,
                    hi,
                );
                lemma_plain_compose(old(db)@, d1, db@, done, part, kd, decls_made(ps@[i as int]), lo, hi);
            }
        }
        next = next + n;
        i = i + 1;
    }
    proof {
        assert(ps@.take(i as int) =~= ps@);
    }
}

/// Resolves the key-value pairs `ps`; the first key has PID `start`.
fn resolve_pairs(
    db: &mut SemanticDb,
    stack: &mut BindingStack,
    ps: &Vec<KeyValue>,
    start: usize,
    Ghost(lo): Ghost<int>,
    Ghost(hi): Ghost<int>,
)
    requires
        walk_proc_pre(*old(db), *old(stack), lo, hi),
        lo <= start,
        start + preorder_pairs(ps@).len() <= hi,
    ensures
        walk_proc_post(*old(db), *final(db), *old(stack), *final(stack), lo, hi),
        all_settled(final(db)@, uses_pairs(ps@)),
        all_pattern_vars_settled(final(db)@, patterns_vars_pairs(ps@)),
        all_scoped(final(db)@, scope_sites_pairs(ps@, start as int)),
        plain_walk_pairs(old(db)@, final(db)@, old(stack).env.locals@, ps@),
    decreases *ps, 0nat,
{
    proof {
        assert(ps@.take(0) =~= Seq::<KeyValue>::empty());
        db.lemma_inv_wf();
        lemma_plain_refl(db@);
    }
    let ghost env0 = name_env(old(db)@.strings, old(stack).env.locals@);
    let ghost next0 = old(db)@.binders.len() as int;
    let ghost whole = plain_pairs(ps@) && plain_fits(
        old(db)@,
        scoped_uses_pairs(ps@, env0, next0),
        decls_made_pairs(ps@),
        old(stack).env.locals@,
    );
    let mut next = start;
    let mut i: usize = 0;
    while i < ps.len()
        invariant
            i <= ps@.len(),
            walk_proc_pre(*db, *stack, lo, hi),
            walk_proc_post(*old(db), *db, *old(stack), *stack, lo, hi),
            lo <= start,
            start + preorder_pairs(ps@).len() <= hi,
            next == start + preorder_pairs(ps@.take(i as int)).len(),
            hi <= index_bound(),
            all_settled(db@, uses_pairs(ps@.take(i as int))),
            all_pattern_vars_settled(db@, patterns_vars_pairs(ps@.take(i as int))),
            all_scoped(db@, scope_sites_pairs(ps@.take(i as int), start as int)),
            env0 == name_env(old(db)@.strings, old(stack).env.locals@),
            next0 == old(db)@.binders.len() as int,
            whole == (plain_pairs(ps@) && plain_fits(
                old(db)@,
                scoped_uses_pairs(ps@, env0, next0),
                decls_made_pairs(ps@),
                old(stack).env.locals@,
            )),
            whole ==> plain_post(
                old(db)@,
                db@,
                scoped_uses_pairs(ps@.take(i as int), env0, next0),
                decls_made_pairs(ps@.take(i as int)),
            ),
        decreases ps@.len() - i,
    {
        proof {
            assert(ps@.take(i + 1).drop_last() =~= ps@.take(i as int));
            assert(ps@.take(i + 1).last() == ps@[i as int]);
            lemma_pairs_prefix(ps@, i + 1);
        }
        let k = proc_size(&ps[i].key);
        let v = proc_size(&ps[i].value);
        let ghost d1 = db@;
        resolve_unguarded(db, stack, &ps[i].key, next, Ghost(lo), Ghost(hi));
        let ghost d2 = db@;
        proof {
            db.lemma_inv_wf();
            if whole {
                lemma_pairs_take(ps@, env0, next0, i as int);
                lemma_pairs_prefix_bounds(ps@, env0, next0, i + 1);
                let done = scoped_uses_pairs(ps@.take(i as int), env0, next0);
                let kd = decls_made_pairs(ps@.take(i as int));
                let part = scoped_uses(ps@[i as int].key, env0, next0 + kd);
                lemma_plain_step(
                    old(db)@,
                    d1,
                    old(stack).env.locals@,
                    done,
                    kd,
                    part,
                    decls_made(ps@[i as int].key),
                    scoped_uses_pairs(ps@, env0, next0),
                    decls_made_pairs(ps@),
                    lo,
                    hi,
                );
                lemma_plain_compose(old(db)@, d1, db@, done, part, kd, decls_made(ps@[i as int].key), lo, hi);
            }
        }
        resolve_unguarded(db, stack, &ps[i].value, next + k, Ghost(lo), Ghost(hi));
        proof {
            db.lemma_inv_wf();
            if whole {
                let done = scoped_uses_pairs(ps@.take(i as int), env0, next0) + scoped_uses(
                    ps@[i as int].key,
                    env0,
                    next0 + decls_made_pairs(ps@.take(i as int)),
                );
                let kd = decls_made_pairs(ps@.take(i as int)) + decls_made(ps@[i as int].key);
                let part = scoped_uses(ps@[i as int].value, env0, next0 + kd);
                lemma_plain_step(
                    old(db)@,
                    d2,
                    old(stack).env.locals@,
                    done,
                    kd,
                    part,
                    decls_made(ps@[i as int].value),
                    scoped_uses_pairs(ps@, env0, next0),
                    decls_made_pairs(ps@),
                    lo,
                    hi,
                );
                lemma_plain_compose(old(db)@, d2, db@, done, part, kd, decls_made(ps@[i as int].value), lo, hi);
            }
        }
        next = next + k + v;
        i = i + 1;
    }
    proof {
        assert(ps@.take(i as int) =~= ps@);
    }
}

/// Resolves the name `n` used at process `site`; a quoted process in it has
/// PID `start`.
fn resolve_name(
    db: &mut SemanticDb,
    stack: &mut BindingStack,
    n: &Name,
    site: PID,
    start: usize,
    Ghost(lo): Ghost<int>,
    Ghost(hi): Ghost<int>,
)
    requires
        walk_proc_pre(*old(db), *old(stack), lo, hi),
        lo <= site.0 < hi,
        lo <= start,
        start + preorder_name(*n).len() <= hi,
    ensures
        walk_proc_post(*old(db), *final(db), *old(stack), *final(stack), lo, hi),
        all_settled(final(db)@, uses_name(*n)),
        all_pattern_vars_settled(final(db)@, patterns_vars_name(*n)),
        all_scoped(final(db)@, scope_sites_name(*n, start as int)),
        plain_walk_name(old(db)@, final(db)@, old(stack).env.locals@, *n),
    decreases *n, 0nat,
{
    match n {
        Name::NameVar(Var::Wildcard) => {
            db.error(site, ErrorKind::ConnectiveOutsidePattern, None);
            proof {
                let us = crate::scoping::scoped_uses_name(*n, name_env(old(db)@.strings, old(stack).env.locals@), old(db)@.binders.len() as int);
                assert(us =~= Seq::<(Id, crate::scoping::NameEnv)>::empty());
                assert(plain_post(old(db)@, db@, us, 0));
            }
        },
        Name::NameVar(Var::Id(id)) => {
            resolve_use(db, stack, id, true, site, Ghost(lo), Ghost(hi));
        },
        Name::Quote(p) => {
            resolve_unguarded(db, stack, p, start, Ghost(lo), Ghost(hi));
        },
    }
}

/// Resolves the cases of a `match`; the first case pattern has PID `start`.
/// Each case pattern gets the scope of its free variables, which the case
/// body sees.
fn resolve_cases(
    db: &mut SemanticDb,
    stack: &mut BindingStack,
    cs: &Vec<Case>,
    start: usize,
    Ghost(lo): Ghost<int>,
    Ghost(hi): Ghost<int>,
)
    requires
        walk_proc_pre(*old(db), *old(stack), lo, hi),
        lo <= start,
        start + preorder_cases(cs@).len() <= hi,
    ensures
        walk_proc_post(*old(db), *final(db), *old(stack), *final(stack), lo, hi),
        all_settled(final(db)@, uses_cases(cs@)),
        all_pattern_vars_settled(final(db)@, patterns_vars_cases(cs@)),
        all_scoped(final(db)@, scope_sites_cases(cs@, start as int)),
    decreases *cs, 0nat,
{
    proof {
        assert(cs@.take(0) =~= Seq::<Case>::empty());
        db.lemma_inv_wf();
    }
    let mut next = start;
    let mut i: usize = 0;
    while i < cs.len()
        invariant
            i <= cs@.len(),
            walk_proc_pre(*db, *stack, lo, hi),
            walk_proc_post(*old(db), *db, *old(stack), *stack, lo, hi),
            lo <= start,
            start + preorder_cases(cs@).len() <= hi,
            next == start + preorder_cases(cs@.take(i as int)).len(),
            hi <= index_bound(),
            all_settled(db@, uses_cases(cs@.take(i as int))),
            all_pattern_vars_settled(db@, patterns_vars_cases(cs@.take(i as int))),
            all_scoped(db@, scope_sites_cases(cs@.take(i as int), start as int)),
        decreases cs@.len() - i,
    {
        proof {
            assert(cs@.take(i + 1).drop_last() =~= cs@.take(i as int));
            assert(cs@.take(i + 1).last() == cs@[i as int]);
            lemma_cases_prefix(cs@, i + 1);
        }
        let case = &cs[i];
        let p = proc_size(&case.pattern);
        let b = proc_size(&case.proc);
        let pat = PID(next as u32);
        let span = SourceSpan { start: case.pattern.span.start, end: case.proc.span.end };
        let ghost s0 = *stack;
        let ghost d0 = *db;
        let ghost dp = db@;
        let scope = resolve_proc_pattern(db, stack, pat, &case.pattern, span, Ghost(lo), Ghost(hi));
        let mut shadowed: Vec<Shadowed> = Vec::new();
        let ghost e0 = stack.env.locals@;
        stack.push_free(scope, db, &mut shadowed);
        proof {
            lemma_scope_pushed(dp, db@, e0, stack.env.locals@, scope.start() as int, scope.end() as int, lo, hi);
        }
        resolve_unguarded(db, stack, &case.proc, next + p, Ghost(lo), Ghost(hi));
        close_scope(db, stack, pat, &shadowed, false, Ghost(lo), Ghost(hi));
        proof {
            assert(stack.env.locals@ =~= s0.env.locals@);
            assert(stack.marks@ =~= s0.marks@);
            assert(walk_proc_post(d0, *db, s0, *stack, lo, hi));
        }
        next = next + p + b;
        i = i + 1;
    }
    proof {
        assert(cs@.take(i as int) =~= cs@);
    }
}

/// Records one binder per declaration of a `new` with PID `site`, and returns
/// their scope.  A declaration is skipped when the database has no room for
/// its binder.
/// The diagnostics of `n` end with what a `new` at `site` that declared `n`
/// names reports of its binders (the first `count` binders from the end of
/// `o`'s) shadowing binders of `locals` or of the same `new`: a duplicate
/// definition (an error) for a name declared twice, else a warning.
pub open spec fn new_shadowing_reported(
    o: DbView,
    n: DbView,
    locals: Seq<(Symbol, BinderId)>,
    count: nat,
    site: PID,
) -> bool {
    exists|mid: Seq<Diagnostic>|
        n.diags == mid + shadow_diags(
            n.binders,
            site,
            shadow_records(locals, scope_locals(n.binders, o.binders.len() as int, count as int)),
            true,
        )
}

/// The diagnostics of `n` are those of `o` followed by what a `new` at
/// `site` that declared `count` names reports of its binders shadowing
/// binders of `locals` or of the same `new`.
pub open spec fn new_shadowing_exact(
    o: DbView,
    n: DbView,
    locals: Seq<(Symbol, BinderId)>,
    count: nat,
    site: PID,
) -> bool {
    n.diags == o.diags + shadow_diags(
        n.binders,
        site,
        shadow_records(locals, scope_locals(n.binders, o.binders.len() as int, count as int)),
        true,
    )
}

/// A process that resolution leaves alone: a literal, `Nil`, or bad code.
pub open spec fn inert(p: Proc) -> bool {
    match p {
        Proc::Nil | Proc::Unit | Proc::BoolLiteral(_) | Proc::LongLiteral(_) | Proc::StringLiteral(_)
        | Proc::UriLiteral(_) | Proc::SignedIntLiteral { .. } | Proc::UnsignedIntLiteral { .. }
        | Proc::BigIntLiteral(_) | Proc::BigRatLiteral(_) | Proc::FloatLiteral { .. }
        | Proc::FixedPointLiteral { .. } | Proc::Bad => true,
        _ => false,
    }
}

/// The database has room for the binders of `n` declarations and for their
/// names and URIs.
pub open spec fn decls_fit(v: DbView, n: nat) -> bool {
    &&& v.binders.len() + n <= MAX_BITS
    &&& v.strings.len() + 2 * n < u32::MAX
}

fn bind_decls(
    db: &mut SemanticDb,
    decls: &Vec<NameDecl>,
    site: PID,
    span: SourceSpan,
    Ghost(lo): Ghost<int>,
    Ghost(hi): Ghost<int>,
) -> (r: ScopeInfo)
    requires
        old(db).inv(),
        lo <= site.0 < hi,
    ensures
        final(db).inv(),
        resolution_step(old(db)@, final(db)@, lo, hi),
        r.wf(),
        r.start() == old(db)@.binders.len(),
        r.end() == final(db)@.binders.len(),
        decls_fit(old(db)@, decls@.len()) ==> r.num() == decls@.len(),
        decls_fit(old(db)@, decls@.len()) ==> forall|k: int|
            0 <= k < decls@.len() ==> #[trigger] final(db)@.binders[r.start() + k].name.0 < final(db)@.strings.len()
                && final(db)@.strings[final(db)@.binders[r.start() + k].name.0 as int] == decls@[k].id.name@,
        final(db)@.bound == old(db)@.bound,
        final(db)@.diags == old(db)@.diags,
        final(db)@.strings.len() <= old(db)@.strings.len() + 2 * decls@.len(),
{
    proof {
        db.lemma_inv_wf();
    }
    let binder_start = db.next_binder();
    let mut i: usize = 0;
    while i < decls.len()
        invariant
            i <= decls@.len(),
            db.inv(),
            lo <= site.0 < hi,
            resolution_step(old(db)@, db@, lo, hi),
            binder_start.0 == old(db)@.binders.len(),
            decls_fit(old(db)@, decls@.len()) ==> db@.binders.len() == old(db)@.binders.len() + i,
            db@.strings.len() <= old(db)@.strings.len() + 2 * i,
            db@.bound == old(db)@.bound,
            db@.diags == old(db)@.diags,
            decls_fit(old(db)@, decls@.len()) ==> forall|k: int|
                0 <= k < i ==> #[trigger] db@.binders[binder_start.0 + k].name.0 < db@.strings.len()
                    && db@.strings[db@.binders[binder_start.0 + k].name.0 as int] == decls@[k].id.name@,
        decreases decls@.len() - i,
    {
        let n = &decls[i];
        proof {
            db.lemma_inv_wf();
        }
        let ghost d0 = db@;
        if (db.next_binder().0 as usize) < MAX_BITS {
            match intern_guarded(db, n.id.name.as_str()) {
                Some(name) => {
                    proof {
                        assert(resolution_step(d0, db@, lo, hi));
                    }
                    let ghost dm = db@;
                    let uri = match &n.uri {
                        Some(u) => intern_guarded(db, u.as_str()),
                        None => None,
                    };
                    proof {
                        assert(resolution_step(dm, db@, lo, hi));
                    }
                    let ghost d1 = db@;
                    let _ = db.fresh_binder(
                        Binder {
                            name,
                            kind: BinderKind::Name(uri),
                            scope: site,
                            index: i,
                            source_position: n.id.pos,
                        },
                    );
                    proof {
                        assert(resolution_step(d1, db@, lo, hi));
                        assert forall|k: int| 0 <= k < i + 1 && decls_fit(old(db)@, decls@.len()) implies
                            #[trigger] db@.binders[binder_start.0 + k].name.0 < db@.strings.len()
                            && db@.strings[db@.binders[binder_start.0 + k].name.0 as int] == decls@[k].id.name@ by {
                            if k < i {
                                assert(db@.binders[binder_start.0 + k] == d0.binders[binder_start.0 + k]);
                                assert(db@.strings[d0.binders[binder_start.0 + k].name.0 as int]
                                    == d0.strings[d0.binders[binder_start.0 + k].name.0 as int]);
                            }
                        }
                    }
                },
                None => {
                    proof {
                        assert(resolution_step(d0, db@, lo, hi));
                    }
                },
            }
        }
        i = i + 1;
    }
    proof {
        db.lemma_inv_wf();
    }
    let count = (db.next_binder().0 - binder_start.0) as usize;
    ScopeInfo::new(binder_start, count, span)
}

fn saturating_add(a: usize, b: usize) -> (r: usize)
    ensures
        r == if a + b <= usize::MAX {
            a + b
        } else {
            usize::MAX as int
        },
{
    if a <= usize::MAX - b {
        a + b
    } else {
        usize::MAX
    }
}

/// Merges the pattern scope `scope` into `acc`, reporting each free binder
/// of `scope` whose name a free binder of `acc` already has.
fn absorb_checking_dups(
    acc: &mut ScopeInfo,
    scope: ScopeInfo,
    db: &mut SemanticDb,
    current: PID,
    Ghost(lo): Ghost<int>,
    Ghost(hi): Ghost<int>,
)
    requires
        old(db).inv(),
        old(acc).wf(),
        scope.wf(),
        old(acc).end() == scope.start(),
        scope.end() <= old(db)@.binders.len(),
        lo <= current.0 < hi,
    ensures
        final(db).inv(),
        resolution_step(old(db)@, final(db)@, lo, hi),
        final(db)@.binders == old(db)@.binders,
        final(acc).wf(),
        final(acc).start() == old(acc).start(),
        final(acc).end() == scope.end(),
        final(acc).spec_span() == old(acc).spec_span(),
{
    if acc.num_free() != 0 {
        let news = scope.free();
        let olds = acc.free();
        proof {
            crate::db::lemma_bit_ids_in_range(scope.free_bits(), true, scope.start() as int);
            crate::db::lemma_bit_ids_in_range(acc.free_bits(), true, acc.start() as int);
            assert forall|k: int| 0 <= k < news@.len() implies (#[trigger] news@[k]).0 < db@.binders.len() by {
                assert(crate::scope::id_values(news@)[k] == news@[k].0);
            }
            assert forall|k: int| 0 <= k < olds@.len() implies (#[trigger] olds@[k]).0 < db@.binders.len() by {
                assert(crate::scope::id_values(olds@)[k] == olds@[k].0);
            }
        }
        let mut j: usize = 0;
        while j < news.len()
            invariant
                j <= news@.len(),
                db.inv(),
                db@.binders == old(db)@.binders,
                resolution_step(old(db)@, db@, lo, hi),
                lo <= current.0 < hi,
                forall|k: int| 0 <= k < news@.len() ==> (#[trigger] news@[k]).0 < db@.binders.len(),
                forall|k: int| 0 <= k < olds@.len() ==> (#[trigger] olds@[k]).0 < db@.binders.len(),
            decreases news@.len() - j,
        {
            let new_binder = db.binder(news[j]);
            let mut k: usize = 0;
            while k < olds.len()
                invariant
                    k <= olds@.len(),
                    db.inv(),
                    db@.binders == old(db)@.binders,
                    resolution_step(old(db)@, db@, lo, hi),
                    lo <= current.0 < hi,
                    forall|m: int| 0 <= m < olds@.len() ==> (#[trigger] olds@[m]).0 < db@.binders.len(),
                decreases olds@.len() - k,
            {
                let old_binder = db.binder(olds[k]);
                if old_binder.name.0 == new_binder.name.0 {
                    let ghost d0 = db@;
                    db.error(
                        current,
                        ErrorKind::DuplicateVarDef { original: SymbolOccurrence::from_binder(&old_binder) },
                        Some(new_binder.source_position),
                    );
                    proof {
                        assert(resolution_step(d0, db@, lo, hi));
                    }
                }
                k = k + 1;
            }
            j = j + 1;
        }
    }
    acc.absorb(scope);
}

/// Resolves the right-hand side of one `let` declaration, whose left-hand
/// side starts at PID `start`.
fn resolve_let_rhs(
    db: &mut SemanticDb,
    stack: &mut BindingStack,
    lb: &LetBinding,
    start: usize,
    Ghost(lo): Ghost<int>,
    Ghost(hi): Ghost<int>,
)
    requires
        walk_proc_pre(*old(db), *old(stack), lo, hi),
        lo <= start,
        start + preorder_names(lb.lhs).len() + preorder_seq(lb.rhs@).len() <= hi,
    ensures
        walk_proc_post(*old(db), *final(db), *old(stack), *final(stack), lo, hi),
        all_settled(final(db)@, uses_seq(lb.rhs@)),
        all_pattern_vars_settled(final(db)@, patterns_vars_seq(lb.rhs@)),
        all_scoped(final(db)@, scope_sites_seq(lb.rhs@, start + preorder_names(lb.lhs).len())),
    decreases *lb, 0nat,
{
    let l = names_size(&lb.lhs);
    resolve_seq(db, stack, &lb.rhs, start + l, Ghost(lo), Ghost(hi));
}

/// Resolves the right-hand sides of all declarations of a `let`; the first
/// declaration starts at PID `start`.
fn resolve_lets_rhs(
    db: &mut SemanticDb,
    stack: &mut BindingStack,
    ls: &Vec<LetBinding>,
    start: usize,
    Ghost(lo): Ghost<int>,
    Ghost(hi): Ghost<int>,
)
    requires
        walk_proc_pre(*old(db), *old(stack), lo, hi),
        lo <= start,
        start + preorder_lets(ls@).len() <= hi,
    ensures
        walk_proc_post(*old(db), *final(db), *old(stack), *final(stack), lo, hi),
        all_settled(final(db)@, uses_lets(ls@)),
        all_pattern_vars_settled(final(db)@, patterns_vars_lets_rhs(ls@)),
        all_scoped(final(db)@, scope_sites_lets(ls@, start as int)),
    decreases *ls, 0nat,
{
    proof {
        assert(ls@.take(0) =~= Seq::<LetBinding>::empty());
        db.lemma_inv_wf();
    }
    let mut next = start;
    let mut i: usize = 0;
    while i < ls.len()
        invariant
            i <= ls@.len(),
            walk_proc_pre(*db, *stack, lo, hi),
            walk_proc_post(*old(db), *db, *old(stack), *stack, lo, hi),
            lo <= start,
            start + preorder_lets(ls@).len() <= hi,
            next == start + preorder_lets(ls@.take(i as int)).len(),
            hi <= index_bound(),
            all_settled(db@, uses_lets(ls@.take(i as int))),
            all_pattern_vars_settled(db@, patterns_vars_lets_rhs(ls@.take(i as int))),
            all_scoped(db@, scope_sites_lets(ls@.take(i as int), start as int)),
        decreases ls@.len() - i,
    {
        proof {
            assert(ls@.take(i + 1).drop_last() =~= ls@.take(i as int));
            assert(ls@.take(i + 1).last() == ls@[i as int]);
            lemma_lets_prefix(ls@, i + 1);
        }
        let l = names_size(&ls[i].lhs);
        let r = crate::sizes::seq_size(&ls[i].rhs);
        resolve_let_rhs(db, stack, &ls[i], next, Ghost(lo), Ghost(hi));
        next = next + l + r;
        i = i + 1;
    }
    proof {
        assert(ls@.take(i as int) =~= ls@);
    }
}

/// Resolves the left-hand sides of declarations `from..to` of a `let` with
/// PID `current` together, as concurrent patterns; their binders count from
/// `index`.
fn resolve_lets_lhs(
    db: &mut SemanticDb,
    stack: &mut BindingStack,
    ls: &Vec<LetBinding>,
    from: usize,
    to: usize,
    current: PID,
    span: SourceSpan,
    index: usize,
    Ghost(lo): Ghost<int>,
    Ghost(hi): Ghost<int>,
) -> (r: ScopeInfo)
    requires
        walk_proc_pre(*old(db), *old(stack), lo, hi),
        lo <= current.0 < hi,
        from <= to <= ls@.len(),
    ensures
        walk_proc_post(*old(db), *final(db), *old(stack), *final(stack), lo, hi),
        all_pattern_vars_settled(final(db)@, patterns_vars_lets_lhs(ls@.subrange(from as int, to as int))),
        r.wf(),
        r.end() <= final(db)@.binders.len(),
        old(db)@.binders.len() <= r.start(),
        r.end() == final(db)@.binders.len(),
{
    proof {
        db.lemma_inv_wf();
    }
    let mut acc = ScopeInfo::ground(db.next_binder(), span);
    let mut i = from;
    while i < to
        invariant
            from <= i <= to <= ls@.len(),
            walk_proc_pre(*db, *stack, lo, hi),
            walk_proc_post(*old(db), *db, *old(stack), *stack, lo, hi),
            lo <= current.0 < hi,
            acc.wf(),
            acc.end() == db@.binders.len(),
            old(db)@.binders.len() <= acc.start(),
            all_pattern_vars_settled(db@, patterns_vars_lets_lhs(ls@.subrange(from as int, i as int))),
        decreases to - i,
    {
        proof {
            assert(ls@.subrange(from as int, i + 1).drop_last() =~= ls@.subrange(from as int, i as int));
            assert(ls@.subrange(from as int, i + 1).last() == ls@[i as int]);
        }
        let scope = resolve_name_pattern(
            db,
            stack,
            current,
            no_span(),
            &ls[i].lhs,
            saturating_add(index, acc.num_binders()),
            Ghost(lo),
            Ghost(hi),
        );
        let ghost d0 = *db;
        absorb_checking_dups(&mut acc, scope, db, current, Ghost(lo), Ghost(hi));
        proof {
            assert(walk_proc_post(d0, *db, *stack, *stack, lo, hi));
        }
        i = i + 1;
    }
    acc
}

/// Resolves the declarations of a sequential `let` with PID `current`, in
/// order: the right-hand side, then the left-hand side, whose binders the
/// following declarations see.  The first declaration starts at PID `start`.
fn resolve_lets_sequential(
    db: &mut SemanticDb,
    stack: &mut BindingStack,
    ls: &Vec<LetBinding>,
    current: PID,
    span: SourceSpan,
    start: usize,
    shadowed: &mut Vec<Shadowed>,
    Ghost(lo): Ghost<int>,
    Ghost(hi): Ghost<int>,
)
    requires
        walk_proc_pre(*old(db), *old(stack), lo, hi),
        old(stack).scopes@.len() > 0,
        shadowed_within(old(shadowed)@, old(db)@.binders.len()),
        lo <= current.0 < hi,
        lo <= start,
        start + preorder_lets(ls@).len() <= hi,
    ensures
        walk_proc_grow(*old(db), *final(db), *old(stack), *final(stack), lo, hi),
        shadowed_within(final(shadowed)@, final(db)@.binders.len()),
        all_settled(final(db)@, uses_lets(ls@)),
        all_pattern_vars_settled(final(db)@, patterns_vars_lets_rhs(ls@)),
        all_scoped(final(db)@, scope_sites_lets(ls@, start as int)),
        all_pattern_vars_settled(final(db)@, patterns_vars_lets_lhs(ls@)),
    decreases *ls, 0nat,
{
    proof {
        assert(ls@.take(0) =~= Seq::<LetBinding>::empty());
        db.lemma_inv_wf();
        assert(walk_proc_post(*db, *db, *stack, *stack, lo, hi));
    }
    let mut num_binders: usize = 0;
    let mut next = start;
    let mut i: usize = 0;
    while i < ls.len()
        invariant
            i <= ls@.len(),
            walk_proc_pre(*db, *stack, lo, hi),
            walk_proc_grow(*old(db), *db, *old(stack), *stack, lo, hi),
            stack.scopes@.len() > 0,
            shadowed_within(shadowed@, db@.binders.len()),
            lo <= current.0 < hi,
            lo <= start,
            start + preorder_lets(ls@).len() <= hi,
            next == start + preorder_lets(ls@.take(i as int)).len(),
            hi <= index_bound(),
            all_settled(db@, uses_lets(ls@.take(i as int))),
            all_pattern_vars_settled(db@, patterns_vars_lets_rhs(ls@.take(i as int))),
            all_scoped(db@, scope_sites_lets(ls@.take(i as int), start as int)),
            all_pattern_vars_settled(db@, patterns_vars_lets_lhs(ls@.take(i as int))),
        decreases ls@.len() - i,
    {
        proof {
            assert(ls@.take(i + 1).drop_last() =~= ls@.take(i as int));
            assert(ls@.take(i + 1).last() == ls@[i as int]);
            lemma_lets_prefix(ls@, i + 1);
        }
        let l = names_size(&ls[i].lhs);
        let r = crate::sizes::seq_size(&ls[i].rhs);
        resolve_let_rhs(db, stack, &ls[i], next, Ghost(lo), Ghost(hi));
        let ghost dl = db@;
        let scope = resolve_lets_lhs(db, stack, ls, i, i + 1, current, span, num_binders, Ghost(lo), Ghost(hi));
        proof {
            let one = ls@.subrange(i as int, i + 1);
            assert(one.drop_last() =~= Seq::<LetBinding>::empty());
            assert(patterns_vars_lets_lhs(Seq::<LetBinding>::empty()) =~= Seq::empty());
            assert(one.last() == ls@[i as int]);
            assert(patterns_vars_lets_lhs(one) =~= crate::var_uses::pattern_vars_names(ls@[i as int].lhs));
        }
        num_binders = saturating_add(num_binders, scope.num_binders());
        let ghost s0 = *stack;
        let ghost d0 = *db;
        stack.absorb_free(scope, db, shadowed);
        proof {
            lemma_scope_pushed(dl, db@, s0.env.locals@, stack.env.locals@, scope.start() as int, scope.end() as int, lo, hi);
            assert(walk_proc_grow(d0, *db, s0, *stack, lo, hi));
        }
        next = next + l + r;
        i = i + 1;
    }
    proof {
        assert(ls@.take(i as int) =~= ls@);
    }
}

/// Resolves the inputs of the source of a bind; the source starts at PID `start`.
fn resolve_source_inputs(
    db: &mut SemanticDb,
    stack: &mut BindingStack,
    s: &Source,
    start: usize,
    Ghost(lo): Ghost<int>,
    Ghost(hi): Ghost<int>,
)
    requires
        walk_proc_pre(*old(db), *old(stack), lo, hi),
        lo <= start,
        start + preorder_source(*s).len() <= hi,
    ensures
        walk_proc_post(*old(db), *final(db), *old(stack), *final(stack), lo, hi),
        all_settled(final(db)@, uses_source_inputs(*s)),
        all_pattern_vars_settled(final(db)@, patterns_vars_source_inputs(*s)),
        all_scoped(final(db)@, scope_sites_source_inputs(*s, start as int)),
    decreases *s, 0nat,
{
    match s {
        Source::SendReceive { name, inputs } => {
            let n = name_size(name);
            resolve_seq(db, stack, inputs, start + n, Ghost(lo), Ghost(hi));
        },
        _ => {
            proof {
                assert(walk_proc_post(*db, *db, *stack, *stack, lo, hi));
            }
        },
    }
}

/// Resolves the channel name of the source of a bind of process `current`;
/// the source starts at PID `start`.
fn resolve_source_name(
    db: &mut SemanticDb,
    stack: &mut BindingStack,
    s: &Source,
    current: PID,
    start: usize,
    Ghost(lo): Ghost<int>,
    Ghost(hi): Ghost<int>,
)
    requires
        walk_proc_pre(*old(db), *old(stack), lo, hi),
        lo <= current.0 < hi,
        lo <= start,
        start + preorder_source(*s).len() <= hi,
    ensures
        walk_proc_post(*old(db), *final(db), *old(stack), *final(stack), lo, hi),
        all_settled(final(db)@, uses_source_name(*s)),
        all_pattern_vars_settled(final(db)@, patterns_vars_source_name(*s)),
        all_scoped(final(db)@, scope_sites_source_name(*s, start as int)),
    decreases *s, 0nat,
{
    match s {
        Source::Simple { name } => resolve_name(db, stack, name, current, start, Ghost(lo), Ghost(hi)),
        Source::ReceiveSend { name } => resolve_name(db, stack, name, current, start, Ghost(lo), Ghost(hi)),
        Source::SendReceive { name, .. } => resolve_name(db, stack, name, current, start, Ghost(lo), Ghost(hi)),
    }
}

/// Resolves the inputs of a bind starting at PID `start`.
fn resolve_bind_inputs(
    db: &mut SemanticDb,
    stack: &mut BindingStack,
    b: &Bind,
    start: usize,
    Ghost(lo): Ghost<int>,
    Ghost(hi): Ghost<int>,
)
    requires
        walk_proc_pre(*old(db), *old(stack), lo, hi),
        lo <= start,
        start + preorder_bind(*b).len() <= hi,
    ensures
        walk_proc_post(*old(db), *final(db), *old(stack), *final(stack), lo, hi),
        all_settled(final(db)@, uses_bind_inputs(*b)),
        all_pattern_vars_settled(final(db)@, patterns_vars_bind_inputs(*b)),
        all_scoped(final(db)@, scope_sites_bind_inputs(*b, start as int)),
    decreases *b, 0nat,
{
    match b {
        Bind::Linear { lhs, rhs, .. } => {
            let l = names_size(lhs);
            resolve_source_inputs(db, stack, rhs, start + l, Ghost(lo), Ghost(hi));
        },
        _ => {
            proof {
                assert(walk_proc_post(*db, *db, *stack, *stack, lo, hi));
            }
        },
    }
}

/// Resolves the channel name of a bind of process `current` starting at PID `start`.
fn resolve_bind_name(
    db: &mut SemanticDb,
    stack: &mut BindingStack,
    b: &Bind,
    current: PID,
    start: usize,
    Ghost(lo): Ghost<int>,
    Ghost(hi): Ghost<int>,
)
    requires
        walk_proc_pre(*old(db), *old(stack), lo, hi),
        lo <= current.0 < hi,
        lo <= start,
        start + preorder_bind(*b).len() <= hi,
    ensures
        walk_proc_post(*old(db), *final(db), *old(stack), *final(stack), lo, hi),
        all_settled(final(db)@, uses_bind_name(*b)),
        all_pattern_vars_settled(final(db)@, patterns_vars_bind_name(*b)),
        all_scoped(final(db)@, scope_sites_bind_name(*b, start as int)),
    decreases *b, 0nat,
{
    match b {
        Bind::Linear { lhs, rhs, .. } => {
            let l = names_size(lhs);
            resolve_source_name(db, stack, rhs, current, start + l, Ghost(lo), Ghost(hi));
        },
        Bind::Repeated { lhs, rhs, .. } => {
            let l = names_size(lhs);
            resolve_name(db, stack, rhs, current, start + l, Ghost(lo), Ghost(hi));
        },
        Bind::Peek { lhs, rhs, .. } => {
            let l = names_size(lhs);
            resolve_name(db, stack, rhs, current, start + l, Ghost(lo), Ghost(hi));
        },
    }
}

/// Resolves one group of concurrent binds of the `for` with PID `current`:
/// first all inputs, then all channel names, then the patterns together.
/// The group starts at PID `start`; its binders count from `index`.
fn resolve_group(
    db: &mut SemanticDb,
    stack: &mut BindingStack,
    bs: &Vec<Bind>,
    current: PID,
    span: SourceSpan,
    start: usize,
    index: usize,
    Ghost(lo): Ghost<int>,
    Ghost(hi): Ghost<int>,
) -> (r: ScopeInfo)
    requires
        walk_proc_pre(*old(db), *old(stack), lo, hi),
        lo <= current.0 < hi,
        lo <= start,
        start + preorder_binds(bs@).len() <= hi,
    ensures
        walk_proc_post(*old(db), *final(db), *old(stack), *final(stack), lo, hi),
        all_settled(final(db)@, uses_binds_inputs(bs@)),
        all_settled(final(db)@, uses_binds_names(bs@)),
        all_pattern_vars_settled(final(db)@, patterns_vars_binds_inputs(bs@)),
        all_pattern_vars_settled(final(db)@, patterns_vars_binds_names(bs@)),
        all_pattern_vars_settled(final(db)@, patterns_vars_binds_lhs(bs@)),
        all_scoped(final(db)@, scope_sites_binds_inputs(bs@, start as int)),
        all_scoped(final(db)@, scope_sites_binds_names(bs@, start as int)),
        r.wf(),
        r.end() <= final(db)@.binders.len(),
        old(db)@.binders.len() <= r.start(),
        r.end() == final(db)@.binders.len(),
    decreases *bs, 0nat,
{
    proof {
        assert(bs@.take(0) =~= Seq::<Bind>::empty());
        db.lemma_inv_wf();
    }
    let mut next = start;
    let mut i: usize = 0;
    while i < bs.len()
        invariant
            i <= bs@.len(),
            walk_proc_pre(*db, *stack, lo, hi),
            walk_proc_post(*old(db), *db, *old(stack), *stack, lo, hi),
            lo <= start,
            start + preorder_binds(bs@).len() <= hi,
            next == start + preorder_binds(bs@.take(i as int)).len(),
            hi <= index_bound(),
            all_settled(db@, uses_binds_inputs(bs@.take(i as int))),
            all_pattern_vars_settled(db@, patterns_vars_binds_inputs(bs@.take(i as int))),
            all_scoped(db@, scope_sites_binds_inputs(bs@.take(i as int), start as int)),
        decreases bs@.len() - i,
    {
        proof {
            assert(bs@.take(i + 1).drop_last() =~= bs@.take(i as int));
            assert(bs@.take(i + 1).last() == bs@[i as int]);
            lemma_binds_prefix(bs@, i + 1);
        }
        let n = bind_size(&bs[i]);
        resolve_bind_inputs(db, stack, &bs[i], next, Ghost(lo), Ghost(hi));
        next = next + n;
        i = i + 1;
    }
    proof {
        assert(bs@.take(i as int) =~= bs@);
    }
    let ghost d1 = *db;
    let ghost s1 = *stack;
    next = start;
    i = 0;
    while i < bs.len()
        invariant
            i <= bs@.len(),
            walk_proc_pre(*db, *stack, lo, hi),
            walk_proc_post(*old(db), *db, *old(stack), *stack, lo, hi),
            lo <= current.0 < hi,
            lo <= start,
            start + preorder_binds(bs@).len() <= hi,
            next == start + preorder_binds(bs@.take(i as int)).len(),
            hi <= index_bound(),
            all_settled(db@, uses_binds_inputs(bs@)),
            all_settled(db@, uses_binds_names(bs@.take(i as int))),
            all_pattern_vars_settled(db@, patterns_vars_binds_inputs(bs@)),
            all_pattern_vars_settled(db@, patterns_vars_binds_names(bs@.take(i as int))),
            all_scoped(db@, scope_sites_binds_inputs(bs@, start as int)),
            all_scoped(db@, scope_sites_binds_names(bs@.take(i as int), start as int)),
        decreases bs@.len() - i,
    {
        proof {
            assert(bs@.take(i + 1).drop_last() =~= bs@.take(i as int));
            assert(bs@.take(i + 1).last() == bs@[i as int]);
            lemma_binds_prefix(bs@, i + 1);
        }
        let n = bind_size(&bs[i]);
        resolve_bind_name(db, stack, &bs[i], current, next, Ghost(lo), Ghost(hi));
        next = next + n;
        i = i + 1;
    }
    proof {
        db.lemma_inv_wf();
        assert(bs@.take(i as int) =~= bs@);
    }
    let mut acc = ScopeInfo::ground(db.next_binder(), span);
    i = 0;
    while i < bs.len()
        invariant
            i <= bs@.len(),
            walk_proc_pre(*db, *stack, lo, hi),
            walk_proc_post(*old(db), *db, *old(stack), *stack, lo, hi),
            lo <= current.0 < hi,
            acc.wf(),
            acc.end() == db@.binders.len(),
            old(db)@.binders.len() <= acc.start(),
            all_settled(db@, uses_binds_inputs(bs@)),
            all_settled(db@, uses_binds_names(bs@)),
            all_pattern_vars_settled(db@, patterns_vars_binds_inputs(bs@)),
            all_pattern_vars_settled(db@, patterns_vars_binds_names(bs@)),
            all_pattern_vars_settled(db@, patterns_vars_binds_lhs(bs@.take(i as int))),
            all_scoped(db@, scope_sites_binds_inputs(bs@, start as int)),
            all_scoped(db@, scope_sites_binds_names(bs@, start as int)),
        decreases bs@.len() - i,
    {
        proof {
            assert(bs@.take(i + 1).drop_last() =~= bs@.take(i as int));
            assert(bs@.take(i + 1).last() == bs@[i as int]);
        }
        let scope = resolve_name_pattern(
            db,
            stack,
            current,
            no_span(),
            bs[i].names(),
            saturating_add(index, acc.num_binders()),
            Ghost(lo),
            Ghost(hi),
        );
        let ghost d0 = *db;
        absorb_checking_dups(&mut acc, scope, db, current, Ghost(lo), Ghost(hi));
        proof {
            assert(walk_proc_post(d0, *db, *stack, *stack, lo, hi));
        }
        i = i + 1;
    }
    acc
}

/// Resolves the receipts of the `for` with PID `current`, group by group:
/// the binders of a group are seen by the groups after it.  The receipts
/// start at PID `start`.
fn resolve_receipts(
    db: &mut SemanticDb,
    stack: &mut BindingStack,
    rs: &Vec<Vec<Bind>>,
    current: PID,
    span: SourceSpan,
    start: usize,
    shadowed: &mut Vec<Shadowed>,
    Ghost(lo): Ghost<int>,
    Ghost(hi): Ghost<int>,
)
    requires
        walk_proc_pre(*old(db), *old(stack), lo, hi),
        old(stack).scopes@.len() > 0,
        shadowed_within(old(shadowed)@, old(db)@.binders.len()),
        lo <= current.0 < hi,
        lo <= start,
        start + preorder_receipts(rs@).len() <= hi,
    ensures
        walk_proc_grow(*old(db), *final(db), *old(stack), *final(stack), lo, hi),
        shadowed_within(final(shadowed)@, final(db)@.binders.len()),
        all_settled(final(db)@, uses_receipts(rs@)),
        all_pattern_vars_settled(final(db)@, patterns_vars_receipts(rs@)),
        all_scoped(final(db)@, scope_sites_receipts(rs@, start as int)),
    decreases *rs, 0nat,
{
    proof {
        assert(rs@.take(0) =~= Seq::<Vec<Bind>>::empty());
        db.lemma_inv_wf();
        assert(walk_proc_post(*db, *db, *stack, *stack, lo, hi));
    }
    let mut num_binders: usize = 0;
    let mut next = start;
    let mut i: usize = 0;
    while i < rs.len()
        invariant
            i <= rs@.len(),
            walk_proc_pre(*db, *stack, lo, hi),
            walk_proc_grow(*old(db), *db, *old(stack), *stack, lo, hi),
            stack.scopes@.len() > 0,
            shadowed_within(shadowed@, db@.binders.len()),
            lo <= current.0 < hi,
            lo <= start,
            start + preorder_receipts(rs@).len() <= hi,
            next == start + preorder_receipts(rs@.take(i as int)).len(),
            hi <= index_bound(),
            all_settled(db@, uses_receipts(rs@.take(i as int))),
            all_pattern_vars_settled(db@, patterns_vars_receipts(rs@.take(i as int))),
            all_scoped(db@, scope_sites_receipts(rs@.take(i as int), start as int)),
        decreases rs@.len() - i,
    {
        proof {
            assert(rs@.take(i + 1).drop_last() =~= rs@.take(i as int));
            assert(rs@.take(i + 1).last() == rs@[i as int]);
            lemma_receipts_prefix(rs@, i + 1);
        }
        let n = crate::sizes::binds_size(&rs[i]);
        let ghost dg = db@;
        let scope = resolve_group(db, stack, &rs[i], current, span, next, num_binders, Ghost(lo), Ghost(hi));
        num_binders = saturating_add(num_binders, scope.num_binders());
        let ghost s0 = *stack;
        let ghost d0 = *db;
        stack.absorb_free(scope, db, shadowed);
        proof {
            lemma_scope_pushed(dg, db@, s0.env.locals@, stack.env.locals@, scope.start() as int, scope.end() as int, lo, hi);
            assert(walk_proc_grow(d0, *db, s0, *stack, lo, hi));
        }
        next = next + n;
        i = i + 1;
    }
    proof {
        assert(rs@.take(i as int) =~= rs@);
    }
}

/// Resolves the tree rooted at process `root`: binds every variable
/// occurrence, records the scope of every binding construct, and reports
/// what is wrong with the bindings.  Only processes of the tree get new
/// binders, diagnostics and scopes; every binding construct of the tree has
/// its scope recorded; an occurrence is only ever bound to a binder of a
/// process of the tree; every use of a variable in the tree ends up recorded
/// or reported as unbound, and so does every variable of its patterns unless
/// the database has no room left for a binder or a name.
pub fn resolve(db: &mut SemanticDb, root: PID)
    requires
        old(db).inv(),
        root.0 < old(db)@.procs.len(),
    ensures
        final(db).inv(),
        resolution_step(
            old(db)@,
            final(db)@,
            root.0 as int,
            root.0 + preorder(old(db)@.procs[root.0 as int]).len(),
        ),
        all_settled(final(db)@, uses(old(db)@.procs[root.0 as int])),
        all_pattern_vars_settled(final(db)@, patterns_vars(old(db)@.procs[root.0 as int])),
        all_scoped(final(db)@, scope_sites(old(db)@.procs[root.0 as int], root.0 as int)),
        plain_walk(old(db)@, final(db)@, Seq::empty(), old(db)@.procs[root.0 as int]),
{
    proof {
        db.lemma_inv_wf();
        assert(root.0 + preorder(db@.procs[root.0 as int]).len() <= db@.procs.len());
    }
    let node = db.proc_at(root);
    let mut stack = BindingStack::new();
    proof {
        assert(stack.env.locals@ =~= Seq::<(Symbol, BinderId)>::empty());
    }
    resolve_unguarded(
        db,
        &mut stack,
        node,
        root.0 as usize,
        Ghost(root.0 as int),
        Ghost(root.0 + preorder(*node).len()),
    );
}

/// The pass that resolves the tree rooted at one process.
pub struct ResolverPass {
    root: PID,
}

impl ResolverPass {
    pub closed spec fn spec_root(&self) -> PID {
        self.root
    }

    /// The root of the tree the pass works on.
    pub fn root(&self) -> (r: PID)
        ensures
            r == self.spec_root(),
    {
        self.root
    }

    pub fn new(root: PID) -> (r: Self)
        ensures
            r.spec_root() == root,
    {
        ResolverPass { root }
    }

    /// `ResolverPass(<root>)`.
    pub fn name(&self) -> (r: String)
        ensures
            r@ == "ResolverPass("@ + decimal((self.spec_root().0) as nat) + ")"@,
    {
        let mut r = String::from_str("ResolverPass(");
        let n = u32_to_string(self.root.0);
        r.append(n.as_str());
        r.append(")");
        r
    }

    /// Resolves the tree rooted at the pass's process.
    pub fn run(&self, db: &mut SemanticDb)
        requires
            old(db).inv(),
            self.spec_root().0 < old(db)@.procs.len(),
        ensures
            final(db).inv(),
            resolution_step(
                old(db)@,
                final(db)@,
                self.spec_root().0 as int,
                self.spec_root().0 + preorder(old(db)@.procs[self.spec_root().0 as int]).len(),
            ),
            all_settled(final(db)@, uses(old(db)@.procs[self.spec_root().0 as int])),
            all_pattern_vars_settled(final(db)@, patterns_vars(old(db)@.procs[self.spec_root().0 as int])),
            all_scoped(final(db)@, scope_sites(old(db)@.procs[self.spec_root().0 as int], self.spec_root().0 as int)),
            plain_walk(old(db)@, final(db)@, Seq::empty(), old(db)@.procs[self.spec_root().0 as int]),
    {
        resolve(db, self.root);
    }
}

} // verus!
