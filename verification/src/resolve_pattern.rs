//! Resolution inside patterns: a pattern introduces free variables, which are
//! visible to the rest of the pattern, and may refer to binders of the
//! enclosing scopes through `=x` and `=*x`.
use crate::ast::{
    AnnProc, Bind, Case, Collection, KeyValue, LetBinding, Name, NameDecl, Names, Proc, Source,
    SourceSpan, SyncSendCont, Var,
};
use crate::ast::{BinaryExpOp, UnaryExpOp};
use crate::db::{lookup_binding, DbView, SemanticDb};
use crate::pattern_state::{
    lemma_walk_trans, new_free, opened_within, ref_target, walk_post, walk_pre, PatternResolver,
};
use crate::resolution::symbol_index;
use crate::resolver::{
    env_located, lemma_located_from_grow, lemma_located_grow,
    env_extends, env_named, intern_guarded, lemma_extends_trans, lemma_step_trans, resolution_step,
    resolve_var_ref, BindingStack,
};
use crate::scope::ScopeInfo;
use crate::types::{
    BinderKind, Diagnostic, DiagnosticKind, ErrorKind, SymbolOccurrence, VarBinding, WarningKind, PID,
};
use crate::var_uses::{
    all_pattern_vars_settled, lemma_pattern_settled_concat, lemma_pattern_settled_empty,
    lemma_pattern_settled_grow, pattern_var_settled, pattern_vars, pattern_vars_binds,
    pattern_vars_bind, pattern_vars_cases, pattern_vars_decls, pattern_vars_lets,
    pattern_vars_name, pattern_vars_name_seq, pattern_vars_names, pattern_vars_pairs,
    pattern_vars_receipts, pattern_vars_seq, pattern_vars_source, remainder_var,
};
use vstd::prelude::*;

verus! {

broadcast use lemma_step_trans, lemma_extends_trans, lemma_walk_trans, crate::resolver::lemma_named_grow,
    lemma_located_from_grow, lemma_located_grow,
    lemma_pattern_settled_grow, lemma_pattern_settled_concat, lemma_pattern_settled_empty;

fn deeper(depth: usize) -> (r: usize)
    ensures
        r != 0,
        r == if depth < usize::MAX {
            depth + 1
        } else {
            depth as int
        },
{
    if depth < usize::MAX {
        depth + 1
    } else {
        depth
    }
}

/// Warns that an expression stands at the top level of a pattern.
fn warn_top_level(db: &mut SemanticDb, res: &PatternResolver, span: SourceSpan, Ghost(lo): Ghost<int>, Ghost(hi): Ghost<int>)
    requires
        old(db).inv(),
        lo <= res.id.0 < hi,
    ensures
        final(db).inv(),
        resolution_step(old(db)@, final(db)@, lo, hi),
        final(db)@.binders == old(db)@.binders,
        final(db)@ == (crate::db::DbView {
            diags: old(db)@.diags.push(
                crate::types::Diagnostic {
                    pid: res.id,
                    kind: DiagnosticKind::Warning(WarningKind::TopLevelPatternExpr { span }),
                    exact_position: None,
                },
            ),
            ..old(db)@
        }),
{
    db.warning(res.id, WarningKind::TopLevelPatternExpr { span }, None);
}

/// Resolves the name pattern `n`.
fn resolve_single_name(
    db: &mut SemanticDb,
    env: &mut BindingStack,
    res: &mut PatternResolver,
    n: &Name,
    Ghost(lo): Ghost<int>,
    Ghost(hi): Ghost<int>,
)
    requires
        walk_pre(*old(db), *old(env), *old(res), lo, hi),
    ensures
        walk_post(*old(db), *final(db), *old(env), *final(env), *old(res), *final(res), lo, hi),
        all_pattern_vars_settled(final(db)@, pattern_vars_name(*n)),
    decreases *n, 0nat,
{
    match n {
        Name::NameVar(Var::Wildcard) => {
            proof {
                assert(res.env.locals@.take(res.env.locals@.len() as int) =~= res.env.locals@);
            }
        },
        Name::NameVar(Var::Id(var)) => {
            res.resolve_or_introduce_var(var, BinderKind::Name(None), db, Ghost(lo), Ghost(hi));
        },
        Name::Quote(quoted) => {
            resolve_proc_pattern_rec(db, env, res, quoted, 0, Ghost(lo), Ghost(hi));
        },
    }
}

/// Resolves the names of `pattern`, then its remainder.
fn resolve_names(
    db: &mut SemanticDb,
    env: &mut BindingStack,
    res: &mut PatternResolver,
    pattern: &Names,
    Ghost(lo): Ghost<int>,
    Ghost(hi): Ghost<int>,
)
    requires
        walk_pre(*old(db), *old(env), *old(res), lo, hi),
    ensures
        walk_post(*old(db), *final(db), *old(env), *final(env), *old(res), *final(res), lo, hi),
        all_pattern_vars_settled(final(db)@, pattern_vars_names(*pattern)),
    decreases *pattern, 0nat,
{
    proof {
        assert(res.env.locals@.take(res.env.locals@.len() as int) =~= res.env.locals@);
    }
    let mut i: usize = 0;
    while i < pattern.names.len()
        invariant
            i <= pattern.names@.len(),
            walk_pre(*db, *env, *res, lo, hi),
            walk_post(*old(db), *db, *old(env), *env, *old(res), *res, lo, hi),
            all_pattern_vars_settled(db@, pattern_vars_name_seq(pattern.names@.take(i as int))),
        decreases pattern.names@.len() - i,
    {
        proof {
            assert(pattern.names@.take(i + 1).drop_last() =~= pattern.names@.take(i as int));
            assert(pattern.names@.take(i + 1).last() == pattern.names@[i as int]);
        }
        resolve_single_name(db, env, res, &pattern.names[i], Ghost(lo), Ghost(hi));
        i = i + 1;
    }
    proof {
        assert(pattern.names@.take(i as int) =~= pattern.names@);
    }
    match &pattern.remainder {
        Some(Var::Id(rem)) => {
            res.resolve_or_introduce_var(rem, BinderKind::Proc, db, Ghost(lo), Ghost(hi));
            proof {
                assert(all_pattern_vars_settled(db@, remainder_var(pattern.remainder)));
            }
        },
        _ => {},
    }
}

/// Resolves `sub` as a sub-pattern whose variables stay bound for what the
/// caller resolves next; returns what `close_sub` needs afterwards.
fn open_proc_sub(
    db: &mut SemanticDb,
    env: &mut BindingStack,
    res: &mut PatternResolver,
    sub: &AnnProc,
    Ghost(lo): Ghost<int>,
    Ghost(hi): Ghost<int>,
) -> (r: (usize, usize))
    requires
        walk_pre(*old(db), *old(env), *old(res), lo, hi),
    ensures
        walk_post(*old(db), *final(db), *old(env), *final(env), *old(res), *final(res), lo, hi),
        all_pattern_vars_settled(final(db)@, pattern_vars(*sub)),
        r.0 == old(res).env.locals@.len(),
        r.0 <= r.1,
    decreases *sub, 1nat,
{
    let (old_guard, start) = res.open_sub();
    resolve_proc_pattern_rec(db, env, res, sub, 0, Ghost(lo), Ghost(hi));
    let end = res.env.len();
    res.seal_sub(old_guard, Ghost(db@.binders.len()));
    (start, end)
}

/// Resolves the name sub-pattern `sub`, as `open_proc_sub` does.
fn open_names_sub(
    db: &mut SemanticDb,
    env: &mut BindingStack,
    res: &mut PatternResolver,
    sub: &Names,
    Ghost(lo): Ghost<int>,
    Ghost(hi): Ghost<int>,
) -> (r: (usize, usize))
    requires
        walk_pre(*old(db), *old(env), *old(res), lo, hi),
    ensures
        walk_post(*old(db), *final(db), *old(env), *final(env), *old(res), *final(res), lo, hi),
        all_pattern_vars_settled(final(db)@, pattern_vars_names(*sub)),
        r.0 == old(res).env.locals@.len(),
        r.0 <= r.1,
    decreases *sub, 1nat,
{
    let (old_guard, start) = res.open_sub();
    resolve_names(db, env, res, sub, Ghost(lo), Ghost(hi));
    let end = res.env.len();
    res.seal_sub(old_guard, Ghost(db@.binders.len()));
    (start, end)
}

/// Resolves each process of `ps` as a pattern at `depth`.
fn resolve_seq_pattern(
    db: &mut SemanticDb,
    env: &mut BindingStack,
    res: &mut PatternResolver,
    ps: &Vec<AnnProc>,
    depth: usize,
    Ghost(lo): Ghost<int>,
    Ghost(hi): Ghost<int>,
)
    requires
        walk_pre(*old(db), *old(env), *old(res), lo, hi),
    ensures
        walk_post(*old(db), *final(db), *old(env), *final(env), *old(res), *final(res), lo, hi),
        all_pattern_vars_settled(final(db)@, pattern_vars_seq(ps@)),
    decreases *ps, 0nat,
{
    proof {
        assert(res.env.locals@.take(res.env.locals@.len() as int) =~= res.env.locals@);
    }
    let mut i: usize = 0;
    while i < ps.len()
        invariant
            i <= ps@.len(),
            walk_pre(*db, *env, *res, lo, hi),
            walk_post(*old(db), *db, *old(env), *env, *old(res), *res, lo, hi),
            all_pattern_vars_settled(db@, pattern_vars_seq(ps@.take(i as int))),
        decreases ps@.len() - i,
    {
        proof {
            assert(ps@.take(i + 1).drop_last() =~= ps@.take(i as int));
            assert(ps@.take(i + 1).last() == ps@[i as int]);
        }
        resolve_proc_pattern_rec(db, env, res, &ps[i], depth, Ghost(lo), Ghost(hi));
        i = i + 1;
    }
    proof {
        assert(ps@.take(i as int) =~= ps@);
    }
}

/// Resolves the key-value pairs of a map pattern at `depth`.
fn resolve_pairs_pattern(
    db: &mut SemanticDb,
    env: &mut BindingStack,
    res: &mut PatternResolver,
    ps: &Vec<KeyValue>,
    depth: usize,
    Ghost(lo): Ghost<int>,
    Ghost(hi): Ghost<int>,
)
    requires
        walk_pre(*old(db), *old(env), *old(res), lo, hi),
    ensures
        walk_post(*old(db), *final(db), *old(env), *final(env), *old(res), *final(res), lo, hi),
        all_pattern_vars_settled(final(db)@, pattern_vars_pairs(ps@)),
    decreases *ps, 0nat,
{
    proof {
        assert(res.env.locals@.take(res.env.locals@.len() as int) =~= res.env.locals@);
    }
    let mut i: usize = 0;
    while i < ps.len()
        invariant
            i <= ps@.len(),
            walk_pre(*db, *env, *res, lo, hi),
            walk_post(*old(db), *db, *old(env), *env, *old(res), *res, lo, hi),
            all_pattern_vars_settled(db@, pattern_vars_pairs(ps@.take(i as int))),
        decreases ps@.len() - i,
    {
        proof {
            assert(ps@.take(i + 1).drop_last() =~= ps@.take(i as int));
            assert(ps@.take(i + 1).last() == ps@[i as int]);
        }
        resolve_proc_pattern_rec(db, env, res, &ps[i].key, depth, Ghost(lo), Ghost(hi));
        resolve_proc_pattern_rec(db, env, res, &ps[i].value, depth, Ghost(lo), Ghost(hi));
        i = i + 1;
    }
    proof {
        assert(ps@.take(i as int) =~= ps@);
    }
}

/// Resolves the cases of a `match` inside a pattern: each case pattern is a
/// sub-pattern whose variables the case body sees.
fn resolve_cases_pattern(
    db: &mut SemanticDb,
    env: &mut BindingStack,
    res: &mut PatternResolver,
    cs: &Vec<Case>,
    depth: usize,
    Ghost(lo): Ghost<int>,
    Ghost(hi): Ghost<int>,
)
    requires
        walk_pre(*old(db), *old(env), *old(res), lo, hi),
    ensures
        walk_post(*old(db), *final(db), *old(env), *final(env), *old(res), *final(res), lo, hi),
        all_pattern_vars_settled(final(db)@, pattern_vars_cases(cs@)),
    decreases *cs, 0nat,
{
    proof {
        assert(res.env.locals@.take(res.env.locals@.len() as int) =~= res.env.locals@);
    }
    let mut i: usize = 0;
    while i < cs.len()
        invariant
            i <= cs@.len(),
            walk_pre(*db, *env, *res, lo, hi),
            walk_post(*old(db), *db, *old(env), *env, *old(res), *res, lo, hi),
            all_pattern_vars_settled(db@, pattern_vars_cases(cs@.take(i as int))),
        decreases cs@.len() - i,
    {
        proof {
            assert(cs@.take(i + 1).drop_last() =~= cs@.take(i as int));
            assert(cs@.take(i + 1).last() == cs@[i as int]);
        }
        let ghost prefix = res.env.locals@;
        let (start, end) = open_proc_sub(db, env, res, &cs[i].pattern, Ghost(lo), Ghost(hi));
        resolve_proc_pattern_rec(db, env, res, &cs[i].proc, depth, Ghost(lo), Ghost(hi));
        res.close_sub(start, end, Ghost(prefix), Ghost(db@.binders));
        i = i + 1;
    }
    proof {
        assert(cs@.take(i as int) =~= cs@);
    }
}

/// Resolves the source of a `for` bind inside a pattern.
fn resolve_source_pattern(
    db: &mut SemanticDb,
    env: &mut BindingStack,
    res: &mut PatternResolver,
    s: &Source,
    depth: usize,
    Ghost(lo): Ghost<int>,
    Ghost(hi): Ghost<int>,
)
    requires
        walk_pre(*old(db), *old(env), *old(res), lo, hi),
    ensures
        walk_post(*old(db), *final(db), *old(env), *final(env), *old(res), *final(res), lo, hi),
        all_pattern_vars_settled(final(db)@, pattern_vars_source(*s)),
    decreases *s, 0nat,
{
    match s {
        Source::Simple { name } => resolve_single_name(db, env, res, name, Ghost(lo), Ghost(hi)),
        Source::ReceiveSend { name } => resolve_single_name(db, env, res, name, Ghost(lo), Ghost(hi)),
        Source::SendReceive { name, inputs } => {
            resolve_single_name(db, env, res, name, Ghost(lo), Ghost(hi));
            resolve_seq_pattern(db, env, res, inputs, depth, Ghost(lo), Ghost(hi));
        },
    }
}

/// Resolves one `for` bind inside a pattern: its source, then its names as a
/// sub-pattern, whose bounds are pushed on `opened`.
fn open_bind_pattern(
    db: &mut SemanticDb,
    env: &mut BindingStack,
    res: &mut PatternResolver,
    b: &Bind,
    depth: usize,
    opened: &mut Vec<(usize, usize)>,
    Ghost(base_len): Ghost<nat>,
    Ghost(lo): Ghost<int>,
    Ghost(hi): Ghost<int>,
)
    requires
        walk_pre(*old(db), *old(env), *old(res), lo, hi),
        opened_within(old(opened)@, base_len),
        base_len <= old(res).env.locals@.len(),
    ensures
        walk_post(*old(db), *final(db), *old(env), *final(env), *old(res), *final(res), lo, hi),
        all_pattern_vars_settled(final(db)@, pattern_vars_bind(*b)),
        opened_within(final(opened)@, base_len),
    decreases *b, 0nat,
{
    let (start, end) = match b {
        Bind::Linear { lhs, rhs, .. } => {
            resolve_source_pattern(db, env, res, rhs, depth, Ghost(lo), Ghost(hi));
            open_names_sub(db, env, res, lhs, Ghost(lo), Ghost(hi))
        },
        Bind::Repeated { lhs, rhs, .. } => {
            resolve_single_name(db, env, res, rhs, Ghost(lo), Ghost(hi));
            open_names_sub(db, env, res, lhs, Ghost(lo), Ghost(hi))
        },
        Bind::Peek { lhs, rhs, .. } => {
            resolve_single_name(db, env, res, rhs, Ghost(lo), Ghost(hi));
            open_names_sub(db, env, res, lhs, Ghost(lo), Ghost(hi))
        },
    };
    opened.push((start, end));
    proof {
        assert forall|k: int| 0 <= k < opened@.len() implies base_len <= (#[trigger] opened@[k]).0
            <= opened@[k].1 by {
            if k < opened@.len() - 1 {
                assert(opened@[k] == old(opened)@[k]);
            }
        }
    }
}

/// Resolves the binds of one group of a `for` inside a pattern, in order.
fn open_binds_pattern(
    db: &mut SemanticDb,
    env: &mut BindingStack,
    res: &mut PatternResolver,
    bs: &Vec<Bind>,
    depth: usize,
    opened: &mut Vec<(usize, usize)>,
    Ghost(base_len): Ghost<nat>,
    Ghost(lo): Ghost<int>,
    Ghost(hi): Ghost<int>,
)
    requires
        walk_pre(*old(db), *old(env), *old(res), lo, hi),
        opened_within(old(opened)@, base_len),
        base_len <= old(res).env.locals@.len(),
    ensures
        walk_post(*old(db), *final(db), *old(env), *final(env), *old(res), *final(res), lo, hi),
        all_pattern_vars_settled(final(db)@, pattern_vars_binds(bs@)),
        opened_within(final(opened)@, base_len),
    decreases *bs, 0nat,
{
    proof {
        assert(res.env.locals@.take(res.env.locals@.len() as int) =~= res.env.locals@);
    }
    let mut i: usize = 0;
    while i < bs.len()
        invariant
            i <= bs@.len(),
            walk_pre(*db, *env, *res, lo, hi),
            walk_post(*old(db), *db, *old(env), *env, *old(res), *res, lo, hi),
            opened_within(opened@, base_len),
            base_len <= res.env.locals@.len(),
            all_pattern_vars_settled(db@, pattern_vars_binds(bs@.take(i as int))),
        decreases bs@.len() - i,
    {
        proof {
            assert(bs@.take(i + 1).drop_last() =~= bs@.take(i as int));
            assert(bs@.take(i + 1).last() == bs@[i as int]);
        }
        open_bind_pattern(db, env, res, &bs[i], depth, opened, Ghost(base_len), Ghost(lo), Ghost(hi));
        i = i + 1;
    }
    proof {
        assert(bs@.take(i as int) =~= bs@);
    }
}

/// Resolves the receipts of a `for` inside a pattern, group by group.
fn open_receipts_pattern(
    db: &mut SemanticDb,
    env: &mut BindingStack,
    res: &mut PatternResolver,
    rs: &Vec<Vec<Bind>>,
    depth: usize,
    opened: &mut Vec<(usize, usize)>,
    Ghost(base_len): Ghost<nat>,
    Ghost(lo): Ghost<int>,
    Ghost(hi): Ghost<int>,
)
    requires
        walk_pre(*old(db), *old(env), *old(res), lo, hi),
        opened_within(old(opened)@, base_len),
        base_len <= old(res).env.locals@.len(),
    ensures
        walk_post(*old(db), *final(db), *old(env), *final(env), *old(res), *final(res), lo, hi),
        all_pattern_vars_settled(final(db)@, pattern_vars_receipts(rs@)),
        opened_within(final(opened)@, base_len),
    decreases *rs, 0nat,
{
    proof {
        assert(res.env.locals@.take(res.env.locals@.len() as int) =~= res.env.locals@);
    }
    let mut i: usize = 0;
    while i < rs.len()
        invariant
            i <= rs@.len(),
            walk_pre(*db, *env, *res, lo, hi),
            walk_post(*old(db), *db, *old(env), *env, *old(res), *res, lo, hi),
            opened_within(opened@, base_len),
            base_len <= res.env.locals@.len(),
            all_pattern_vars_settled(db@, pattern_vars_receipts(rs@.take(i as int))),
        decreases rs@.len() - i,
    {
        proof {
            assert(rs@.take(i + 1).drop_last() =~= rs@.take(i as int));
            assert(rs@.take(i + 1).last() == rs@[i as int]);
        }
        open_binds_pattern(db, env, res, &rs[i], depth, opened, Ghost(base_len), Ghost(lo), Ghost(hi));
        i = i + 1;
    }
    proof {
        assert(rs@.take(i as int) =~= rs@);
    }
}

/// Resolves the declarations of a `let` inside a pattern: each right-hand
/// side, then the left-hand side as a sub-pattern.
fn open_lets_pattern(
    db: &mut SemanticDb,
    env: &mut BindingStack,
    res: &mut PatternResolver,
    ls: &Vec<LetBinding>,
    depth: usize,
    opened: &mut Vec<(usize, usize)>,
    Ghost(base_len): Ghost<nat>,
    Ghost(lo): Ghost<int>,
    Ghost(hi): Ghost<int>,
)
    requires
        walk_pre(*old(db), *old(env), *old(res), lo, hi),
        opened_within(old(opened)@, base_len),
        base_len <= old(res).env.locals@.len(),
    ensures
        walk_post(*old(db), *final(db), *old(env), *final(env), *old(res), *final(res), lo, hi),
        all_pattern_vars_settled(final(db)@, pattern_vars_lets(ls@)),
        opened_within(final(opened)@, base_len),
    decreases *ls, 0nat,
{
    proof {
        assert(res.env.locals@.take(res.env.locals@.len() as int) =~= res.env.locals@);
    }
    let mut i: usize = 0;
    while i < ls.len()
        invariant
            i <= ls@.len(),
            walk_pre(*db, *env, *res, lo, hi),
            walk_post(*old(db), *db, *old(env), *env, *old(res), *res, lo, hi),
            opened_within(opened@, base_len),
            base_len <= res.env.locals@.len(),
            all_pattern_vars_settled(db@, pattern_vars_lets(ls@.take(i as int))),
        decreases ls@.len() - i,
    {
        proof {
            assert(ls@.take(i + 1).drop_last() =~= ls@.take(i as int));
            assert(ls@.take(i + 1).last() == ls@[i as int]);
        }
        resolve_seq_pattern(db, env, res, &ls[i].rhs, depth, Ghost(lo), Ghost(hi));
        let (start, end) = open_names_sub(db, env, res, &ls[i].lhs, Ghost(lo), Ghost(hi));
        let ghost before = opened@;
        opened.push((start, end));
        proof {
            assert forall|k: int| 0 <= k < opened@.len() implies base_len <= (#[trigger] opened@[k]).0
                <= opened@[k].1 by {
                if k < opened@.len() - 1 {
                    assert(opened@[k] == before[k]);
                }
            }
        }
        i = i + 1;
    }
    proof {
        assert(ls@.take(i as int) =~= ls@);
    }
}

/// Introduces the names of a `new` inside a pattern as free variables.
fn introduce_decls(
    db: &mut SemanticDb,
    res: &mut PatternResolver,
    decls: &Vec<NameDecl>,
    Ghost(lo): Ghost<int>,
    Ghost(hi): Ghost<int>,
)
    requires
        old(db).inv(),
        old(res).wf(old(db)@.binders.len()),
        env_named(old(res).env.locals@, old(db)@.binders),
        lo <= old(res).id.0 < hi,
    ensures
        final(db).inv(),
        final(res).wf(final(db)@.binders.len()),
        env_named(final(res).env.locals@, final(db)@.binders),
        final(res).id == old(res).id,
        final(res).first_binder == old(res).first_binder,
        final(res).scope_guard == old(res).scope_guard,
        env_extends(final(res).env.locals@, old(res).env.locals@),
        resolution_step(old(db)@, final(db)@, lo, hi),
        all_pattern_vars_settled(final(db)@, pattern_vars_decls(decls@)),
{
    proof {
        assert(res.env.locals@.take(res.env.locals@.len() as int) =~= res.env.locals@);
    }
    let mut i: usize = 0;
    while i < decls.len()
        invariant
            i <= decls@.len(),
            db.inv(),
            res.wf(db@.binders.len()),
            env_named(res.env.locals@, db@.binders),
            res.id == old(res).id,
            res.first_binder == old(res).first_binder,
            res.scope_guard == old(res).scope_guard,
            lo <= res.id.0 < hi,
            env_extends(res.env.locals@, old(res).env.locals@),
            resolution_step(old(db)@, db@, lo, hi),
            all_pattern_vars_settled(db@, pattern_vars_decls(decls@.take(i as int))),
        decreases decls@.len() - i,
    {
        proof {
            assert(decls@.take(i + 1).drop_last() =~= decls@.take(i as int));
            assert(decls@.take(i + 1).last() == decls@[i as int]);
        }
        let n = &decls[i];
        let ghost before = db@;
        let uri = match &n.uri {
            Some(u) => intern_guarded(db, u.as_str()),
            None => None,
        };
        proof {
            assert(resolution_step(before, db@, lo, hi));
        }
        res.introduce_free(&n.id, BinderKind::Name(uri), db, Ghost(lo), Ghost(hi));
        proof {
            assert(all_pattern_vars_settled(db@, seq![n.id]));
        }
        i = i + 1;
    }
    proof {
        assert(decls@.take(i as int) =~= decls@);
    }
}

/// Resolves the process `pattern` inside the pattern that `res` resolves.
/// `depth` counts the expressions around it; an expression at depth zero
/// stands at the top level of the pattern and is warned about.
/// An expression that, at the top level of a pattern, is reported as such:
/// an arithmetic or other non-connective operation, a conditional, a method
/// call, a match or an evaluation.
pub open spec fn warned_at_top_level(p: Proc) -> bool {
    match p {
        Proc::BinaryExp { op, .. } => op != BinaryExpOp::Matches && !op.spec_is_connective(),
        Proc::UnaryExp { op, .. } => !op.spec_is_connective(),
        Proc::IfThenElse { .. } | Proc::Method { .. } | Proc::Match { .. } | Proc::Eval { .. } => true,
        _ => false,
    }
}

fn resolve_proc_pattern_rec(
    db: &mut SemanticDb,
    env: &mut BindingStack,
    res: &mut PatternResolver,
    pattern: &AnnProc,
    depth: usize,
    Ghost(lo): Ghost<int>,
    Ghost(hi): Ghost<int>,
)
    requires
        walk_pre(*old(db), *old(env), *old(res), lo, hi),
    ensures
        walk_post(*old(db), *final(db), *old(env), *final(env), *old(res), *final(res), lo, hi),
        all_pattern_vars_settled(final(db)@, pattern_vars(*pattern)),
        pattern.proc matches Proc::VarRef { var, .. } ==> match ref_target(
            old(res).env.locals@,
            old(env).env.locals@,
            final(db)@.strings,
            var.name@,
            old(res).first_binder.0 as int,
            old(res).scope_guard as int,
        ) {
            Some(b) => lookup_binding(
                final(db)@.bound,
                SymbolOccurrence { symbol: symbol_index(final(db)@.strings, var.name@), position: var.pos },
            ) == Some(VarBinding::Bound(b)),
            None => final(db)@.bound == old(db)@.bound && final(db)@.diags == old(db)@.diags.push(
                Diagnostic {
                    pid: old(res).id,
                    kind: DiagnosticKind::Error(ErrorKind::UnboundVariable),
                    exact_position: Some(var.pos),
                },
            ),
        },
        pattern.proc is Bundle ==> final(db)@ == (DbView {
            diags: old(db)@.diags.push(
                Diagnostic {
                    pid: old(res).id,
                    kind: DiagnosticKind::Error(ErrorKind::BundleInsidePattern),
                    exact_position: Some(pattern.span.start),
                },
            ),
            ..old(db)@
        }) && *final(res) == *old(res) && *final(env) == *old(env),
        depth == 0 && warned_at_top_level(pattern.proc) ==> final(db)@.diags.len() > old(db)@.diags.len()
            && final(db)@.diags.last() == (Diagnostic {
            pid: old(res).id,
            kind: DiagnosticKind::Warning(WarningKind::TopLevelPatternExpr { span: pattern.span }),
            exact_position: None,
        }),
    decreases *pattern, 0nat,
{
    proof {
        assert(res.env.locals@.take(res.env.locals@.len() as int) =~= res.env.locals@);
    }
    match &pattern.proc {
        Proc::ProcVar(Var::Id(id)) => {
            res.resolve_or_introduce_var(id, BinderKind::Proc, db, Ghost(lo), Ghost(hi));
            proof {
                assert(pattern_vars(*pattern) =~= seq![*id]);
            }
        },
        Proc::VarRef { kind, var } => {
            let expects_name = match kind {
                crate::ast::VarRefKind::Name => true,
                crate::ast::VarRefKind::Proc => false,
            };
            let resolution = res.resolve_ref(var, expects_name, *kind, db, env, Ghost(lo), Ghost(hi));
            if resolution.is_none() {
                let ghost d0 = db@;
                db.error(res.id, ErrorKind::UnboundVariable, Some(var.pos));
                proof {
                    assert(resolution_step(d0, db@, lo, hi));
                    assert(db@.diags[d0.diags.len() as int].kind == DiagnosticKind::Error(ErrorKind::UnboundVariable));
                }
            }
            proof {
                assert(pattern_var_settled(db@, *var));
                assert(pattern_vars(*pattern) =~= seq![*var]);
            }
        },
        Proc::BinaryExp { op: crate::ast::BinaryExpOp::Matches, left, right } => {
            resolve_proc_pattern_rec(db, env, res, left, deeper(depth), Ghost(lo), Ghost(hi));
            let ghost prefix = res.env.locals@;
            let (start, end) = open_proc_sub(db, env, res, right, Ghost(lo), Ghost(hi));
            res.close_sub(start, end, Ghost(prefix), Ghost(db@.binders));
            if depth == 0 {
                warn_top_level(db, res, right.span, Ghost(lo), Ghost(hi));
            }
        },
        Proc::BinaryExp { op, left, right } => {
            let connective = op.is_connective();
            let sub_depth = if connective { depth } else { deeper(depth) };
            resolve_proc_pattern_rec(db, env, res, left, sub_depth, Ghost(lo), Ghost(hi));
            resolve_proc_pattern_rec(db, env, res, right, sub_depth, Ghost(lo), Ghost(hi));
            if depth == 0 && !connective {
                warn_top_level(db, res, pattern.span, Ghost(lo), Ghost(hi));
            }
        },
        Proc::UnaryExp { op, arg } => {
            let connective = op.is_connective();
            let sub_depth = if connective { depth } else { deeper(depth) };
            resolve_proc_pattern_rec(db, env, res, arg, sub_depth, Ghost(lo), Ghost(hi));
            if depth == 0 && !connective {
                warn_top_level(db, res, pattern.span, Ghost(lo), Ghost(hi));
            }
        },
        Proc::Par { left, right } => {
            resolve_proc_pattern_rec(db, env, res, left, depth, Ghost(lo), Ghost(hi));
            resolve_proc_pattern_rec(db, env, res, right, depth, Ghost(lo), Ghost(hi));
        },
        Proc::IfThenElse { condition, if_true, if_false } => {
            let d = deeper(depth);
            resolve_proc_pattern_rec(db, env, res, condition, d, Ghost(lo), Ghost(hi));
            resolve_proc_pattern_rec(db, env, res, if_true, d, Ghost(lo), Ghost(hi));
            match if_false {
                Some(branch) => resolve_proc_pattern_rec(db, env, res, branch, d, Ghost(lo), Ghost(hi)),
                None => {},
            }
            if depth == 0 {
                warn_top_level(db, res, pattern.span, Ghost(lo), Ghost(hi));
            }
        },
        Proc::Method { receiver, args, .. } => {
            let d = deeper(depth);
            resolve_proc_pattern_rec(db, env, res, receiver, d, Ghost(lo), Ghost(hi));
            resolve_seq_pattern(db, env, res, args, d, Ghost(lo), Ghost(hi));
            if depth == 0 {
                warn_top_level(db, res, pattern.span, Ghost(lo), Ghost(hi));
            }
        },
        Proc::Match { expression, cases } => {
            let d = deeper(depth);
            resolve_proc_pattern_rec(db, env, res, expression, d, Ghost(lo), Ghost(hi));
            resolve_cases_pattern(db, env, res, cases, d, Ghost(lo), Ghost(hi));
            if depth == 0 {
                warn_top_level(db, res, pattern.span, Ghost(lo), Ghost(hi));
            }
        },
        Proc::Collection(collection) => {
            match collection {
                Collection::List { elements, .. } => resolve_seq_pattern(db, env, res, elements, depth, Ghost(lo), Ghost(hi)),
                Collection::SetOf { elements, .. } => resolve_seq_pattern(db, env, res, elements, depth, Ghost(lo), Ghost(hi)),
                Collection::Tuple(elements) => resolve_seq_pattern(db, env, res, elements, depth, Ghost(lo), Ghost(hi)),
                Collection::MapOf { elements, .. } => resolve_pairs_pattern(db, env, res, elements, depth, Ghost(lo), Ghost(hi)),
            }
            match collection.remainder() {
                Some(Var::Id(rem)) => {
                    res.resolve_or_introduce_var(rem, BinderKind::Proc, db, Ghost(lo), Ghost(hi));
                },
                _ => {},
            }
        },
        Proc::Eval { name } => {
            resolve_single_name(db, env, res, name, Ghost(lo), Ghost(hi));
            if depth == 0 {
                warn_top_level(db, res, pattern.span, Ghost(lo), Ghost(hi));
            }
        },
        Proc::Send { channel, inputs, .. } => {
            resolve_single_name(db, env, res, channel, Ghost(lo), Ghost(hi));
            resolve_seq_pattern(db, env, res, inputs, depth, Ghost(lo), Ghost(hi));
        },
        Proc::SendSync { channel, inputs, cont } => {
            resolve_single_name(db, env, res, channel, Ghost(lo), Ghost(hi));
            resolve_seq_pattern(db, env, res, inputs, depth, Ghost(lo), Ghost(hi));
            match cont {
                SyncSendCont::NonEmpty(c) => resolve_proc_pattern_rec(db, env, res, c, depth, Ghost(lo), Ghost(hi)),
                SyncSendCont::Empty => {},
            }
        },
        Proc::ForComprehension { receipts, proc } => {
            let ghost base = res.env.locals@;
            let mut opened: Vec<(usize, usize)> = Vec::new();
            open_receipts_pattern(db, env, res, receipts, depth, &mut opened, Ghost(base.len()), Ghost(lo), Ghost(hi));
            resolve_proc_pattern_rec(db, env, res, proc, deeper(depth), Ghost(lo), Ghost(hi));
            res.close_all(&opened, Ghost(base), Ghost(db@.binders));
        },
        Proc::Contract { name, formals, body } => {
            resolve_single_name(db, env, res, name, Ghost(lo), Ghost(hi));
            let ghost prefix = res.env.locals@;
            let (start, end) = open_names_sub(db, env, res, formals, Ghost(lo), Ghost(hi));
            resolve_proc_pattern_rec(db, env, res, body, deeper(depth), Ghost(lo), Ghost(hi));
            res.close_sub(start, end, Ghost(prefix), Ghost(db@.binders));
        },
        Proc::Let { bindings, body, .. } => {
            let ghost base = res.env.locals@;
            let mut opened: Vec<(usize, usize)> = Vec::new();
            open_lets_pattern(db, env, res, bindings, depth, &mut opened, Ghost(base.len()), Ghost(lo), Ghost(hi));
            resolve_proc_pattern_rec(db, env, res, body, deeper(depth), Ghost(lo), Ghost(hi));
            res.close_all(&opened, Ghost(base), Ghost(db@.binders));
        },
        Proc::New { decls, proc } => {
            introduce_decls(db, res, decls, Ghost(lo), Ghost(hi));
            resolve_proc_pattern_rec(db, env, res, proc, depth, Ghost(lo), Ghost(hi));
        },
        Proc::Bundle { .. } => {
            db.error(res.id, ErrorKind::BundleInsidePattern, Some(pattern.span.start));
        },
        Proc::Bad => {
            db.error(res.id, ErrorKind::BadCode, Some(pattern.span.start));
        },
        _ => {},
    }
}

/// Resolves the process pattern `pattern` with PID `pid` and returns the
/// scope of the binders it introduces.
pub fn resolve_proc_pattern(
    db: &mut SemanticDb,
    env: &mut BindingStack,
    pid: PID,
    pattern: &AnnProc,
    span: SourceSpan,
    Ghost(lo): Ghost<int>,
    Ghost(hi): Ghost<int>,
) -> (r: ScopeInfo)
    requires
        old(db).inv(),
        old(env).wf(old(db)@.binders.len()),
        env_named(old(env).env.locals@, old(db)@.binders),
        env_located(old(env).env.locals@, old(db)@.binders, lo, hi),
        lo <= pid.0 < hi,
    ensures
        final(db).inv(),
        final(env).wf(final(db)@.binders.len()),
        env_named(final(env).env.locals@, final(db)@.binders),
        final(env).same_shape(old(env)),
        resolution_step(old(db)@, final(db)@, lo, hi),
        r.wf(),
        r.start() == old(db)@.binders.len(),
        r.end() == final(db)@.binders.len(),
        r.spec_span() == span,
        all_pattern_vars_settled(final(db)@, pattern_vars(*pattern)),
{
    proof {
        db.lemma_inv_wf();
    }
    let first_binder = db.next_binder();
    if pattern.proc.is_ground() {
        proof {
            assert(pattern_vars(*pattern) =~= Seq::empty());
        }
        return ScopeInfo::ground(first_binder, span);
    }
    match &pattern.proc {
        Proc::ProcVar(Var::Id(id)) => {
            proof {
                assert(pattern_vars(*pattern) =~= seq![*id]);
            }
            match new_free(pid, id, BinderKind::Proc, 0, db, Ghost(lo), Ghost(hi)) {
                Some(_) => {
                    proof {
                        db.lemma_inv_wf();
                        assert(pattern_var_settled(db@, *id));
                    }
                    ScopeInfo::free_var(first_binder, span)
                },
                None => {
                    proof {
                        assert(pattern_var_settled(db@, *id));
                    }
                    ScopeInfo::ground(first_binder, span)
                },
            }
        },
        Proc::VarRef { kind, var } => {
            proof {
                assert(pattern_vars(*pattern) =~= seq![*var]);
            }
            match resolve_var_ref(var, *kind, pid, db, env, Ghost(lo), Ghost(hi)) {
                Some((occ, ref_binder)) => {
                    proof {
                        assert(occ == crate::types::SymbolOccurrence { symbol: occ.symbol, position: var.pos });
                        assert(crate::db::lookup_binding(
                            db@.bound,
                            crate::types::SymbolOccurrence { symbol: occ.symbol, position: var.pos },
                        ) is Some);
                        assert(pattern_var_settled(db@, *var));
                    }
                    ScopeInfo::var_ref(first_binder, ref_binder, span)
                },
                None => {
                    let ghost d0 = db@;
                    db.error(pid, ErrorKind::UnboundVariable, Some(var.pos));
                    proof {
                        assert(resolution_step(d0, db@, lo, hi));
                        assert(db@.diags[d0.diags.len() as int].kind == DiagnosticKind::Error(ErrorKind::UnboundVariable));
                        assert(pattern_var_settled(db@, *var));
                    }
                    ScopeInfo::ground(first_binder, span)
                },
            }
        },
        _ => {
            let mut res = PatternResolver::new(pid, first_binder, 0);
            resolve_proc_pattern_rec(db, env, &mut res, pattern, 0, Ghost(lo), Ghost(hi));
            res.take(span, Ghost(db@.binders.len()))
        },
    }
}

/// Resolves the name pattern `pattern` of process `scope` and returns the
/// scope of the binders it introduces; their indices count from
/// `proc_var_index`.
pub fn resolve_name_pattern(
    db: &mut SemanticDb,
    env: &mut BindingStack,
    scope: PID,
    span: SourceSpan,
    pattern: &Names,
    proc_var_index: usize,
    Ghost(lo): Ghost<int>,
    Ghost(hi): Ghost<int>,
) -> (r: ScopeInfo)
    requires
        old(db).inv(),
        old(env).wf(old(db)@.binders.len()),
        env_named(old(env).env.locals@, old(db)@.binders),
        env_located(old(env).env.locals@, old(db)@.binders, lo, hi),
        lo <= scope.0 < hi,
    ensures
        final(db).inv(),
        final(env).wf(final(db)@.binders.len()),
        env_named(final(env).env.locals@, final(db)@.binders),
        final(env).same_shape(old(env)),
        resolution_step(old(db)@, final(db)@, lo, hi),
        r.wf(),
        r.start() == old(db)@.binders.len(),
        r.end() == final(db)@.binders.len(),
        r.spec_span() == span,
        all_pattern_vars_settled(final(db)@, pattern_vars_names(*pattern)),
{
    proof {
        db.lemma_inv_wf();
    }
    let first_binder = db.next_binder();
    let single: Option<&Var> = if pattern.names.len() == 0 {
        match &pattern.remainder {
            None => return ScopeInfo::ground(first_binder, span),
            Some(rem) => Some(rem),
        }
    } else {
        None
    };
    // a single remainder `...@x` or `...@_`
    match single {
        Some(Var::Wildcard) => return ScopeInfo::ground(first_binder, span),
        Some(Var::Id(var)) => {
            return match new_free(scope, var, BinderKind::Proc, proc_var_index, db, Ghost(lo), Ghost(hi)) {
                Some(_) => {
                    proof {
                        db.lemma_inv_wf();
                    }
                    ScopeInfo::free_var(first_binder, span)
                },
                None => ScopeInfo::ground(first_binder, span),
            };
        },
        None => {},
    }
    if pattern.names.len() == 1 && pattern.remainder.is_none() {
        match &pattern.names[0] {
            Name::NameVar(Var::Wildcard) => {
                return ScopeInfo::ground(first_binder, span);
            },
            Name::NameVar(Var::Id(var)) => {
                return match new_free(scope, var, BinderKind::Name(None), proc_var_index, db, Ghost(lo), Ghost(hi)) {
                    Some(_) => {
                    proof {
                        db.lemma_inv_wf();
                    }
                    ScopeInfo::free_var(first_binder, span)
                },
                    None => ScopeInfo::ground(first_binder, span),
                };
            },
            Name::Quote(quoted) => {
                if quoted.proc.is_ground() {
                    return ScopeInfo::ground(first_binder, span);
                }
                match &quoted.proc {
                    Proc::ProcVar(Var::Id(id)) => {
                        return match new_free(scope, id, BinderKind::Proc, proc_var_index, db, Ghost(lo), Ghost(hi)) {
                            Some(_) => {
                    proof {
                        db.lemma_inv_wf();
                    }
                    ScopeInfo::free_var(first_binder, span)
                },
                            None => ScopeInfo::ground(first_binder, span),
                        };
                    },
                    _ => {},
                }
            },
        }
    }
    let mut res = PatternResolver::new(scope, first_binder, proc_var_index);
    resolve_names(db, env, &mut res, pattern, Ghost(lo), Ghost(hi));
    res.take(span, Ghost(db@.binders.len()))
}

} // verus!
