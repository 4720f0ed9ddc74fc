//! The enclosure relation: for every process of a tree, the nearest process
//! around it that introduces a scope.
//!
//! The walk visits processes in preorder.  Entering a scoped process makes it
//! the current scope for everything inside it; the processes quoted inside a
//! name all get the scope that is current where the name stands.
use crate::ast::{
    AnnProc, Bind, Case, Collection, KeyValue, LetBinding, Name, Names, Proc, Source, SyncSendCont,
};
use crate::db::{DbView, SemanticDb};
use crate::index::{
    index_bound, lemma_binds_prefix, lemma_cases_prefix, lemma_lets_prefix, lemma_pairs_prefix,
    lemma_receipts_prefix, lemma_seq_prefix,
};
use crate::scope::ScopeInfo;
use crate::sizes::{name_size, names_size, proc_size};
use crate::text::{decimal, u32_to_string};
use crate::tree::{
    preorder, preorder_bind, preorder_binds, preorder_cases, preorder_lets, preorder_name,
    preorder_names, preorder_pairs, preorder_receipts, preorder_seq, preorder_source,
};
use crate::types::PID;
use vstd::prelude::*;
use vstd::string::StringExecFns;

verus! {

/// `n` copies of `cur`: the enclosure of the processes quoted in names.
pub open spec fn flat(n: nat, cur: PID) -> Seq<PID> {
    Seq::new(n, |_i: int| cur)
}

/// Process `pid` introduces a scope.
pub open spec fn opens_scope(sc: Seq<Option<ScopeInfo>>, pid: int) -> bool {
    0 <= pid < sc.len() && sc[pid] is Some
}

/// The scope current inside process `pid`, when `cur` is current around it.
pub open spec fn inner_scope(sc: Seq<Option<ScopeInfo>>, pid: int, cur: PID) -> PID {
    if opens_scope(sc, pid) {
        PID(pid as u32)
    } else {
        cur
    }
}

/// `s` with `t` written over it from index `at` on.
pub open spec fn splice(s: Seq<PID>, at: int, t: Seq<PID>) -> Seq<PID> {
    s.take(at) + t + s.skip(at + t.len())
}

/// The enclosing process of each process of `p` in preorder, where `p` has
/// PID `pid` and `cur` is the scope current around it.
pub open spec fn enclosure(sc: Seq<Option<ScopeInfo>>, p: AnnProc, pid: int, cur: PID) -> Seq<PID>
    decreases p, 1nat,
{
    seq![cur] + enclosure_inside(sc, p, pid + 1, inner_scope(sc, pid, cur))
}

/// The enclosing processes of the processes strictly inside `p`; the first
/// has PID `s`, and `c` is current inside `p`.
pub open spec fn enclosure_inside(sc: Seq<Option<ScopeInfo>>, p: AnnProc, s: int, c: PID) -> Seq<PID>
    decreases p, 0nat,
{
    match p.proc {
        Proc::Collection(col) => match col {
            Collection::List { elements, .. } => enclosure_seq(sc, elements@, s, c),
            Collection::Tuple(elements) => enclosure_seq(sc, elements@, s, c),
            Collection::SetOf { elements, .. } => enclosure_seq(sc, elements@, s, c),
            Collection::MapOf { elements, .. } => enclosure_pairs(sc, elements@, s, c),
        },
        Proc::Par { left, right } => enclosure(sc, *left, s, c) + enclosure(
            sc,
            *right,
            s + preorder(*left).len(),
            c,
        ),
        Proc::IfThenElse { condition, if_true, if_false } => enclosure(sc, *condition, s, c)
            + enclosure(sc, *if_true, s + preorder(*condition).len(), c) + match if_false {
            Some(f) => enclosure(
                sc,
                *f,
                s + preorder(*condition).len() + preorder(*if_true).len(),
                c,
            ),
            None => Seq::empty(),
        },
        Proc::Send { channel, inputs, .. } => flat(preorder_name(channel).len(), c) + enclosure_seq(
            sc,
            inputs@,
            s + preorder_name(channel).len(),
            c,
        ),
        Proc::SendSync { channel, inputs, cont } => flat(preorder_name(channel).len(), c)
            + enclosure_seq(sc, inputs@, s + preorder_name(channel).len(), c) + match cont {
            SyncSendCont::Empty => Seq::empty(),
            SyncSendCont::NonEmpty(k) => enclosure(
                sc,
                *k,
                s + preorder_name(channel).len() + preorder_seq(inputs@).len(),
                c,
            ),
        },
        Proc::ForComprehension { receipts, proc } => enclosure_receipts(sc, receipts@, s, c)
            + enclosure(sc, *proc, s + preorder_receipts(receipts@).len(), c),
        Proc::Match { expression, cases } => enclosure(sc, *expression, s, c) + enclosure_cases(
            sc,
            cases@,
            s + preorder(*expression).len(),
            c,
        ),
        Proc::Bundle { proc, .. } => enclosure(sc, *proc, s, c),
        Proc::Let { bindings, body, .. } => enclosure(sc, *body, s, c) + enclosure_lets(
            sc,
            bindings@,
            s + preorder(*body).len(),
            c,
        ),
        Proc::New { proc, .. } => enclosure(sc, *proc, s, c),
        Proc::Contract { name, formals, body } => flat(
            preorder_name(name).len() + preorder_names(formals).len(),
            c,
        ) + enclosure(sc, *body, s + preorder_name(name).len() + preorder_names(formals).len(), c),
        Proc::Eval { name } => flat(preorder_name(name).len(), c),
        Proc::Method { receiver, args, .. } => enclosure(sc, *receiver, s, c) + enclosure_seq(
            sc,
            args@,
            s + preorder(*receiver).len(),
            c,
        ),
        Proc::UnaryExp { arg, .. } => enclosure(sc, *arg, s, c),
        Proc::BinaryExp { left, right, .. } => enclosure(sc, *left, s, c) + enclosure(
            sc,
            *right,
            s + preorder(*left).len(),
            c,
        ),
        _ => Seq::empty(),
    }
}

pub open spec fn enclosure_seq(sc: Seq<Option<ScopeInfo>>, ps: Seq<AnnProc>, s: int, c: PID) -> Seq<PID>
    decreases ps, 0nat,
{
    if ps.len() == 0 {
        Seq::empty()
    } else {
        enclosure_seq(sc, ps.drop_last(), s, c) + enclosure(
            sc,
            ps.last(),
            s + preorder_seq(ps.drop_last()).len(),
            c,
        )
    }
}

pub open spec fn enclosure_pairs(sc: Seq<Option<ScopeInfo>>, ps: Seq<KeyValue>, s: int, c: PID) -> Seq<PID>
    decreases ps, 0nat,
{
    if ps.len() == 0 {
        Seq::empty()
    } else {
        let at = s + preorder_pairs(ps.drop_last()).len();
        enclosure_pairs(sc, ps.drop_last(), s, c) + enclosure(sc, ps.last().key, at, c) + enclosure(
            sc,
            ps.last().value,
            at + preorder(ps.last().key).len(),
            c,
        )
    }
}

pub open spec fn enclosure_source(sc: Seq<Option<ScopeInfo>>, src: Source, s: int, c: PID) -> Seq<PID>
    decreases src, 0nat,
{
    match src {
        Source::Simple { name } => flat(preorder_name(name).len(), c),
        Source::ReceiveSend { name } => flat(preorder_name(name).len(), c),
        Source::SendReceive { name, inputs } => flat(preorder_name(name).len(), c) + enclosure_seq(
            sc,
            inputs@,
            s + preorder_name(name).len(),
            c,
        ),
    }
}

pub open spec fn enclosure_bind(sc: Seq<Option<ScopeInfo>>, b: Bind, s: int, c: PID) -> Seq<PID>
    decreases b, 0nat,
{
    match b {
        Bind::Linear { lhs, rhs, .. } => flat(preorder_names(lhs).len(), c) + enclosure_source(
            sc,
            rhs,
            s + preorder_names(lhs).len(),
            c,
        ),
        Bind::Repeated { lhs, rhs, .. } => flat(
            preorder_names(lhs).len() + preorder_name(rhs).len(),
            c,
        ),
        Bind::Peek { lhs, rhs, .. } => flat(preorder_names(lhs).len() + preorder_name(rhs).len(), c),
    }
}

pub open spec fn enclosure_binds(sc: Seq<Option<ScopeInfo>>, bs: Seq<Bind>, s: int, c: PID) -> Seq<PID>
    decreases bs, 0nat,
{
    if bs.len() == 0 {
        Seq::empty()
    } else {
        enclosure_binds(sc, bs.drop_last(), s, c) + enclosure_bind(
            sc,
            bs.last(),
            s + preorder_binds(bs.drop_last()).len(),
            c,
        )
    }
}

pub open spec fn enclosure_receipts(sc: Seq<Option<ScopeInfo>>, rs: Seq<Vec<Bind>>, s: int, c: PID) -> Seq<PID>
    decreases rs, 0nat,
{
    if rs.len() == 0 {
        Seq::empty()
    } else {
        enclosure_receipts(sc, rs.drop_last(), s, c) + enclosure_binds(
            sc,
            rs.last()@,
            s + preorder_receipts(rs.drop_last()).len(),
            c,
        )
    }
}

pub open spec fn enclosure_cases(sc: Seq<Option<ScopeInfo>>, cs: Seq<Case>, s: int, c: PID) -> Seq<PID>
    decreases cs, 0nat,
{
    if cs.len() == 0 {
        Seq::empty()
    } else {
        let at = s + preorder_cases(cs.drop_last()).len();
        enclosure_cases(sc, cs.drop_last(), s, c) + enclosure(sc, cs.last().pattern, at, c)
            + enclosure(sc, cs.last().proc, at + preorder(cs.last().pattern).len(), c)
    }
}

pub open spec fn enclosure_lets(sc: Seq<Option<ScopeInfo>>, ls: Seq<LetBinding>, s: int, c: PID) -> Seq<PID>
    decreases ls, 0nat,
{
    if ls.len() == 0 {
        Seq::empty()
    } else {
        let at = s + preorder_lets(ls.drop_last()).len();
        enclosure_lets(sc, ls.drop_last(), s, c) + flat(preorder_names(ls.last().lhs).len(), c)
            + enclosure_seq(sc, ls.last().rhs@, at + preorder_names(ls.last().lhs).len(), c)
    }
}

/// Writing `t` then `u` right after it is writing `t + u`.
proof fn lemma_splice_twice(s: Seq<PID>, at: int, t: Seq<PID>, u: Seq<PID>)
    requires
        0 <= at,
        at + t.len() + u.len() <= s.len(),
    ensures
        splice(splice(s, at, t), at + t.len(), u) == splice(s, at, t + u),
        splice(s, at, t).len() == s.len(),
{
    assert(splice(splice(s, at, t), at + t.len(), u) =~= splice(s, at, t + u));
}

/// The view of `db` with its enclosure table replaced.
pub open spec fn with_enclosing(v: DbView, e: Seq<PID>) -> DbView {
    DbView { enclosing: e, ..v }
}

/// What every step of the walk requires: a consistent database whose table
/// covers the range written, and a current scope that precedes it.
pub open spec fn walk_pre(db: SemanticDb, start: int, len: int, cur: PID) -> bool {
    &&& db.inv()
    &&& 0 <= start
    &&& start + len <= db@.enclosing.len()
    &&& cur == PID::spec_top_level() || cur.0 < start
}

/// Gives the `n` processes from PID `start` on the enclosing process `cur`.
fn set_flat(db: &mut SemanticDb, start: usize, n: usize, cur: PID)
    requires
        walk_pre(*old(db), start as int, n as int, cur),
    ensures
        final(db).inv(),
        final(db)@ == with_enclosing(old(db)@, splice(old(db)@.enclosing, start as int, flat(n as nat, cur))),
{
    let ghost e0 = db@.enclosing;
    proof {
        db.lemma_inv_wf();
    }
    let mut k: usize = 0;
    while k < n
        invariant
            db.inv(),
            k <= n,
            start + n <= e0.len(),
            e0.len() <= index_bound(),
            cur == PID::spec_top_level() || cur.0 < start,
            db@ == with_enclosing(old(db)@, splice(e0, start as int, flat(k as nat, cur))),
            db@.enclosing.len() == e0.len(),
        decreases n - k,
    {
        proof {
            assert(splice(e0, start as int, flat(k as nat, cur)).len() == e0.len());
        }
        db.set_enclosing(PID((start + k) as u32), cur);
        proof {
            assert(splice(e0, start as int, flat(k as nat, cur)).update((start + k) as int, cur)
                =~= splice(e0, start as int, flat((k + 1) as nat, cur)));
        }
        k = k + 1;
    }
}

/// Records the enclosure of `p`, whose PID is `pid`, with `cur` current around it.
fn build_proc(db: &mut SemanticDb, p: &AnnProc, pid: usize, cur: PID)
    requires
        walk_pre(*old(db), pid as int, preorder(*p).len() as int, cur),
    ensures
        final(db).inv(),
        enclosure(old(db)@.scopes, *p, pid as int, cur).len() == preorder(*p).len(),
        final(db)@ == with_enclosing(
            old(db)@,
            splice(old(db)@.enclosing, pid as int, enclosure(old(db)@.scopes, *p, pid as int, cur)),
        ),
    decreases *p, 1nat,
{
    proof {
        db.lemma_inv_wf();
    }
    let ghost v0 = db@;
    let here = PID(pid as u32);
    db.set_enclosing(here, cur);
    proof {
        assert(v0.enclosing.update(pid as int, cur) =~= splice(v0.enclosing, pid as int, seq![cur]));
    }
    let inner = if db.is_scoped(here) {
        here
    } else {
        cur
    };
    build_inside(db, p, pid + 1, inner);
    proof {
        let a = enclosure_inside(v0.scopes, *p, pid + 1, inner);
        lemma_splice_twice(v0.enclosing, pid as int, seq![cur], a);
    }
}

/// The running state of a walk over consecutive pieces: the table holds the
/// enclosure `acc` of what was walked, from `start` on.
pub open spec fn walked(v0: DbView, v: DbView, start: int, acc: Seq<PID>) -> bool {
    v == with_enclosing(v0, splice(v0.enclosing, start, acc))
}

/// Records the enclosure of the processes inside `p`; the first has PID `s`.
fn build_inside(db: &mut SemanticDb, p: &AnnProc, s: usize, c: PID)
    requires
        walk_pre(*old(db), s as int, preorder(*p).len() - 1, c),
    ensures
        final(db).inv(),
        enclosure_inside(old(db)@.scopes, *p, s as int, c).len() == preorder(*p).len() - 1,
        walked(old(db)@, final(db)@, s as int, enclosure_inside(old(db)@.scopes, *p, s as int, c)),
    decreases *p, 0nat,
{
    let ghost v0 = db@;
    let ghost sc = v0.scopes;
    proof {
        db.lemma_inv_wf();
        assert(splice(v0.enclosing, s as int, Seq::empty()) =~= v0.enclosing);
        assert(db@ == with_enclosing(v0, v0.enclosing));
    }
    match &p.proc {
        Proc::Collection(col) => match col {
            Collection::List { elements, .. } => build_seq(db, elements, s, c),
            Collection::Tuple(elements) => build_seq(db, elements, s, c),
            Collection::SetOf { elements, .. } => build_seq(db, elements, s, c),
            Collection::MapOf { elements, .. } => build_pairs(db, elements, s, c),
        },
        Proc::Par { left, right } | Proc::BinaryExp { left, right, .. } => {
            let n = proc_size(left);
            build_proc(db, left, s, c);
            build_proc(db, right, s + n, c);
            proof {
                lemma_splice_twice(v0.enclosing, s as int, enclosure(sc, **left, s as int, c),
                    enclosure(sc, **right, s + n, c));
            }
        },
        Proc::IfThenElse { condition, if_true, if_false } => {
            let a = proc_size(condition);
            let b = proc_size(if_true);
            build_proc(db, condition, s, c);
            build_proc(db, if_true, s + a, c);
            let ghost e1 = enclosure(sc, **condition, s as int, c);
            let ghost e2 = enclosure(sc, **if_true, s + a, c);
            proof {
                lemma_splice_twice(v0.enclosing, s as int, e1, e2);
            }
            match if_false {
                Some(f) => {
                    build_proc(db, f, s + a + b, c);
                    proof {
                        lemma_splice_twice(v0.enclosing, s as int, e1 + e2, enclosure(sc, **f, s + a + b, c));
                    }
                },
                None => {
                    proof {
                        assert(e1 + e2 + Seq::<PID>::empty() =~= e1 + e2);
                    }
                },
            }
        },
        Proc::Send { channel, inputs, .. } => {
            let a = name_size(channel);
            set_flat(db, s, a, c);
            build_seq(db, inputs, s + a, c);
            proof {
                lemma_splice_twice(v0.enclosing, s as int, flat(a as nat, c), enclosure_seq(sc, inputs@, s + a, c));
            }
        },
        Proc::SendSync { channel, inputs, cont } => {
            let a = name_size(channel);
            set_flat(db, s, a, c);
            let b = crate::sizes::seq_size(inputs);
            build_seq(db, inputs, s + a, c);
            let ghost e1 = flat(a as nat, c);
            let ghost e2 = enclosure_seq(sc, inputs@, s + a, c);
            proof {
                lemma_splice_twice(v0.enclosing, s as int, e1, e2);
            }
            match cont {
                SyncSendCont::NonEmpty(k) => {
                    build_proc(db, k, s + a + b, c);
                    proof {
                        lemma_splice_twice(v0.enclosing, s as int, e1 + e2, enclosure(sc, **k, s + a + b, c));
                    }
                },
                SyncSendCont::Empty => {
                    proof {
                        assert(e1 + e2 + Seq::<PID>::empty() =~= e1 + e2);
                    }
                },
            }
        },
        Proc::ForComprehension { receipts, proc } => {
            let a = crate::sizes::receipts_size(receipts);
            build_receipts(db, receipts, s, c);
            build_proc(db, proc, s + a, c);
            proof {
                lemma_splice_twice(v0.enclosing, s as int, enclosure_receipts(sc, receipts@, s as int, c),
                    enclosure(sc, **proc, s + a, c));
            }
        },
        Proc::Match { expression, cases } => {
            let a = proc_size(expression);
            build_proc(db, expression, s, c);
            build_cases(db, cases, s + a, c);
            proof {
                lemma_splice_twice(v0.enclosing, s as int, enclosure(sc, **expression, s as int, c),
                    enclosure_cases(sc, cases@, s + a, c));
            }
        },
        Proc::Bundle { proc, .. } | Proc::New { proc, .. } => {
            build_proc(db, proc, s, c);
        },
        Proc::UnaryExp { arg, .. } => {
            build_proc(db, arg, s, c);
        },
        Proc::Let { bindings, body, .. } => {
            let a = proc_size(body);
            build_proc(db, body, s, c);
            build_lets(db, bindings, s + a, c);
            proof {
                lemma_splice_twice(v0.enclosing, s as int, enclosure(sc, **body, s as int, c),
                    enclosure_lets(sc, bindings@, s + a, c));
            }
        },
        Proc::Contract { name, formals, body } => {
            let a = name_size(name);
            let b = names_size(formals);
            set_flat(db, s, a + b, c);
            build_proc(db, body, s + a + b, c);
            proof {
                lemma_splice_twice(v0.enclosing, s as int, flat((a + b) as nat, c),
                    enclosure(sc, **body, s + a + b, c));
            }
        },
        Proc::Eval { name } => {
            let a = name_size(name);
            set_flat(db, s, a, c);
        },
        Proc::Method { receiver, args, .. } => {
            let a = proc_size(receiver);
            build_proc(db, receiver, s, c);
            build_seq(db, args, s + a, c);
            proof {
                lemma_splice_twice(v0.enclosing, s as int, enclosure(sc, **receiver, s as int, c),
                    enclosure_seq(sc, args@, s + a, c));
            }
        },
        _ => {},
    }
}

/// Records the enclosure of the processes `ps`; the first has PID `s`.
fn build_seq(db: &mut SemanticDb, ps: &Vec<AnnProc>, s: usize, c: PID)
    requires
        walk_pre(*old(db), s as int, preorder_seq(ps@).len() as int, c),
    ensures
        final(db).inv(),
        enclosure_seq(old(db)@.scopes, ps@, s as int, c).len() == preorder_seq(ps@).len(),
        walked(old(db)@, final(db)@, s as int, enclosure_seq(old(db)@.scopes, ps@, s as int, c)),
    decreases *ps, 0nat,
{
    let ghost v0 = db@;
    let ghost sc = v0.scopes;
    proof {
        db.lemma_inv_wf();
        assert(ps@.take(0) =~= Seq::<AnnProc>::empty());
        assert(splice(v0.enclosing, s as int, Seq::empty()) =~= v0.enclosing);
    }
    let mut next = s;
    let mut i: usize = 0;
    while i < ps.len()
        invariant
            db.inv(),
            sc == v0.scopes,
            i <= ps@.len(),
            s + preorder_seq(ps@).len() <= v0.enclosing.len(),
            v0.enclosing.len() <= index_bound(),
            c == PID::spec_top_level() || c.0 < s,
            next == s + preorder_seq(ps@.take(i as int)).len(),
            enclosure_seq(sc, ps@.take(i as int), s as int, c).len() == preorder_seq(ps@.take(i as int)).len(),
            walked(v0, db@, s as int, enclosure_seq(sc, ps@.take(i as int), s as int, c)),
        decreases ps@.len() - i,
    {
        proof {
            assert(ps@.take(i + 1).drop_last() =~= ps@.take(i as int));
            lemma_seq_prefix(ps@, i + 1);
            lemma_splice_twice(v0.enclosing, s as int, Seq::empty(), Seq::empty());
        }
        let n = proc_size(&ps[i]);
        build_proc(db, &ps[i], next, c);
        proof {
            lemma_splice_twice(v0.enclosing, s as int, enclosure_seq(sc, ps@.take(i as int), s as int, c),
                enclosure(sc, ps@[i as int], next as int, c));
        }
        next = next + n;
        i = i + 1;
    }
    proof {
        assert(ps@.take(i as int) =~= ps@);
    }
}

/// Records the enclosure of the key-value pairs `ps`; the first key has PID `s`.
fn build_pairs(db: &mut SemanticDb, ps: &Vec<KeyValue>, s: usize, c: PID)
    requires
        walk_pre(*old(db), s as int, preorder_pairs(ps@).len() as int, c),
    ensures
        final(db).inv(),
        enclosure_pairs(old(db)@.scopes, ps@, s as int, c).len() == preorder_pairs(ps@).len(),
        walked(old(db)@, final(db)@, s as int, enclosure_pairs(old(db)@.scopes, ps@, s as int, c)),
    decreases *ps, 0nat,
{
    let ghost v0 = db@;
    let ghost sc = v0.scopes;
    proof {
        db.lemma_inv_wf();
        assert(ps@.take(0) =~= Seq::<KeyValue>::empty());
        assert(splice(v0.enclosing, s as int, Seq::empty()) =~= v0.enclosing);
    }
    let mut next = s;
    let mut i: usize = 0;
    while i < ps.len()
        invariant
            db.inv(),
            sc == v0.scopes,
            i <= ps@.len(),
            s + preorder_pairs(ps@).len() <= v0.enclosing.len(),
            v0.enclosing.len() <= index_bound(),
            c == PID::spec_top_level() || c.0 < s,
            next == s + preorder_pairs(ps@.take(i as int)).len(),
            enclosure_pairs(sc, ps@.take(i as int), s as int, c).len() == preorder_pairs(ps@.take(i as int)).len(),
            walked(v0, db@, s as int, enclosure_pairs(sc, ps@.take(i as int), s as int, c)),
        decreases ps@.len() - i,
    {
        proof {
            assert(ps@.take(i + 1).drop_last() =~= ps@.take(i as int));
            lemma_pairs_prefix(ps@, i + 1);
        }
        let a = proc_size(&ps[i].key);
        let b = proc_size(&ps[i].value);
        let ghost acc = enclosure_pairs(sc, ps@.take(i as int), s as int, c);
        build_proc(db, &ps[i].key, next, c);
        build_proc(db, &ps[i].value, next + a, c);
        proof {
            let ek = enclosure(sc, ps@[i as int].key, next as int, c);
            let ev = enclosure(sc, ps@[i as int].value, next + a, c);
            lemma_splice_twice(v0.enclosing, s as int, acc, ek);
            lemma_splice_twice(v0.enclosing, s as int, acc + ek, ev);
        }
        next = next + a + b;
        i = i + 1;
    }
    proof {
        assert(ps@.take(i as int) =~= ps@);
    }
}

/// Records the enclosure of a bind's source; its first process has PID `s`.
fn build_source(db: &mut SemanticDb, src: &Source, s: usize, c: PID)
    requires
        walk_pre(*old(db), s as int, preorder_source(*src).len() as int, c),
    ensures
        final(db).inv(),
        enclosure_source(old(db)@.scopes, *src, s as int, c).len() == preorder_source(*src).len(),
        walked(old(db)@, final(db)@, s as int, enclosure_source(old(db)@.scopes, *src, s as int, c)),
    decreases *src, 0nat,
{
    let ghost v0 = db@;
    proof {
        db.lemma_inv_wf();
    }
    match src {
        Source::Simple { name } | Source::ReceiveSend { name } => {
            let a = name_size(name);
            set_flat(db, s, a, c);
        },
        Source::SendReceive { name, inputs } => {
            let a = name_size(name);
            set_flat(db, s, a, c);
            build_seq(db, inputs, s + a, c);
            proof {
                lemma_splice_twice(v0.enclosing, s as int, flat(a as nat, c),
                    enclosure_seq(v0.scopes, inputs@, s + a, c));
            }
        },
    }
}

/// Records the enclosure of a bind; its first process has PID `s`.
fn build_bind(db: &mut SemanticDb, b: &Bind, s: usize, c: PID)
    requires
        walk_pre(*old(db), s as int, preorder_bind(*b).len() as int, c),
    ensures
        final(db).inv(),
        enclosure_bind(old(db)@.scopes, *b, s as int, c).len() == preorder_bind(*b).len(),
        walked(old(db)@, final(db)@, s as int, enclosure_bind(old(db)@.scopes, *b, s as int, c)),
    decreases *b, 0nat,
{
    let ghost v0 = db@;
    proof {
        db.lemma_inv_wf();
    }
    match b {
        Bind::Linear { lhs, rhs, .. } => {
            let a = names_size(lhs);
            set_flat(db, s, a, c);
            build_source(db, rhs, s + a, c);
            proof {
                lemma_splice_twice(v0.enclosing, s as int, flat(a as nat, c),
                    enclosure_source(v0.scopes, *rhs, s + a, c));
            }
        },
        Bind::Repeated { lhs, rhs, .. } | Bind::Peek { lhs, rhs, .. } => {
            let a = names_size(lhs);
            let k = name_size(rhs);
            set_flat(db, s, a + k, c);
        },
    }
}

/// Records the enclosure of a group of binds; the first process has PID `s`.
fn build_binds(db: &mut SemanticDb, bs: &Vec<Bind>, s: usize, c: PID)
    requires
        walk_pre(*old(db), s as int, preorder_binds(bs@).len() as int, c),
    ensures
        final(db).inv(),
        enclosure_binds(old(db)@.scopes, bs@, s as int, c).len() == preorder_binds(bs@).len(),
        walked(old(db)@, final(db)@, s as int, enclosure_binds(old(db)@.scopes, bs@, s as int, c)),
    decreases *bs, 0nat,
{
    let ghost v0 = db@;
    let ghost sc = v0.scopes;
    proof {
        db.lemma_inv_wf();
        assert(bs@.take(0) =~= Seq::<Bind>::empty());
        assert(splice(v0.enclosing, s as int, Seq::empty()) =~= v0.enclosing);
    }
    let mut next = s;
    let mut i: usize = 0;
    while i < bs.len()
        invariant
            db.inv(),
            sc == v0.scopes,
            i <= bs@.len(),
            s + preorder_binds(bs@).len() <= v0.enclosing.len(),
            v0.enclosing.len() <= index_bound(),
            c == PID::spec_top_level() || c.0 < s,
            next == s + preorder_binds(bs@.take(i as int)).len(),
            enclosure_binds(sc, bs@.take(i as int), s as int, c).len() == preorder_binds(bs@.take(i as int)).len(),
            walked(v0, db@, s as int, enclosure_binds(sc, bs@.take(i as int), s as int, c)),
        decreases bs@.len() - i,
    {
        proof {
            assert(bs@.take(i + 1).drop_last() =~= bs@.take(i as int));
            lemma_binds_prefix(bs@, i + 1);
        }
        let n = crate::sizes::bind_size(&bs[i]);
        build_bind(db, &bs[i], next, c);
        proof {
            lemma_splice_twice(v0.enclosing, s as int, enclosure_binds(sc, bs@.take(i as int), s as int, c),
                enclosure_bind(sc, bs@[i as int], next as int, c));
        }
        next = next + n;
        i = i + 1;
    }
    proof {
        assert(bs@.take(i as int) =~= bs@);
    }
}

/// Records the enclosure of the receipts of a `for`; the first process has PID `s`.
fn build_receipts(db: &mut SemanticDb, rs: &Vec<Vec<Bind>>, s: usize, c: PID)
    requires
        walk_pre(*old(db), s as int, preorder_receipts(rs@).len() as int, c),
    ensures
        final(db).inv(),
        enclosure_receipts(old(db)@.scopes, rs@, s as int, c).len() == preorder_receipts(rs@).len(),
        walked(old(db)@, final(db)@, s as int, enclosure_receipts(old(db)@.scopes, rs@, s as int, c)),
    decreases *rs, 0nat,
{
    let ghost v0 = db@;
    let ghost sc = v0.scopes;
    proof {
        db.lemma_inv_wf();
        assert(rs@.take(0) =~= Seq::<Vec<Bind>>::empty());
        assert(splice(v0.enclosing, s as int, Seq::empty()) =~= v0.enclosing);
    }
    let mut next = s;
    let mut i: usize = 0;
    while i < rs.len()
        invariant
            db.inv(),
            sc == v0.scopes,
            i <= rs@.len(),
            s + preorder_receipts(rs@).len() <= v0.enclosing.len(),
            v0.enclosing.len() <= index_bound(),
            c == PID::spec_top_level() || c.0 < s,
            next == s + preorder_receipts(rs@.take(i as int)).len(),
            enclosure_receipts(sc, rs@.take(i as int), s as int, c).len() == preorder_receipts(rs@.take(i as int)).len(),
            walked(v0, db@, s as int, enclosure_receipts(sc, rs@.take(i as int), s as int, c)),
        decreases rs@.len() - i,
    {
        proof {
            assert(rs@.take(i + 1).drop_last() =~= rs@.take(i as int));
            lemma_receipts_prefix(rs@, i + 1);
        }
        let n = crate::sizes::binds_size(&rs[i]);
        build_binds(db, &rs[i], next, c);
        proof {
            lemma_splice_twice(v0.enclosing, s as int, enclosure_receipts(sc, rs@.take(i as int), s as int, c),
                enclosure_binds(sc, rs@[i as int]@, next as int, c));
        }
        next = next + n;
        i = i + 1;
    }
    proof {
        assert(rs@.take(i as int) =~= rs@);
    }
}

/// Records the enclosure of the cases of a `match`; the first pattern has PID `s`.
fn build_cases(db: &mut SemanticDb, cs: &Vec<Case>, s: usize, c: PID)
    requires
        walk_pre(*old(db), s as int, preorder_cases(cs@).len() as int, c),
    ensures
        final(db).inv(),
        enclosure_cases(old(db)@.scopes, cs@, s as int, c).len() == preorder_cases(cs@).len(),
        walked(old(db)@, final(db)@, s as int, enclosure_cases(old(db)@.scopes, cs@, s as int, c)),
    decreases *cs, 0nat,
{
    let ghost v0 = db@;
    let ghost sc = v0.scopes;
    proof {
        db.lemma_inv_wf();
        assert(cs@.take(0) =~= Seq::<Case>::empty());
        assert(splice(v0.enclosing, s as int, Seq::empty()) =~= v0.enclosing);
    }
    let mut next = s;
    let mut i: usize = 0;
    while i < cs.len()
        invariant
            db.inv(),
            sc == v0.scopes,
            i <= cs@.len(),
            s + preorder_cases(cs@).len() <= v0.enclosing.len(),
            v0.enclosing.len() <= index_bound(),
            c == PID::spec_top_level() || c.0 < s,
            next == s + preorder_cases(cs@.take(i as int)).len(),
            enclosure_cases(sc, cs@.take(i as int), s as int, c).len() == preorder_cases(cs@.take(i as int)).len(),
            walked(v0, db@, s as int, enclosure_cases(sc, cs@.take(i as int), s as int, c)),
        decreases cs@.len() - i,
    {
        proof {
            assert(cs@.take(i + 1).drop_last() =~= cs@.take(i as int));
            lemma_cases_prefix(cs@, i + 1);
        }
        let a = proc_size(&cs[i].pattern);
        let b = proc_size(&cs[i].proc);
        let ghost acc = enclosure_cases(sc, cs@.take(i as int), s as int, c);
        build_proc(db, &cs[i].pattern, next, c);
        build_proc(db, &cs[i].proc, next + a, c);
        proof {
            let ep = enclosure(sc, cs@[i as int].pattern, next as int, c);
            let eb = enclosure(sc, cs@[i as int].proc, next + a, c);
            lemma_splice_twice(v0.enclosing, s as int, acc, ep);
            lemma_splice_twice(v0.enclosing, s as int, acc + ep, eb);
        }
        next = next + a + b;
        i = i + 1;
    }
    proof {
        assert(cs@.take(i as int) =~= cs@);
    }
}

/// Records the enclosure of the declarations of a `let`; the first process has PID `s`.
fn build_lets(db: &mut SemanticDb, ls: &Vec<LetBinding>, s: usize, c: PID)
    requires
        walk_pre(*old(db), s as int, preorder_lets(ls@).len() as int, c),
    ensures
        final(db).inv(),
        enclosure_lets(old(db)@.scopes, ls@, s as int, c).len() == preorder_lets(ls@).len(),
        walked(old(db)@, final(db)@, s as int, enclosure_lets(old(db)@.scopes, ls@, s as int, c)),
    decreases *ls, 0nat,
{
    let ghost v0 = db@;
    let ghost sc = v0.scopes;
    proof {
        db.lemma_inv_wf();
        assert(ls@.take(0) =~= Seq::<LetBinding>::empty());
        assert(splice(v0.enclosing, s as int, Seq::empty()) =~= v0.enclosing);
    }
    let mut next = s;
    let mut i: usize = 0;
    while i < ls.len()
        invariant
            db.inv(),
            sc == v0.scopes,
            i <= ls@.len(),
            s + preorder_lets(ls@).len() <= v0.enclosing.len(),
            v0.enclosing.len() <= index_bound(),
            c == PID::spec_top_level() || c.0 < s,
            next == s + preorder_lets(ls@.take(i as int)).len(),
            enclosure_lets(sc, ls@.take(i as int), s as int, c).len() == preorder_lets(ls@.take(i as int)).len(),
            walked(v0, db@, s as int, enclosure_lets(sc, ls@.take(i as int), s as int, c)),
        decreases ls@.len() - i,
    {
        proof {
            assert(ls@.take(i + 1).drop_last() =~= ls@.take(i as int));
            lemma_lets_prefix(ls@, i + 1);
        }
        let a = names_size(&ls[i].lhs);
        let b = crate::sizes::seq_size(&ls[i].rhs);
        let ghost acc = enclosure_lets(sc, ls@.take(i as int), s as int, c);
        set_flat(db, next, a, c);
        build_seq(db, &ls[i].rhs, next + a, c);
        proof {
            let en = flat(a as nat, c);
            let er = enclosure_seq(sc, ls@[i as int].rhs@, next + a, c);
            lemma_splice_twice(v0.enclosing, s as int, acc, en);
            lemma_splice_twice(v0.enclosing, s as int, acc + en, er);
        }
        next = next + a + b;
        i = i + 1;
    }
    proof {
        assert(ls@.take(i as int) =~= ls@);
    }
}

/// The walk's starting state: nothing is around the root.
pub struct Builder {
    current: PID,
}

impl Builder {
    /// The scope current where the walk starts.
    pub closed spec fn spec_current(&self) -> PID {
        self.current
    }

    pub fn new() -> (r: Builder)
        ensures
            r.spec_current() == PID::spec_top_level(),
    {
        Builder { current: PID::top_level() }
    }

    /// Records the enclosure of the tree `root`, whose PID is `pid`.
    pub fn build(self, db: &mut SemanticDb, root: &AnnProc, pid: usize)
        requires
            walk_pre(*old(db), pid as int, preorder(*root).len() as int, self.spec_current()),
        ensures
            final(db).inv(),
            enclosure(old(db)@.scopes, *root, pid as int, self.spec_current()).len() == preorder(*root).len(),
            final(db)@ == with_enclosing(
                old(db)@,
                splice(
                    old(db)@.enclosing,
                    pid as int,
                    enclosure(old(db)@.scopes, *root, pid as int, self.spec_current()),
                ),
            ),
    {
        build_proc(db, root, pid, self.current);
    }
}

/// Computes the enclosure relation of the tree rooted at one process.
pub struct EnclosureAnalysisPass {
    root: PID,
}

impl EnclosureAnalysisPass {
    pub closed spec fn spec_root(&self) -> PID {
        self.root
    }

    /// The root of the tree the pass works on.
    pub fn root(&self) -> (r: PID)
        ensures
            r == self.spec_root(),
    {
        self.root
    }

    pub fn new(root: PID) -> (r: Self)
        ensures
            r.spec_root() == root,
    {
        EnclosureAnalysisPass { root }
    }

    /// `EnclosureAnalysis(<root>)`.
    pub fn name(&self) -> (r: String)
        ensures
            r@ == "EnclosureAnalysis("@ + decimal((self.spec_root().0) as nat) + ")"@,
    {
        let mut r = String::from_str("EnclosureAnalysis(");
        let n = u32_to_string(self.root.0);
        r.append(n.as_str());
        r.append(")");
        r
    }

    /// Gives every indexed process a slot in the enclosure table, then records
    /// the enclosing process of every process of the tree: the root and the
    /// processes around it keep the top level.
    pub fn run(&self, db: &mut SemanticDb)
        requires
            old(db).inv(),
            self.spec_root().0 < old(db)@.procs.len(),
        ensures
            final(db).inv(),
            final(db)@ == with_enclosing(
                old(db)@,
                splice(
                    resized(old(db)@),
                    self.spec_root().0 as int,
                    enclosure(
                        old(db)@.scopes,
                        old(db)@.procs[self.spec_root().0 as int],
                        self.spec_root().0 as int,
                        PID::spec_top_level(),
                    ),
                ),
            ),
    {
        proof {
            db.lemma_inv_wf();
            assert(self.root.0 + preorder(db@.procs[self.root.0 as int]).len() <= db@.procs.len());
        }
        db.resize_enclosing();
        let root = db.proc_at(self.root);
        let builder = Builder::new();
        builder.build(db, root, self.root.0 as usize);
    }
}

/// The enclosure table after every indexed process has a slot; new slots
/// hold the top-level sentinel.
pub open spec fn resized(v: DbView) -> Seq<PID> {
    v.enclosing + Seq::new((v.procs.len() - v.enclosing.len()) as nat, |_i: int| PID::spec_top_level())
}

} // verus!
