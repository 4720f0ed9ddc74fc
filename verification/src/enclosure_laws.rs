//! What the enclosure relation guarantees: the enclosing process of every
//! process is the top level, or a process that introduces a scope and comes
//! before it in preorder.
use crate::ast::{AnnProc, Bind, Case, Collection, KeyValue, LetBinding, Proc, Source, SyncSendCont};
use crate::enclosure::{
    enclosure, enclosure_bind, enclosure_binds, enclosure_cases, enclosure_inside, enclosure_lets,
    enclosure_pairs, enclosure_receipts, enclosure_seq, enclosure_source, flat, inner_scope,
    opens_scope,
};
use crate::scope::ScopeInfo;
use crate::tree::{
    preorder, preorder_bind, preorder_binds, preorder_cases, preorder_lets, preorder_name,
    preorder_names, preorder_pairs, preorder_receipts, preorder_seq, preorder_source,
};
use crate::types::PID;
use vstd::prelude::*;

verus! {

/// Each entry `k` of `e`, the enclosing processes of the processes from PID
/// `base` on, is `cur` or a process that introduces a scope and lies in
/// `[base, base + k)`.
pub open spec fn enclosure_sound(sc: Seq<Option<ScopeInfo>>, e: Seq<PID>, base: int, cur: PID) -> bool {
    forall|k: int|
        0 <= k < e.len() ==> #[trigger] e[k] == cur || (opens_scope(sc, e[k].0 as int) && base <= e[k].0
            < base + k)
}

proof fn lemma_concat_sound(sc: Seq<Option<ScopeInfo>>, a: Seq<PID>, b: Seq<PID>, s: int, c: PID)
    requires
        enclosure_sound(sc, a, s, c),
        enclosure_sound(sc, b, s + a.len(), c),
    ensures
        enclosure_sound(sc, a + b, s, c),
{
    assert forall|k: int| 0 <= k < (a + b).len() implies #[trigger] (a + b)[k] == c || (opens_scope(
        sc,
        (a + b)[k].0 as int,
    ) && s <= (a + b)[k].0 < s + k) by {
        if k < a.len() {
            assert((a + b)[k] == a[k]);
        } else {
            assert((a + b)[k] == b[k - a.len()]);
        }
    }
}

/// The enclosure of a process has one entry per process of its preorder,
/// and is sound.
pub proof fn lemma_enclosure_sound(sc: Seq<Option<ScopeInfo>>, p: AnnProc, pid: int, cur: PID)
    requires
        0 <= pid,
        sc.len() <= u32::MAX,
    ensures
        enclosure(sc, p, pid, cur).len() == preorder(p).len(),
        enclosure_sound(sc, enclosure(sc, p, pid, cur), pid, cur),
    decreases p, 1nat,
{
    let c = inner_scope(sc, pid, cur);
    lemma_inside_sound(sc, p, pid + 1, c);
    let e = enclosure(sc, p, pid, cur);
    let a = enclosure_inside(sc, p, pid + 1, c);
    assert forall|k: int| 0 <= k < e.len() implies #[trigger] e[k] == cur || (opens_scope(sc, e[k].0 as int)
        && pid <= e[k].0 < pid + k) by {
        if k > 0 {
            assert(e[k] == a[k - 1]);
        }
    }
}

proof fn lemma_inside_sound(sc: Seq<Option<ScopeInfo>>, p: AnnProc, s: int, c: PID)
    requires
        0 <= s,
        sc.len() <= u32::MAX,
    ensures
        enclosure_inside(sc, p, s, c).len() == preorder(p).len() - 1,
        enclosure_sound(sc, enclosure_inside(sc, p, s, c), s, c),
    decreases p, 0nat,
{
    match p.proc {
        Proc::Collection(col) => match col {
            Collection::List { elements, .. } => lemma_seq_sound(sc, elements@, s, c),
            Collection::Tuple(elements) => lemma_seq_sound(sc, elements@, s, c),
            Collection::SetOf { elements, .. } => lemma_seq_sound(sc, elements@, s, c),
            Collection::MapOf { elements, .. } => lemma_pairs_sound(sc, elements@, s, c),
        },
        Proc::Par { left, right } => {
            lemma_enclosure_sound(sc, *left, s, c);
            lemma_enclosure_sound(sc, *right, s + preorder(*left).len(), c);
            lemma_concat_sound(sc, enclosure(sc, *left, s, c), enclosure(sc, *right, s + preorder(*left).len(), c), s, c);
        },
        Proc::BinaryExp { left, right, .. } => {
            lemma_enclosure_sound(sc, *left, s, c);
            lemma_enclosure_sound(sc, *right, s + preorder(*left).len(), c);
            lemma_concat_sound(sc, enclosure(sc, *left, s, c), enclosure(sc, *right, s + preorder(*left).len(), c), s, c);
        },
        Proc::IfThenElse { condition, if_true, if_false } => {
            let a = preorder(*condition).len();
            let b = preorder(*if_true).len();
            lemma_enclosure_sound(sc, *condition, s, c);
            lemma_enclosure_sound(sc, *if_true, s + a, c);
            let e1 = enclosure(sc, *condition, s, c);
            let e2 = enclosure(sc, *if_true, s + a, c);
            lemma_concat_sound(sc, e1, e2, s, c);
            match if_false {
                Some(f) => {
                    lemma_enclosure_sound(sc, *f, s + a + b, c);
                    lemma_concat_sound(sc, e1 + e2, enclosure(sc, *f, s + a + b, c), s, c);
                },
                None => {
                    lemma_concat_sound(sc, e1 + e2, Seq::empty(), s, c);
                },
            }
        },
        Proc::Send { channel, inputs, .. } => {
            let a = preorder_name(channel).len();
            lemma_seq_sound(sc, inputs@, s + a, c);
            lemma_concat_sound(sc, flat(a, c), enclosure_seq(sc, inputs@, s + a, c), s, c);
        },
        Proc::SendSync { channel, inputs, cont } => {
            let a = preorder_name(channel).len();
            let b = preorder_seq(inputs@).len();
            lemma_seq_sound(sc, inputs@, s + a, c);
            let e1 = flat(a, c);
            let e2 = enclosure_seq(sc, inputs@, s + a, c);
            lemma_concat_sound(sc, e1, e2, s, c);
            match cont {
                SyncSendCont::NonEmpty(k) => {
                    lemma_enclosure_sound(sc, *k, s + a + b, c);
                    lemma_concat_sound(sc, e1 + e2, enclosure(sc, *k, s + a + b, c), s, c);
                },
                SyncSendCont::Empty => {
                    lemma_concat_sound(sc, e1 + e2, Seq::empty(), s, c);
                },
            }
        },
        Proc::ForComprehension { receipts, proc } => {
            let a = preorder_receipts(receipts@).len();
            lemma_receipts_sound(sc, receipts@, s, c);
            lemma_enclosure_sound(sc, *proc, s + a, c);
            lemma_concat_sound(sc, enclosure_receipts(sc, receipts@, s, c), enclosure(sc, *proc, s + a, c), s, c);
        },
        Proc::Match { expression, cases } => {
            let a = preorder(*expression).len();
            lemma_enclosure_sound(sc, *expression, s, c);
            lemma_cases_sound(sc, cases@, s + a, c);
            lemma_concat_sound(sc, enclosure(sc, *expression, s, c), enclosure_cases(sc, cases@, s + a, c), s, c);
        },
        Proc::Bundle { proc, .. } => {
            lemma_enclosure_sound(sc, *proc, s, c);
        },
        Proc::New { proc, .. } => {
            lemma_enclosure_sound(sc, *proc, s, c);
        },
        Proc::UnaryExp { arg, .. } => {
            lemma_enclosure_sound(sc, *arg, s, c);
        },
        Proc::Let { bindings, body, .. } => {
            let a = preorder(*body).len();
            lemma_enclosure_sound(sc, *body, s, c);
            lemma_lets_sound(sc, bindings@, s + a, c);
            lemma_concat_sound(sc, enclosure(sc, *body, s, c), enclosure_lets(sc, bindings@, s + a, c), s, c);
        },
        Proc::Contract { name, formals, body } => {
            let a = preorder_name(name).len() + preorder_names(formals).len();
            lemma_enclosure_sound(sc, *body, s + a, c);
            lemma_concat_sound(sc, flat(a, c), enclosure(sc, *body, s + a, c), s, c);
        },
        Proc::Eval { name } => {},
        Proc::Method { receiver, args, .. } => {
            let a = preorder(*receiver).len();
            lemma_enclosure_sound(sc, *receiver, s, c);
            lemma_seq_sound(sc, args@, s + a, c);
            lemma_concat_sound(sc, enclosure(sc, *receiver, s, c), enclosure_seq(sc, args@, s + a, c), s, c);
        },
        _ => {},
    }
}

proof fn lemma_seq_sound(sc: Seq<Option<ScopeInfo>>, ps: Seq<AnnProc>, s: int, c: PID)
    requires
        0 <= s,
        sc.len() <= u32::MAX,
    ensures
        enclosure_seq(sc, ps, s, c).len() == preorder_seq(ps).len(),
        enclosure_sound(sc, enclosure_seq(sc, ps, s, c), s, c),
    decreases ps, 0nat,
{
    if ps.len() > 0 {
        let at = s + preorder_seq(ps.drop_last()).len();
        lemma_seq_sound(sc, ps.drop_last(), s, c);
        lemma_enclosure_sound(sc, ps.last(), at, c);
        lemma_concat_sound(sc, enclosure_seq(sc, ps.drop_last(), s, c), enclosure(sc, ps.last(), at, c), s, c);
    }
}

proof fn lemma_pairs_sound(sc: Seq<Option<ScopeInfo>>, ps: Seq<KeyValue>, s: int, c: PID)
    requires
        0 <= s,
        sc.len() <= u32::MAX,
    ensures
        enclosure_pairs(sc, ps, s, c).len() == preorder_pairs(ps).len(),
        enclosure_sound(sc, enclosure_pairs(sc, ps, s, c), s, c),
    decreases ps, 0nat,
{
    if ps.len() > 0 {
        let at = s + preorder_pairs(ps.drop_last()).len();
        lemma_pairs_sound(sc, ps.drop_last(), s, c);
        lemma_enclosure_sound(sc, ps.last().key, at, c);
        lemma_enclosure_sound(sc, ps.last().value, at + preorder(ps.last().key).len(), c);
        let e0 = enclosure_pairs(sc, ps.drop_last(), s, c);
        let ek = enclosure(sc, ps.last().key, at, c);
        lemma_concat_sound(sc, e0, ek, s, c);
        lemma_concat_sound(sc, e0 + ek, enclosure(sc, ps.last().value, at + preorder(ps.last().key).len(), c), s, c);
    }
}

proof fn lemma_source_sound(sc: Seq<Option<ScopeInfo>>, src: Source, s: int, c: PID)
    requires
        0 <= s,
        sc.len() <= u32::MAX,
    ensures
        enclosure_source(sc, src, s, c).len() == preorder_source(src).len(),
        enclosure_sound(sc, enclosure_source(sc, src, s, c), s, c),
    decreases src, 0nat,
{
    match src {
        Source::SendReceive { name, inputs } => {
            let a = preorder_name(name).len();
            lemma_seq_sound(sc, inputs@, s + a, c);
            lemma_concat_sound(sc, flat(a, c), enclosure_seq(sc, inputs@, s + a, c), s, c);
        },
        _ => {},
    }
}

proof fn lemma_bind_sound(sc: Seq<Option<ScopeInfo>>, b: Bind, s: int, c: PID)
    requires
        0 <= s,
        sc.len() <= u32::MAX,
    ensures
        enclosure_bind(sc, b, s, c).len() == preorder_bind(b).len(),
        enclosure_sound(sc, enclosure_bind(sc, b, s, c), s, c),
    decreases b, 0nat,
{
    match b {
        Bind::Linear { lhs, rhs, .. } => {
            let a = preorder_names(lhs).len();
            lemma_source_sound(sc, rhs, s + a, c);
            lemma_concat_sound(sc, flat(a, c), enclosure_source(sc, rhs, s + a, c), s, c);
        },
        _ => {},
    }
}

proof fn lemma_binds_sound(sc: Seq<Option<ScopeInfo>>, bs: Seq<Bind>, s: int, c: PID)
    requires
        0 <= s,
        sc.len() <= u32::MAX,
    ensures
        enclosure_binds(sc, bs, s, c).len() == preorder_binds(bs).len(),
        enclosure_sound(sc, enclosure_binds(sc, bs, s, c), s, c),
    decreases bs, 0nat,
{
    if bs.len() > 0 {
        let at = s + preorder_binds(bs.drop_last()).len();
        lemma_binds_sound(sc, bs.drop_last(), s, c);
        lemma_bind_sound(sc, bs.last(), at, c);
        lemma_concat_sound(sc, enclosure_binds(sc, bs.drop_last(), s, c), enclosure_bind(sc, bs.last(), at, c), s, c);
    }
}

proof fn lemma_receipts_sound(sc: Seq<Option<ScopeInfo>>, rs: Seq<Vec<Bind>>, s: int, c: PID)
    requires
        0 <= s,
        sc.len() <= u32::MAX,
    ensures
        enclosure_receipts(sc, rs, s, c).len() == preorder_receipts(rs).len(),
        enclosure_sound(sc, enclosure_receipts(sc, rs, s, c), s, c),
    decreases rs, 0nat,
{
    if rs.len() > 0 {
        let at = s + preorder_receipts(rs.drop_last()).len();
        lemma_receipts_sound(sc, rs.drop_last(), s, c);
        lemma_binds_sound(sc, rs.last()@, at, c);
        lemma_concat_sound(sc, enclosure_receipts(sc, rs.drop_last(), s, c), enclosure_binds(sc, rs.last()@, at, c), s, c);
    }
}

proof fn lemma_cases_sound(sc: Seq<Option<ScopeInfo>>, cs: Seq<Case>, s: int, c: PID)
    requires
        0 <= s,
        sc.len() <= u32::MAX,
    ensures
        enclosure_cases(sc, cs, s, c).len() == preorder_cases(cs).len(),
        enclosure_sound(sc, enclosure_cases(sc, cs, s, c), s, c),
    decreases cs, 0nat,
{
    if cs.len() > 0 {
        let at = s + preorder_cases(cs.drop_last()).len();
        lemma_cases_sound(sc, cs.drop_last(), s, c);
        lemma_enclosure_sound(sc, cs.last().pattern, at, c);
        lemma_enclosure_sound(sc, cs.last().proc, at + preorder(cs.last().pattern).len(), c);
        let e0 = enclosure_cases(sc, cs.drop_last(), s, c);
        let ep = enclosure(sc, cs.last().pattern, at, c);
        lemma_concat_sound(sc, e0, ep, s, c);
        lemma_concat_sound(sc, e0 + ep, enclosure(sc, cs.last().proc, at + preorder(cs.last().pattern).len(), c), s, c);
    }
}

proof fn lemma_lets_sound(sc: Seq<Option<ScopeInfo>>, ls: Seq<LetBinding>, s: int, c: PID)
    requires
        0 <= s,
        sc.len() <= u32::MAX,
    ensures
        enclosure_lets(sc, ls, s, c).len() == preorder_lets(ls).len(),
        enclosure_sound(sc, enclosure_lets(sc, ls, s, c), s, c),
    decreases ls, 0nat,
{
    if ls.len() > 0 {
        let at = s + preorder_lets(ls.drop_last()).len();
        let a = preorder_names(ls.last().lhs).len();
        lemma_lets_sound(sc, ls.drop_last(), s, c);
        lemma_seq_sound(sc, ls.last().rhs@, at + a, c);
        let e0 = enclosure_lets(sc, ls.drop_last(), s, c);
        lemma_concat_sound(sc, e0, flat(a, c), s, c);
        lemma_concat_sound(sc, e0 + flat(a, c), enclosure_seq(sc, ls.last().rhs@, at + a, c), s, c);
    }
}

/// The enclosing process that the walk records for a process of a tree is
/// the top level, or a process of that tree that introduces a scope and
/// comes before it in preorder.
pub proof fn law_enclosing_precedes(sc: Seq<Option<ScopeInfo>>, root: AnnProc, pid: int, k: int)
    requires
        0 <= pid,
        sc.len() <= u32::MAX,
        0 <= k < preorder(root).len(),
    ensures
        ({
            let e = enclosure(sc, root, pid, PID::spec_top_level())[k];
            e == PID::spec_top_level() || (opens_scope(sc, e.0 as int) && pid <= e.0 < pid + k)
        }),
{
    lemma_enclosure_sound(sc, root, pid, PID::spec_top_level());
}

} // verus!
