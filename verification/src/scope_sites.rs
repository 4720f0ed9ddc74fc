//! The binding constructs of a process, by PID: the processes whose scope
//! resolution records.  A `new`, a `for`, a `let` and a contract have a scope,
//! and so do the pattern of a `match` case and the pattern on the right of
//! `matches`.  PIDs follow the preorder: a process, then the processes inside
//! it, left to right, a `let` listing its body before its declarations.
use crate::ast::{
    AnnProc, BinaryExpOp, Bind, Case, Collection, KeyValue, LetBinding, Name, Proc, Source,
    SyncSendCont, UnaryExpOp,
};
use crate::db::DbView;
use crate::resolver::resolution_step;
use crate::tree::{
    preorder, preorder_binds, preorder_cases, preorder_lets, preorder_name, preorder_names,
    preorder_pairs, preorder_receipts, preorder_seq,
};
use vstd::prelude::*;

verus! {

/// The PIDs of the binding constructs of `p`, whose PID is `pid`, outside its
/// patterns.
pub open spec fn scope_sites(p: AnnProc, pid: int) -> Seq<int>
    decreases p, 0nat,
{
    let first = pid + 1;
    match p.proc {
        Proc::Collection(c) => match c {
            Collection::List { elements, remainder } => if remainder is None {
                scope_sites_seq(elements@, first)
            } else {
                Seq::empty()
            },
            Collection::SetOf { elements, remainder } => if remainder is None {
                scope_sites_seq(elements@, first)
            } else {
                Seq::empty()
            },
            Collection::MapOf { elements, remainder } => if remainder is None {
                scope_sites_pairs(elements@, first)
            } else {
                Seq::empty()
            },
            Collection::Tuple(elements) => scope_sites_seq(elements@, first),
        },
        Proc::Par { left, right } => scope_sites(*left, first) + scope_sites(
            *right,
            first + preorder(*left).len(),
        ),
        Proc::BinaryExp { op, left, right } => if op == BinaryExpOp::Matches {
            scope_sites(*left, first) + seq![first + preorder(*left).len()]
        } else if op.spec_is_connective() {
            Seq::empty()
        } else {
            scope_sites(*left, first) + scope_sites(*right, first + preorder(*left).len())
        },
        Proc::UnaryExp { op, arg } => if op == UnaryExpOp::Negation {
            Seq::empty()
        } else {
            scope_sites(*arg, first)
        },
        Proc::IfThenElse { condition, if_true, if_false } => scope_sites(*condition, first)
            + scope_sites(*if_true, first + preorder(*condition).len()) + match if_false {
            Some(f) => scope_sites(*f, first + preorder(*condition).len() + preorder(*if_true).len()),
            None => Seq::empty(),
        },
        Proc::Send { channel, inputs, .. } => scope_sites_name(channel, first) + scope_sites_seq(
            inputs@,
            first + preorder_name(channel).len(),
        ),
        Proc::SendSync { channel, inputs, cont } => scope_sites_name(channel, first)
            + scope_sites_seq(inputs@, first + preorder_name(channel).len()) + match cont {
            SyncSendCont::Empty => Seq::empty(),
            SyncSendCont::NonEmpty(k) => scope_sites(
                *k,
                first + preorder_name(channel).len() + preorder_seq(inputs@).len(),
            ),
        },
        Proc::ForComprehension { receipts, proc } => seq![pid] + scope_sites_receipts(
            receipts@,
            first,
        ) + scope_sites(*proc, first + preorder_receipts(receipts@).len()),
        Proc::Match { expression, cases } => scope_sites(*expression, first) + scope_sites_cases(
            cases@,
            first + preorder(*expression).len(),
        ),
        Proc::Bundle { proc, .. } => scope_sites(*proc, first),
        Proc::Let { bindings, body, .. } => seq![pid] + scope_sites(*body, first)
            + scope_sites_lets(bindings@, first + preorder(*body).len()),
        Proc::New { proc, .. } => seq![pid] + scope_sites(*proc, first),
        Proc::Contract { name, formals, body } => seq![pid] + scope_sites_name(name, first)
            + scope_sites(*body, first + preorder_name(name).len() + preorder_names(formals).len()),
        Proc::Eval { name } => scope_sites_name(name, first),
        Proc::Method { receiver, args, .. } => scope_sites(*receiver, first) + scope_sites_seq(
            args@,
            first + preorder(*receiver).len(),
        ),
        _ => Seq::empty(),
    }
}

pub open spec fn scope_sites_seq(ps: Seq<AnnProc>, start: int) -> Seq<int>
    decreases ps, 0nat,
{
    if ps.len() == 0 {
        Seq::empty()
    } else {
        scope_sites_seq(ps.drop_last(), start) + scope_sites(
            ps.last(),
            start + preorder_seq(ps.drop_last()).len(),
        )
    }
}

pub open spec fn scope_sites_pairs(ps: Seq<KeyValue>, start: int) -> Seq<int>
    decreases ps, 0nat,
{
    if ps.len() == 0 {
        Seq::empty()
    } else {
        let at = start + preorder_pairs(ps.drop_last()).len();
        scope_sites_pairs(ps.drop_last(), start) + scope_sites(ps.last().key, at) + scope_sites(
            ps.last().value,
            at + preorder(ps.last().key).len(),
        )
    }
}

pub open spec fn scope_sites_name(n: Name, start: int) -> Seq<int>
    decreases n, 0nat,
{
    match n {
        Name::Quote(p) => scope_sites(*p, start),
        Name::NameVar(_) => Seq::empty(),
    }
}

/// Each case pattern, then the binding constructs of the case body.
pub open spec fn scope_sites_cases(cs: Seq<Case>, start: int) -> Seq<int>
    decreases cs, 0nat,
{
    if cs.len() == 0 {
        Seq::empty()
    } else {
        let at = start + preorder_cases(cs.drop_last()).len();
        scope_sites_cases(cs.drop_last(), start) + seq![at] + scope_sites(
            cs.last().proc,
            at + preorder(cs.last().pattern).len(),
        )
    }
}

/// The binding constructs of the right-hand sides of `let` declarations.
pub open spec fn scope_sites_lets(ls: Seq<LetBinding>, start: int) -> Seq<int>
    decreases ls, 0nat,
{
    if ls.len() == 0 {
        Seq::empty()
    } else {
        let at = start + preorder_lets(ls.drop_last()).len();
        scope_sites_lets(ls.drop_last(), start) + scope_sites_seq(
            ls.last().rhs@,
            at + preorder_names(ls.last().lhs).len(),
        )
    }
}

/// The binding constructs of the inputs of a source that starts at `start`.
pub open spec fn scope_sites_source_inputs(s: Source, start: int) -> Seq<int>
    decreases s, 0nat,
{
    match s {
        Source::SendReceive { name, inputs } => scope_sites_seq(
            inputs@,
            start + preorder_name(name).len(),
        ),
        _ => Seq::empty(),
    }
}

/// The binding constructs of the channel of a source that starts at `start`.
pub open spec fn scope_sites_source_name(s: Source, start: int) -> Seq<int>
    decreases s, 0nat,
{
    match s {
        Source::Simple { name } => scope_sites_name(name, start),
        Source::ReceiveSend { name } => scope_sites_name(name, start),
        Source::SendReceive { name, .. } => scope_sites_name(name, start),
    }
}

/// The binding constructs of the inputs of a bind that starts at `start`.
pub open spec fn scope_sites_bind_inputs(b: Bind, start: int) -> Seq<int>
    decreases b, 0nat,
{
    match b {
        Bind::Linear { lhs, rhs, .. } => scope_sites_source_inputs(rhs, start + preorder_names(lhs).len()),
        _ => Seq::empty(),
    }
}

/// The binding constructs of the channel of a bind that starts at `start`.
pub open spec fn scope_sites_bind_name(b: Bind, start: int) -> Seq<int>
    decreases b, 0nat,
{
    match b {
        Bind::Linear { lhs, rhs, .. } => scope_sites_source_name(rhs, start + preorder_names(lhs).len()),
        Bind::Repeated { lhs, rhs, .. } => scope_sites_name(rhs, start + preorder_names(lhs).len()),
        Bind::Peek { lhs, rhs, .. } => scope_sites_name(rhs, start + preorder_names(lhs).len()),
    }
}

pub open spec fn scope_sites_binds_inputs(bs: Seq<Bind>, start: int) -> Seq<int>
    decreases bs, 0nat,
{
    if bs.len() == 0 {
        Seq::empty()
    } else {
        scope_sites_binds_inputs(bs.drop_last(), start) + scope_sites_bind_inputs(
            bs.last(),
            start + preorder_binds(bs.drop_last()).len(),
        )
    }
}

pub open spec fn scope_sites_binds_names(bs: Seq<Bind>, start: int) -> Seq<int>
    decreases bs, 0nat,
{
    if bs.len() == 0 {
        Seq::empty()
    } else {
        scope_sites_binds_names(bs.drop_last(), start) + scope_sites_bind_name(
            bs.last(),
            start + preorder_binds(bs.drop_last()).len(),
        )
    }
}

pub open spec fn scope_sites_receipts(rs: Seq<Vec<Bind>>, start: int) -> Seq<int>
    decreases rs, 0nat,
{
    if rs.len() == 0 {
        Seq::empty()
    } else {
        let at = start + preorder_receipts(rs.drop_last()).len();
        scope_sites_receipts(rs.drop_last(), start) + scope_sites_binds_inputs(rs.last()@, at)
            + scope_sites_binds_names(rs.last()@, at)
    }
}

/// Every process of `pids` has its scope recorded.
pub open spec fn all_scoped(v: DbView, pids: Seq<int>) -> bool {
    forall|i: int|
        0 <= i < pids.len() ==> 0 <= #[trigger] pids[i] < v.scopes.len() && v.scopes[pids[i]] is Some
}

/// A resolution step keeps recorded scopes.
pub broadcast proof fn lemma_scoped_grow(o: DbView, n: DbView, pids: Seq<int>, lo: int, hi: int)
    requires
        #[trigger] all_scoped(o, pids),
        #[trigger] resolution_step(o, n, lo, hi),
    ensures
        all_scoped(n, pids),
{
    assert forall|i: int| 0 <= i < pids.len() implies 0 <= #[trigger] pids[i] < n.scopes.len()
        && n.scopes[pids[i]] is Some by {
        if n.scopes[pids[i]] != o.scopes[pids[i]] {
            assert(o.scopes[pids[i]] is None);
        }
    }
}

pub broadcast proof fn lemma_scoped_concat(v: DbView, a: Seq<int>, b: Seq<int>)
    ensures
        #[trigger] all_scoped(v, a + b) == (all_scoped(v, a) && all_scoped(v, b)),
{
    if all_scoped(v, a + b) {
        assert forall|i: int| 0 <= i < a.len() implies 0 <= #[trigger] a[i] < v.scopes.len()
            && v.scopes[a[i]] is Some by {
            assert((a + b)[i] == a[i]);
        }
        assert forall|i: int| 0 <= i < b.len() implies 0 <= #[trigger] b[i] < v.scopes.len()
            && v.scopes[b[i]] is Some by {
            assert((a + b)[a.len() + i] == b[i]);
        }
    }
    if all_scoped(v, a) && all_scoped(v, b) {
        assert forall|i: int| 0 <= i < (a + b).len() implies 0 <= #[trigger] (a + b)[i] < v.scopes.len()
            && v.scopes[(a + b)[i]] is Some by {
            if i < a.len() {
                assert((a + b)[i] == a[i]);
            } else {
                assert((a + b)[i] == b[i - a.len()]);
            }
        }
    }
}

pub broadcast proof fn lemma_scoped_empty(v: DbView)
    ensures
        #[trigger] all_scoped(v, Seq::<int>::empty()),
{
}

} // verus!
