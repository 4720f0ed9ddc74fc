//! In a preorder, the processes inside a process follow it directly: the
//! subtree of the process at position `k` ends inside the sequence.
use crate::ast::{AnnProc, Bind, Case, Collection, KeyValue, LetBinding, Name, Names, Proc, Source, SyncSendCont};
use crate::tree::{
    preorder, preorder_bind, preorder_binds, preorder_cases, preorder_lets, preorder_name,
    preorder_name_seq, preorder_names, preorder_pairs, preorder_receipts, preorder_seq,
    preorder_source,
};
use vstd::prelude::*;

verus! {

/// The subtree of every process of `s` ends within `s`.
pub open spec fn subtrees_fit(s: Seq<AnnProc>) -> bool {
    forall|k: int| 0 <= k < s.len() ==> k + #[trigger] preorder(s[k]).len() <= s.len()
}

/// Two sequences whose subtrees fit can be put one after the other.
pub proof fn lemma_fit_concat(a: Seq<AnnProc>, b: Seq<AnnProc>)
    requires
        subtrees_fit(a),
        subtrees_fit(b),
    ensures
        subtrees_fit(a + b),
{
    assert forall|k: int| 0 <= k < (a + b).len() implies k + #[trigger] preorder((a + b)[k]).len() <= (a
        + b).len() by {
        if k < a.len() {
            assert((a + b)[k] == a[k]);
        } else {
            assert((a + b)[k] == b[k - a.len()]);
        }
    }
}

/// The preorder of a process is a sequence whose subtrees fit.
pub proof fn lemma_fit_proc(p: AnnProc)
    ensures
        subtrees_fit(preorder(p)),
    decreases p, 1nat,
{
    let inner = preorder(p).skip(1);
    lemma_fit_inside(p);
    assert(preorder(p) =~= seq![p] + inner);
    assert forall|k: int| 0 <= k < preorder(p).len() implies k + #[trigger] preorder(preorder(p)[k]).len()
        <= preorder(p).len() by {
        if k > 0 {
            assert(preorder(p)[k] == inner[k - 1]);
        }
    }
}

/// The processes strictly inside `p`, in preorder, form a sequence whose subtrees fit.
proof fn lemma_fit_inside(p: AnnProc)
    ensures
        subtrees_fit(preorder(p).skip(1)),
    decreases p, 0nat,
{
    let rest = preorder(p).skip(1);
    match p.proc {
        Proc::Collection(col) => match col {
            Collection::List { elements, .. } => {
                lemma_fit_seq(elements@);
                assert(rest =~= preorder_seq(elements@));
            },
            Collection::Tuple(elements) => {
                lemma_fit_seq(elements@);
                assert(rest =~= preorder_seq(elements@));
            },
            Collection::SetOf { elements, .. } => {
                lemma_fit_seq(elements@);
                assert(rest =~= preorder_seq(elements@));
            },
            Collection::MapOf { elements, .. } => {
                lemma_fit_pairs(elements@);
                assert(rest =~= preorder_pairs(elements@));
            },
        },
        Proc::Par { left, right } => {
            lemma_fit_proc(*left);
            lemma_fit_proc(*right);
            lemma_fit_concat(preorder(*left), preorder(*right));
            assert(rest =~= preorder(*left) + preorder(*right));
        },
        Proc::BinaryExp { left, right, .. } => {
            lemma_fit_proc(*left);
            lemma_fit_proc(*right);
            lemma_fit_concat(preorder(*left), preorder(*right));
            assert(rest =~= preorder(*left) + preorder(*right));
        },
        Proc::IfThenElse { condition, if_true, if_false } => {
            lemma_fit_proc(*condition);
            lemma_fit_proc(*if_true);
            lemma_fit_concat(preorder(*condition), preorder(*if_true));
            let e = match if_false {
                Some(f) => {
                    lemma_fit_proc(*f);
                    preorder(*f)
                },
                None => Seq::empty(),
            };
            lemma_fit_concat(preorder(*condition) + preorder(*if_true), e);
            assert(rest =~= preorder(*condition) + preorder(*if_true) + e);
        },
        Proc::Send { channel, inputs, .. } => {
            lemma_fit_name(channel);
            lemma_fit_seq(inputs@);
            lemma_fit_concat(preorder_name(channel), preorder_seq(inputs@));
            assert(rest =~= preorder_name(channel) + preorder_seq(inputs@));
        },
        Proc::SendSync { channel, inputs, cont } => {
            lemma_fit_name(channel);
            lemma_fit_seq(inputs@);
            lemma_fit_concat(preorder_name(channel), preorder_seq(inputs@));
            let e = match cont {
                SyncSendCont::Empty => Seq::empty(),
                SyncSendCont::NonEmpty(k) => {
                    lemma_fit_proc(*k);
                    preorder(*k)
                },
            };
            lemma_fit_concat(preorder_name(channel) + preorder_seq(inputs@), e);
            assert(rest =~= preorder_name(channel) + preorder_seq(inputs@) + e);
        },
        Proc::ForComprehension { receipts, proc } => {
            lemma_fit_receipts(receipts@);
            lemma_fit_proc(*proc);
            lemma_fit_concat(preorder_receipts(receipts@), preorder(*proc));
            assert(rest =~= preorder_receipts(receipts@) + preorder(*proc));
        },
        Proc::Match { expression, cases } => {
            lemma_fit_proc(*expression);
            lemma_fit_cases(cases@);
            lemma_fit_concat(preorder(*expression), preorder_cases(cases@));
            assert(rest =~= preorder(*expression) + preorder_cases(cases@));
        },
        Proc::Bundle { proc, .. } => {
            lemma_fit_proc(*proc);
            assert(rest =~= preorder(*proc));
        },
        Proc::New { proc, .. } => {
            lemma_fit_proc(*proc);
            assert(rest =~= preorder(*proc));
        },
        Proc::UnaryExp { arg, .. } => {
            lemma_fit_proc(*arg);
            assert(rest =~= preorder(*arg));
        },
        Proc::Let { bindings, body, .. } => {
            lemma_fit_proc(*body);
            lemma_fit_lets(bindings@);
            lemma_fit_concat(preorder(*body), preorder_lets(bindings@));
            assert(rest =~= preorder(*body) + preorder_lets(bindings@));
        },
        Proc::Contract { name, formals, body } => {
            lemma_fit_name(name);
            lemma_fit_names(formals);
            lemma_fit_proc(*body);
            lemma_fit_concat(preorder_name(name), preorder_names(formals));
            lemma_fit_concat(preorder_name(name) + preorder_names(formals), preorder(*body));
            assert(rest =~= preorder_name(name) + preorder_names(formals) + preorder(*body));
        },
        Proc::Eval { name } => {
            lemma_fit_name(name);
            assert(rest =~= preorder_name(name));
        },
        Proc::Method { receiver, args, .. } => {
            lemma_fit_proc(*receiver);
            lemma_fit_seq(args@);
            lemma_fit_concat(preorder(*receiver), preorder_seq(args@));
            assert(rest =~= preorder(*receiver) + preorder_seq(args@));
        },
        _ => {
            assert(rest =~= Seq::<AnnProc>::empty());
        },
    }
}

proof fn lemma_fit_seq(ps: Seq<AnnProc>)
    ensures
        subtrees_fit(preorder_seq(ps)),
    decreases ps, 0nat,
{
    if ps.len() > 0 {
        lemma_fit_seq(ps.drop_last());
        lemma_fit_proc(ps.last());
        lemma_fit_concat(preorder_seq(ps.drop_last()), preorder(ps.last()));
    }
}

proof fn lemma_fit_pairs(ps: Seq<KeyValue>)
    ensures
        subtrees_fit(preorder_pairs(ps)),
    decreases ps, 0nat,
{
    if ps.len() > 0 {
        lemma_fit_pairs(ps.drop_last());
        lemma_fit_proc(ps.last().key);
        lemma_fit_proc(ps.last().value);
        lemma_fit_concat(preorder_pairs(ps.drop_last()), preorder(ps.last().key));
        lemma_fit_concat(preorder_pairs(ps.drop_last()) + preorder(ps.last().key), preorder(ps.last().value));
    }
}

proof fn lemma_fit_name(n: Name)
    ensures
        subtrees_fit(preorder_name(n)),
    decreases n, 0nat,
{
    match n {
        Name::Quote(p) => lemma_fit_proc(*p),
        Name::NameVar(_) => {},
    }
}

proof fn lemma_fit_name_seq(ns: Seq<Name>)
    ensures
        subtrees_fit(preorder_name_seq(ns)),
    decreases ns, 0nat,
{
    if ns.len() > 0 {
        lemma_fit_name_seq(ns.drop_last());
        lemma_fit_name(ns.last());
        lemma_fit_concat(preorder_name_seq(ns.drop_last()), preorder_name(ns.last()));
    }
}

proof fn lemma_fit_names(ns: Names)
    ensures
        subtrees_fit(preorder_names(ns)),
    decreases ns, 0nat,
{
    lemma_fit_name_seq(ns.names@);
}

proof fn lemma_fit_source(s: Source)
    ensures
        subtrees_fit(preorder_source(s)),
    decreases s, 0nat,
{
    match s {
        Source::Simple { name } => lemma_fit_name(name),
        Source::ReceiveSend { name } => lemma_fit_name(name),
        Source::SendReceive { name, inputs } => {
            lemma_fit_name(name);
            lemma_fit_seq(inputs@);
            lemma_fit_concat(preorder_name(name), preorder_seq(inputs@));
        },
    }
}

proof fn lemma_fit_bind(b: Bind)
    ensures
        subtrees_fit(preorder_bind(b)),
    decreases b, 0nat,
{
    match b {
        Bind::Linear { lhs, rhs, .. } => {
            lemma_fit_names(lhs);
            lemma_fit_source(rhs);
            lemma_fit_concat(preorder_names(lhs), preorder_source(rhs));
        },
        Bind::Repeated { lhs, rhs, .. } => {
            lemma_fit_names(lhs);
            lemma_fit_name(rhs);
            lemma_fit_concat(preorder_names(lhs), preorder_name(rhs));
        },
        Bind::Peek { lhs, rhs, .. } => {
            lemma_fit_names(lhs);
            lemma_fit_name(rhs);
            lemma_fit_concat(preorder_names(lhs), preorder_name(rhs));
        },
    }
}

proof fn lemma_fit_binds(bs: Seq<Bind>)
    ensures
        subtrees_fit(preorder_binds(bs)),
    decreases bs, 0nat,
{
    if bs.len() > 0 {
        lemma_fit_binds(bs.drop_last());
        lemma_fit_bind(bs.last());
        lemma_fit_concat(preorder_binds(bs.drop_last()), preorder_bind(bs.last()));
    }
}

proof fn lemma_fit_receipts(rs: Seq<Vec<Bind>>)
    ensures
        subtrees_fit(preorder_receipts(rs)),
    decreases rs, 0nat,
{
    if rs.len() > 0 {
        lemma_fit_receipts(rs.drop_last());
        lemma_fit_binds(rs.last()@);
        lemma_fit_concat(preorder_receipts(rs.drop_last()), preorder_binds(rs.last()@));
    }
}

proof fn lemma_fit_cases(cs: Seq<Case>)
    ensures
        subtrees_fit(preorder_cases(cs)),
    decreases cs, 0nat,
{
    if cs.len() > 0 {
        lemma_fit_cases(cs.drop_last());
        lemma_fit_proc(cs.last().pattern);
        lemma_fit_proc(cs.last().proc);
        lemma_fit_concat(preorder_cases(cs.drop_last()), preorder(cs.last().pattern));
        lemma_fit_concat(preorder_cases(cs.drop_last()) + preorder(cs.last().pattern), preorder(cs.last().proc));
    }
}

proof fn lemma_fit_lets(ls: Seq<LetBinding>)
    ensures
        subtrees_fit(preorder_lets(ls)),
    decreases ls, 0nat,
{
    if ls.len() > 0 {
        lemma_fit_lets(ls.drop_last());
        lemma_fit_names(ls.last().lhs);
        lemma_fit_seq(ls.last().rhs@);
        lemma_fit_concat(preorder_lets(ls.drop_last()), preorder_names(ls.last().lhs));
        lemma_fit_concat(preorder_lets(ls.drop_last()) + preorder_names(ls.last().lhs), preorder_seq(ls.last().rhs@));
    }
}

} // verus!
