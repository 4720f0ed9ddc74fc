//! The preorder of processes in a syntax tree: a process comes first, then the
//! processes inside it, left to right.  Quoted processes inside names count;
//! a `let` lists its body before its declarations.
use crate::ast::{
    AnnProc, Bind, Case, Collection, KeyValue, LetBinding, Name, Names, Proc, Source, SyncSendCont,
};
use vstd::prelude::*;

verus! {

/// All processes of `p` in preorder, `p` first.
pub open spec fn preorder(p: AnnProc) -> Seq<AnnProc>
    decreases p, 0nat,
{
    seq![p] + match p.proc {
        Proc::Collection(c) => match c {
            Collection::List { elements, .. } => preorder_seq(elements@),
            Collection::Tuple(elements) => preorder_seq(elements@),
            Collection::SetOf { elements, .. } => preorder_seq(elements@),
            Collection::MapOf { elements, .. } => preorder_pairs(elements@),
        },
        Proc::Par { left, right } => preorder(*left) + preorder(*right),
        Proc::IfThenElse { condition, if_true, if_false } => preorder(*condition) + preorder(
            *if_true,
        ) + match if_false {
            Some(f) => preorder(*f),
            None => Seq::empty(),
        },
        Proc::Send { channel, inputs, .. } => preorder_name(channel) + preorder_seq(inputs@),
        Proc::SendSync { channel, inputs, cont } => preorder_name(channel) + preorder_seq(inputs@)
            + match cont {
            SyncSendCont::Empty => Seq::empty(),
            SyncSendCont::NonEmpty(c) => preorder(*c),
        },
        Proc::ForComprehension { receipts, proc } => preorder_receipts(receipts@) + preorder(
            *proc,
        ),
        Proc::Match { expression, cases } => preorder(*expression) + preorder_cases(cases@),
        Proc::Bundle { proc, .. } => preorder(*proc),
        Proc::Let { bindings, body, .. } => preorder(*body) + preorder_lets(bindings@),
        Proc::New { proc, .. } => preorder(*proc),
        Proc::Contract { name, formals, body } => preorder_name(name) + preorder_names(formals)
            + preorder(*body),
        Proc::Eval { name } => preorder_name(name),
        Proc::Method { receiver, args, .. } => preorder(*receiver) + preorder_seq(args@),
        Proc::UnaryExp { arg, .. } => preorder(*arg),
        Proc::BinaryExp { left, right, .. } => preorder(*left) + preorder(*right),
        _ => Seq::empty(),
    }
}

pub open spec fn preorder_seq(ps: Seq<AnnProc>) -> Seq<AnnProc>
    decreases ps, 0nat,
{
    if ps.len() == 0 {
        Seq::empty()
    } else {
        preorder_seq(ps.drop_last()) + preorder(ps.last())
    }
}

pub open spec fn preorder_pairs(ps: Seq<KeyValue>) -> Seq<AnnProc>
    decreases ps, 0nat,
{
    if ps.len() == 0 {
        Seq::empty()
    } else {
        preorder_pairs(ps.drop_last()) + preorder(ps.last().key) + preorder(ps.last().value)
    }
}

pub open spec fn preorder_name(n: Name) -> Seq<AnnProc>
    decreases n, 0nat,
{
    match n {
        Name::Quote(p) => preorder(*p),
        Name::NameVar(_) => Seq::empty(),
    }
}

pub open spec fn preorder_name_seq(ns: Seq<Name>) -> Seq<AnnProc>
    decreases ns, 0nat,
{
    if ns.len() == 0 {
        Seq::empty()
    } else {
        preorder_name_seq(ns.drop_last()) + preorder_name(ns.last())
    }
}

pub open spec fn preorder_names(ns: Names) -> Seq<AnnProc>
    decreases ns, 0nat,
{
    preorder_name_seq(ns.names@)
}

pub open spec fn preorder_source(s: Source) -> Seq<AnnProc>
    decreases s, 0nat,
{
    match s {
        Source::Simple { name } => preorder_name(name),
        Source::ReceiveSend { name } => preorder_name(name),
        Source::SendReceive { name, inputs } => preorder_name(name) + preorder_seq(inputs@),
    }
}

pub open spec fn preorder_bind(b: Bind) -> Seq<AnnProc>
    decreases b, 0nat,
{
    match b {
        Bind::Linear { lhs, rhs, .. } => preorder_names(lhs) + preorder_source(rhs),
        Bind::Repeated { lhs, rhs, .. } => preorder_names(lhs) + preorder_name(rhs),
        Bind::Peek { lhs, rhs, .. } => preorder_names(lhs) + preorder_name(rhs),
    }
}

pub open spec fn preorder_binds(bs: Seq<Bind>) -> Seq<AnnProc>
    decreases bs, 0nat,
{
    if bs.len() == 0 {
        Seq::empty()
    } else {
        preorder_binds(bs.drop_last()) + preorder_bind(bs.last())
    }
}

pub open spec fn preorder_receipts(rs: Seq<Vec<Bind>>) -> Seq<AnnProc>
    decreases rs, 0nat,
{
    if rs.len() == 0 {
        Seq::empty()
    } else {
        preorder_receipts(rs.drop_last()) + preorder_binds(rs.last()@)
    }
}

pub open spec fn preorder_cases(cs: Seq<Case>) -> Seq<AnnProc>
    decreases cs, 0nat,
{
    if cs.len() == 0 {
        Seq::empty()
    } else {
        preorder_cases(cs.drop_last()) + preorder(cs.last().pattern) + preorder(cs.last().proc)
    }
}

pub open spec fn preorder_lets(ls: Seq<LetBinding>) -> Seq<AnnProc>
    decreases ls, 0nat,
{
    if ls.len() == 0 {
        Seq::empty()
    } else {
        preorder_lets(ls.drop_last()) + preorder_names(ls.last().lhs) + preorder_seq(
            ls.last().rhs@,
        )
    }
}

} // verus!
