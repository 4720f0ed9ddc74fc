//! How many processes a piece of syntax holds: the length of its preorder.
//! The PID of a process inside a tree is the tree's PID plus the sizes of what
//! comes before it in preorder.
use crate::ast::{AnnProc, Bind, Case, Collection, KeyValue, LetBinding, Name, Names, Proc, Source, SyncSendCont};
use crate::index::{
    index_bound, lemma_binds_prefix, lemma_cases_prefix, lemma_lets_prefix, lemma_name_seq_prefix,
    lemma_pairs_prefix, lemma_receipts_prefix, lemma_seq_prefix,
};
use crate::tree::{
    preorder, preorder_bind, preorder_binds, preorder_cases, preorder_lets, preorder_name,
    preorder_name_seq, preorder_names, preorder_pairs, preorder_receipts, preorder_seq,
    preorder_source,
};
use vstd::prelude::*;

verus! {

/// The number of processes in `p`, `p` included.
pub fn proc_size(p: &AnnProc) -> (r: usize)
    requires
        preorder(*p).len() <= index_bound(),
    ensures
        r == preorder(*p).len(),
        r >= 1,
    decreases *p, 1nat,
{
    let inner: usize = match &p.proc {
        Proc::Collection(c) => match c {
            Collection::List { elements, .. } => seq_size(elements),
            Collection::Tuple(elements) => seq_size(elements),
            Collection::SetOf { elements, .. } => seq_size(elements),
            Collection::MapOf { elements, .. } => pairs_size(elements),
        },
        Proc::Par { left, right } => proc_size(left) + proc_size(right),
        Proc::IfThenElse { condition, if_true, if_false } => {
            let a = proc_size(condition);
            let b = proc_size(if_true);
            let c = match if_false {
                Some(f) => proc_size(f),
                None => 0,
            };
            a + b + c
        },
        Proc::Send { channel, inputs, .. } => name_size(channel) + seq_size(inputs),
        Proc::SendSync { channel, inputs, cont } => {
            let a = name_size(channel);
            let b = seq_size(inputs);
            let c = match cont {
                SyncSendCont::Empty => 0,
                SyncSendCont::NonEmpty(k) => proc_size(k),
            };
            a + b + c
        },
        Proc::ForComprehension { receipts, proc } => receipts_size(receipts) + proc_size(proc),
        Proc::Match { expression, cases } => proc_size(expression) + cases_size(cases),
        Proc::Bundle { proc, .. } => proc_size(proc),
        Proc::Let { bindings, body, .. } => proc_size(body) + lets_size(bindings),
        Proc::New { proc, .. } => proc_size(proc),
        Proc::Contract { name, formals, body } => {
            let a = name_size(name);
            let b = names_size(formals);
            let c = proc_size(body);
            a + b + c
        },
        Proc::Eval { name } => name_size(name),
        Proc::Method { receiver, args, .. } => proc_size(receiver) + seq_size(args),
        Proc::UnaryExp { arg, .. } => proc_size(arg),
        Proc::BinaryExp { left, right, .. } => proc_size(left) + proc_size(right),
        _ => 0,
    };
    1 + inner
}

/// The number of processes in `ps`.
pub fn seq_size(ps: &Vec<AnnProc>) -> (r: usize)
    requires
        preorder_seq(ps@).len() <= index_bound(),
    ensures
        r == preorder_seq(ps@).len(),
    decreases *ps, 0nat,
{
    let mut n: usize = 0;
    let mut i: usize = 0;
    proof {
        assert(ps@.take(0) =~= Seq::<AnnProc>::empty());
    }
    while i < ps.len()
        invariant
            i <= ps@.len(),
            preorder_seq(ps@).len() <= index_bound(),
            n == preorder_seq(ps@.take(i as int)).len(),
        decreases ps@.len() - i,
    {
        proof {
            assert(ps@.take(i + 1).drop_last() =~= ps@.take(i as int));
            lemma_seq_prefix(ps@, i + 1);
        }
        n = n + proc_size(&ps[i]);
        i = i + 1;
    }
    proof {
        assert(ps@.take(i as int) =~= ps@);
    }
    n
}

/// The number of processes in the key-value pairs `ps`.
pub fn pairs_size(ps: &Vec<KeyValue>) -> (r: usize)
    requires
        preorder_pairs(ps@).len() <= index_bound(),
    ensures
        r == preorder_pairs(ps@).len(),
    decreases *ps, 0nat,
{
    let mut n: usize = 0;
    let mut i: usize = 0;
    proof {
        assert(ps@.take(0) =~= Seq::<KeyValue>::empty());
    }
    while i < ps.len()
        invariant
            i <= ps@.len(),
            preorder_pairs(ps@).len() <= index_bound(),
            n == preorder_pairs(ps@.take(i as int)).len(),
        decreases ps@.len() - i,
    {
        proof {
            assert(ps@.take(i + 1).drop_last() =~= ps@.take(i as int));
            lemma_pairs_prefix(ps@, i + 1);
        }
        let a = proc_size(&ps[i].key);
        let b = proc_size(&ps[i].value);
        n = n + a + b;
        i = i + 1;
    }
    proof {
        assert(ps@.take(i as int) =~= ps@);
    }
    n
}

/// The number of processes quoted in name `n`.
pub fn name_size(n: &Name) -> (r: usize)
    requires
        preorder_name(*n).len() <= index_bound(),
    ensures
        r == preorder_name(*n).len(),
    decreases *n, 0nat,
{
    match n {
        Name::Quote(p) => proc_size(p),
        Name::NameVar(_) => 0,
    }
}

/// The number of processes quoted in the names of `ns`.
pub fn names_size(ns: &Names) -> (r: usize)
    requires
        preorder_names(*ns).len() <= index_bound(),
    ensures
        r == preorder_names(*ns).len(),
    decreases *ns, 0nat,
{
    let mut n: usize = 0;
    let mut i: usize = 0;
    proof {
        assert(ns.names@.take(0) =~= Seq::<Name>::empty());
    }
    while i < ns.names.len()
        invariant
            i <= ns.names@.len(),
            preorder_name_seq(ns.names@).len() <= index_bound(),
            n == preorder_name_seq(ns.names@.take(i as int)).len(),
        decreases ns.names@.len() - i,
    {
        proof {
            assert(ns.names@.take(i + 1).drop_last() =~= ns.names@.take(i as int));
            lemma_name_seq_prefix(ns.names@, i + 1);
        }
        n = n + name_size(&ns.names[i]);
        i = i + 1;
    }
    proof {
        assert(ns.names@.take(i as int) =~= ns.names@);
    }
    n
}

/// The number of processes in a bind's source.
pub fn source_size(s: &Source) -> (r: usize)
    requires
        preorder_source(*s).len() <= index_bound(),
    ensures
        r == preorder_source(*s).len(),
    decreases *s, 0nat,
{
    match s {
        Source::Simple { name } => name_size(name),
        Source::ReceiveSend { name } => name_size(name),
        Source::SendReceive { name, inputs } => name_size(name) + seq_size(inputs),
    }
}

/// The number of processes in a bind.
pub fn bind_size(b: &Bind) -> (r: usize)
    requires
        preorder_bind(*b).len() <= index_bound(),
    ensures
        r == preorder_bind(*b).len(),
    decreases *b, 0nat,
{
    match b {
        Bind::Linear { lhs, rhs, .. } => names_size(lhs) + source_size(rhs),
        Bind::Repeated { lhs, rhs, .. } => names_size(lhs) + name_size(rhs),
        Bind::Peek { lhs, rhs, .. } => names_size(lhs) + name_size(rhs),
    }
}

/// The number of processes in a group of binds.
pub fn binds_size(bs: &Vec<Bind>) -> (r: usize)
    requires
        preorder_binds(bs@).len() <= index_bound(),
    ensures
        r == preorder_binds(bs@).len(),
    decreases *bs, 0nat,
{
    let mut n: usize = 0;
    let mut i: usize = 0;
    proof {
        assert(bs@.take(0) =~= Seq::<Bind>::empty());
    }
    while i < bs.len()
        invariant
            i <= bs@.len(),
            preorder_binds(bs@).len() <= index_bound(),
            n == preorder_binds(bs@.take(i as int)).len(),
        decreases bs@.len() - i,
    {
        proof {
            assert(bs@.take(i + 1).drop_last() =~= bs@.take(i as int));
            lemma_binds_prefix(bs@, i + 1);
        }
        n = n + bind_size(&bs[i]);
        i = i + 1;
    }
    proof {
        assert(bs@.take(i as int) =~= bs@);
    }
    n
}

/// The number of processes in the receipts of a `for`.
pub fn receipts_size(rs: &Vec<Vec<Bind>>) -> (r: usize)
    requires
        preorder_receipts(rs@).len() <= index_bound(),
    ensures
        r == preorder_receipts(rs@).len(),
    decreases *rs, 0nat,
{
    let mut n: usize = 0;
    let mut i: usize = 0;
    proof {
        assert(rs@.take(0) =~= Seq::<Vec<Bind>>::empty());
    }
    while i < rs.len()
        invariant
            i <= rs@.len(),
            preorder_receipts(rs@).len() <= index_bound(),
            n == preorder_receipts(rs@.take(i as int)).len(),
        decreases rs@.len() - i,
    {
        proof {
            assert(rs@.take(i + 1).drop_last() =~= rs@.take(i as int));
            lemma_receipts_prefix(rs@, i + 1);
        }
        n = n + binds_size(&rs[i]);
        i = i + 1;
    }
    proof {
        assert(rs@.take(i as int) =~= rs@);
    }
    n
}

/// The number of processes in the cases of a `match`.
pub fn cases_size(cs: &Vec<Case>) -> (r: usize)
    requires
        preorder_cases(cs@).len() <= index_bound(),
    ensures
        r == preorder_cases(cs@).len(),
    decreases *cs, 0nat,
{
    let mut n: usize = 0;
    let mut i: usize = 0;
    proof {
        assert(cs@.take(0) =~= Seq::<Case>::empty());
    }
    while i < cs.len()
        invariant
            i <= cs@.len(),
            preorder_cases(cs@).len() <= index_bound(),
            n == preorder_cases(cs@.take(i as int)).len(),
        decreases cs@.len() - i,
    {
        proof {
            assert(cs@.take(i + 1).drop_last() =~= cs@.take(i as int));
            lemma_cases_prefix(cs@, i + 1);
        }
        let a = proc_size(&cs[i].pattern);
        let b = proc_size(&cs[i].proc);
        n = n + a + b;
        i = i + 1;
    }
    proof {
        assert(cs@.take(i as int) =~= cs@);
    }
    n
}

/// The number of processes in the declarations of a `let`.
pub fn lets_size(ls: &Vec<LetBinding>) -> (r: usize)
    requires
        preorder_lets(ls@).len() <= index_bound(),
    ensures
        r == preorder_lets(ls@).len(),
    decreases *ls, 0nat,
{
    let mut n: usize = 0;
    let mut i: usize = 0;
    proof {
        assert(ls@.take(0) =~= Seq::<LetBinding>::empty());
    }
    while i < ls.len()
        invariant
            i <= ls@.len(),
            preorder_lets(ls@).len() <= index_bound(),
            n == preorder_lets(ls@.take(i as int)).len(),
        decreases ls@.len() - i,
    {
        proof {
            assert(ls@.take(i + 1).drop_last() =~= ls@.take(i as int));
            lemma_lets_prefix(ls@, i + 1);
        }
        let a = names_size(&ls[i].lhs);
        let b = seq_size(&ls[i].rhs);
        n = n + a + b;
        i = i + 1;
    }
    proof {
        assert(ls@.take(i as int) =~= ls@);
    }
    n
}

} // verus!
