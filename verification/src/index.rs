//! The process index: every process of the analysed trees, numbered in preorder.
use crate::ast::{
    AnnProc, Bind, Case, Collection, KeyValue, LetBinding, Name, Names, Proc, Source, SyncSendCont,
};
use crate::tree::{
    preorder, preorder_bind, preorder_binds, preorder_cases, preorder_lets, preorder_name,
    preorder_name_seq, preorder_names, preorder_pairs, preorder_receipts, preorder_seq,
    preorder_source,
};
use vstd::prelude::*;

verus! {

/// The most processes the index holds; `u32::MAX` is the top-level sentinel.
pub open spec fn index_bound() -> nat {
    u32::MAX as nat
}

/// References to the indexed processes, in preorder.
pub struct ProcIndex<'a> {
    procs: Vec<&'a AnnProc>,
}

pub proof fn lemma_seq_prefix(ps: Seq<AnnProc>, i: int)
    requires
        0 <= i <= ps.len(),
    ensures
        preorder_seq(ps.take(i)).len() <= preorder_seq(ps).len(),
    decreases ps.len(),
{
    if i < ps.len() {
        lemma_seq_prefix(ps.drop_last(), i);
        assert(ps.drop_last().take(i) =~= ps.take(i));
    } else {
        assert(ps.take(i) =~= ps);
    }
}

pub proof fn lemma_pairs_prefix(ps: Seq<KeyValue>, i: int)
    requires
        0 <= i <= ps.len(),
    ensures
        preorder_pairs(ps.take(i)).len() <= preorder_pairs(ps).len(),
    decreases ps.len(),
{
    if i < ps.len() {
        lemma_pairs_prefix(ps.drop_last(), i);
        assert(ps.drop_last().take(i) =~= ps.take(i));
    } else {
        assert(ps.take(i) =~= ps);
    }
}

pub proof fn lemma_name_seq_prefix(ps: Seq<Name>, i: int)
    requires
        0 <= i <= ps.len(),
    ensures
        preorder_name_seq(ps.take(i)).len() <= preorder_name_seq(ps).len(),
    decreases ps.len(),
{
    if i < ps.len() {
        lemma_name_seq_prefix(ps.drop_last(), i);
        assert(ps.drop_last().take(i) =~= ps.take(i));
    } else {
        assert(ps.take(i) =~= ps);
    }
}

pub proof fn lemma_binds_prefix(ps: Seq<Bind>, i: int)
    requires
        0 <= i <= ps.len(),
    ensures
        preorder_binds(ps.take(i)).len() <= preorder_binds(ps).len(),
    decreases ps.len(),
{
    if i < ps.len() {
        lemma_binds_prefix(ps.drop_last(), i);
        assert(ps.drop_last().take(i) =~= ps.take(i));
    } else {
        assert(ps.take(i) =~= ps);
    }
}

pub proof fn lemma_receipts_prefix(ps: Seq<Vec<Bind>>, i: int)
    requires
        0 <= i <= ps.len(),
    ensures
        preorder_receipts(ps.take(i)).len() <= preorder_receipts(ps).len(),
    decreases ps.len(),
{
    if i < ps.len() {
        lemma_receipts_prefix(ps.drop_last(), i);
        assert(ps.drop_last().take(i) =~= ps.take(i));
    } else {
        assert(ps.take(i) =~= ps);
    }
}

pub proof fn lemma_cases_prefix(ps: Seq<Case>, i: int)
    requires
        0 <= i <= ps.len(),
    ensures
        preorder_cases(ps.take(i)).len() <= preorder_cases(ps).len(),
    decreases ps.len(),
{
    if i < ps.len() {
        lemma_cases_prefix(ps.drop_last(), i);
        assert(ps.drop_last().take(i) =~= ps.take(i));
    } else {
        assert(ps.take(i) =~= ps);
    }
}

pub proof fn lemma_lets_prefix(ps: Seq<LetBinding>, i: int)
    requires
        0 <= i <= ps.len(),
    ensures
        preorder_lets(ps.take(i)).len() <= preorder_lets(ps).len(),
    decreases ps.len(),
{
    if i < ps.len() {
        lemma_lets_prefix(ps.drop_last(), i);
        assert(ps.drop_last().take(i) =~= ps.take(i));
    } else {
        assert(ps.take(i) =~= ps);
    }
}

impl<'a> ProcIndex<'a> {
    /// The indexed processes; process `i` has PID `i`.
    pub closed spec fn flat(&self) -> Seq<AnnProc> {
        self.procs@.map_values(|r: &AnnProc| *r)
    }

    pub fn new() -> (r: Self)
        ensures
            r.flat() == Seq::<AnnProc>::empty(),
    {
        let r = ProcIndex { procs: Vec::new() };
        assert(r.flat() =~= Seq::<AnnProc>::empty());
        r
    }

    pub fn len(&self) -> (r: usize)
        ensures
            r == self.flat().len(),
    {
        self.procs.len()
    }

    /// The process with index `i`.
    pub fn get(&self, i: usize) -> (r: Option<&'a AnnProc>)
        ensures
            match r {
                Some(p) => i < self.flat().len() && *p == self.flat()[i as int],
                None => i >= self.flat().len(),
            },
    {
        if i < self.procs.len() {
            Some(self.procs[i])
        } else {
            None
        }
    }

    fn push(&mut self, p: &'a AnnProc)
        requires
            old(self).flat().len() < index_bound(),
        ensures
            final(self).flat() == old(self).flat().push(*p),
    {
        self.procs.push(p);
        assert(self.flat() =~= old(self).flat().push(*p));
    }

    /// Appends `p` and the processes inside it, in preorder.
    pub fn index_proc(&mut self, p: &'a AnnProc)
        requires
            old(self).flat().len() + preorder(*p).len() <= index_bound(),
        ensures
            final(self).flat() == old(self).flat() + preorder(*p),
        decreases *p, 1nat,
    {
        let ghost base = self.flat();
        self.push(p);
        proof {
            assert(self.flat() =~= base + seq![*p]);
        }
        match &p.proc {
            Proc::Collection(c) => match c {
                Collection::List { elements, .. } => self.index_seq(elements),
                Collection::Tuple(elements) => self.index_seq(elements),
                Collection::SetOf { elements, .. } => self.index_seq(elements),
                Collection::MapOf { elements, .. } => self.index_pairs(elements),
            },
            Proc::Par { left, right } => {
                self.index_proc(left);
                self.index_proc(right);
            },
            Proc::IfThenElse { condition, if_true, if_false } => {
                self.index_proc(condition);
                self.index_proc(if_true);
                match if_false {
                    Some(f) => self.index_proc(f),
                    None => {},
                }
            },
            Proc::Send { channel, inputs, .. } => {
                self.index_name(channel);
                self.index_seq(inputs);
            },
            Proc::SendSync { channel, inputs, cont } => {
                self.index_name(channel);
                self.index_seq(inputs);
                match cont {
                    SyncSendCont::Empty => {},
                    SyncSendCont::NonEmpty(c) => self.index_proc(c),
                }
            },
            Proc::ForComprehension { receipts, proc } => {
                self.index_receipts(receipts);
                self.index_proc(proc);
            },
            Proc::Match { expression, cases } => {
                self.index_proc(expression);
                self.index_cases(cases);
            },
            Proc::Bundle { proc, .. } => self.index_proc(proc),
            Proc::Let { bindings, body, .. } => {
                self.index_proc(body);
                self.index_lets(bindings);
            },
            Proc::New { proc, .. } => self.index_proc(proc),
            Proc::Contract { name, formals, body } => {
                self.index_name(name);
                self.index_names(formals);
                self.index_proc(body);
            },
            Proc::Eval { name } => self.index_name(name),
            Proc::Method { receiver, args, .. } => {
                self.index_proc(receiver);
                self.index_seq(args);
            },
            Proc::UnaryExp { arg, .. } => self.index_proc(arg),
            Proc::BinaryExp { left, right, .. } => {
                self.index_proc(left);
                self.index_proc(right);
            },
            _ => {},
        }
        proof {
            assert(self.flat() =~= base + preorder(*p));
        }
    }

    fn index_seq(&mut self, ps: &'a Vec<AnnProc>)
        requires
            old(self).flat().len() + preorder_seq(ps@).len() <= index_bound(),
        ensures
            final(self).flat() == old(self).flat() + preorder_seq(ps@),
        decreases *ps, 0nat,
    {
        let ghost base = self.flat();
        let mut i: usize = 0;
        proof {
            assert(ps@.take(0) =~= Seq::<AnnProc>::empty());
            assert(self.flat() =~= base + preorder_seq(ps@.take(0)));
        }
        while i < ps.len()
            invariant
                i <= ps@.len(),
                base.len() + preorder_seq(ps@).len() <= index_bound(),
                self.flat() == base + preorder_seq(ps@.take(i as int)),
            decreases ps@.len() - i,
        {
            proof {
                assert(ps@.take(i + 1).drop_last() =~= ps@.take(i as int));
                lemma_seq_prefix(ps@, i + 1);
            }
            self.index_proc(&ps[i]);
            i = i + 1;
            proof {
                assert(self.flat() =~= base + preorder_seq(ps@.take(i as int)));
            }
        }
        proof {
            assert(ps@.take(i as int) =~= ps@);
        }
    }

    fn index_pairs(&mut self, ps: &'a Vec<KeyValue>)
        requires
            old(self).flat().len() + preorder_pairs(ps@).len() <= index_bound(),
        ensures
            final(self).flat() == old(self).flat() + preorder_pairs(ps@),
        decreases *ps, 0nat,
    {
        let ghost base = self.flat();
        let mut i: usize = 0;
        proof {
            assert(ps@.take(0) =~= Seq::<KeyValue>::empty());
            assert(self.flat() =~= base + preorder_pairs(ps@.take(0)));
        }
        while i < ps.len()
            invariant
                i <= ps@.len(),
                base.len() + preorder_pairs(ps@).len() <= index_bound(),
                self.flat() == base + preorder_pairs(ps@.take(i as int)),
            decreases ps@.len() - i,
        {
            proof {
                assert(ps@.take(i + 1).drop_last() =~= ps@.take(i as int));
                lemma_pairs_prefix(ps@, i + 1);
            }
            self.index_proc(&ps[i].key);
            self.index_proc(&ps[i].value);
            i = i + 1;
            proof {
                assert(self.flat() =~= base + preorder_pairs(ps@.take(i as int)));
            }
        }
        proof {
            assert(ps@.take(i as int) =~= ps@);
        }
    }

    fn index_name(&mut self, n: &'a Name)
        requires
            old(self).flat().len() + preorder_name(*n).len() <= index_bound(),
        ensures
            final(self).flat() == old(self).flat() + preorder_name(*n),
        decreases *n, 0nat,
    {
        match n {
            Name::Quote(p) => self.index_proc(p),
            Name::NameVar(_) => {
                assert(self.flat() =~= old(self).flat() + preorder_name(*n));
            },
        }
    }

    fn index_names(&mut self, ns: &'a Names)
        requires
            old(self).flat().len() + preorder_names(*ns).len() <= index_bound(),
        ensures
            final(self).flat() == old(self).flat() + preorder_names(*ns),
        decreases *ns, 0nat,
    {
        let ghost base = self.flat();
        let mut i: usize = 0;
        proof {
            assert(ns.names@.take(0) =~= Seq::<Name>::empty());
            assert(self.flat() =~= base + preorder_name_seq(ns.names@.take(0)));
        }
        while i < ns.names.len()
            invariant
                i <= ns.names@.len(),
                base.len() + preorder_name_seq(ns.names@).len() <= index_bound(),
                self.flat() == base + preorder_name_seq(ns.names@.take(i as int)),
            decreases ns.names@.len() - i,
        {
            proof {
                assert(ns.names@.take(i + 1).drop_last() =~= ns.names@.take(i as int));
                lemma_name_seq_prefix(ns.names@, i + 1);
            }
            self.index_name(&ns.names[i]);
            i = i + 1;
            proof {
                assert(self.flat() =~= base + preorder_name_seq(ns.names@.take(i as int)));
            }
        }
        proof {
            assert(ns.names@.take(i as int) =~= ns.names@);
        }
    }

    fn index_source(&mut self, s: &'a Source)
        requires
            old(self).flat().len() + preorder_source(*s).len() <= index_bound(),
        ensures
            final(self).flat() == old(self).flat() + preorder_source(*s),
        decreases *s, 0nat,
    {
        match s {
            Source::Simple { name } => self.index_name(name),
            Source::ReceiveSend { name } => self.index_name(name),
            Source::SendReceive { name, inputs } => {
                self.index_name(name);
                self.index_seq(inputs);
            },
        }
    }

    fn index_bind(&mut self, b: &'a Bind)
        requires
            old(self).flat().len() + preorder_bind(*b).len() <= index_bound(),
        ensures
            final(self).flat() == old(self).flat() + preorder_bind(*b),
        decreases *b, 0nat,
    {
        match b {
            Bind::Linear { lhs, rhs, .. } => {
                self.index_names(lhs);
                self.index_source(rhs);
            },
            Bind::Repeated { lhs, rhs, .. } => {
                self.index_names(lhs);
                self.index_name(rhs);
            },
            Bind::Peek { lhs, rhs, .. } => {
                self.index_names(lhs);
                self.index_name(rhs);
            },
        }
    }

    fn index_binds(&mut self, bs: &'a Vec<Bind>)
        requires
            old(self).flat().len() + preorder_binds(bs@).len() <= index_bound(),
        ensures
            final(self).flat() == old(self).flat() + preorder_binds(bs@),
        decreases *bs, 0nat,
    {
        let ghost base = self.flat();
        let mut i: usize = 0;
        proof {
            assert(bs@.take(0) =~= Seq::<Bind>::empty());
            assert(self.flat() =~= base + preorder_binds(bs@.take(0)));
        }
        while i < bs.len()
            invariant
                i <= bs@.len(),
                base.len() + preorder_binds(bs@).len() <= index_bound(),
                self.flat() == base + preorder_binds(bs@.take(i as int)),
            decreases bs@.len() - i,
        {
            proof {
                assert(bs@.take(i + 1).drop_last() =~= bs@.take(i as int));
                lemma_binds_prefix(bs@, i + 1);
            }
            self.index_bind(&bs[i]);
            i = i + 1;
            proof {
                assert(self.flat() =~= base + preorder_binds(bs@.take(i as int)));
            }
        }
        proof {
            assert(bs@.take(i as int) =~= bs@);
        }
    }

    fn index_receipts(&mut self, rs: &'a Vec<Vec<Bind>>)
        requires
            old(self).flat().len() + preorder_receipts(rs@).len() <= index_bound(),
        ensures
            final(self).flat() == old(self).flat() + preorder_receipts(rs@),
        decreases *rs, 0nat,
    {
        let ghost base = self.flat();
        let mut i: usize = 0;
        proof {
            assert(rs@.take(0) =~= Seq::<Vec<Bind>>::empty());
            assert(self.flat() =~= base + preorder_receipts(rs@.take(0)));
        }
        while i < rs.len()
            invariant
                i <= rs@.len(),
                base.len() + preorder_receipts(rs@).len() <= index_bound(),
                self.flat() == base + preorder_receipts(rs@.take(i as int)),
            decreases rs@.len() - i,
        {
            proof {
                assert(rs@.take(i + 1).drop_last() =~= rs@.take(i as int));
                lemma_receipts_prefix(rs@, i + 1);
            }
            self.index_binds(&rs[i]);
            i = i + 1;
            proof {
                assert(self.flat() =~= base + preorder_receipts(rs@.take(i as int)));
            }
        }
        proof {
            assert(rs@.take(i as int) =~= rs@);
        }
    }

    fn index_cases(&mut self, cs: &'a Vec<Case>)
        requires
            old(self).flat().len() + preorder_cases(cs@).len() <= index_bound(),
        ensures
            final(self).flat() == old(self).flat() + preorder_cases(cs@),
        decreases *cs, 0nat,
    {
        let ghost base = self.flat();
        let mut i: usize = 0;
        proof {
            assert(cs@.take(0) =~= Seq::<Case>::empty());
            assert(self.flat() =~= base + preorder_cases(cs@.take(0)));
        }
        while i < cs.len()
            invariant
                i <= cs@.len(),
                base.len() + preorder_cases(cs@).len() <= index_bound(),
                self.flat() == base + preorder_cases(cs@.take(i as int)),
            decreases cs@.len() - i,
        {
            proof {
                assert(cs@.take(i + 1).drop_last() =~= cs@.take(i as int));
                lemma_cases_prefix(cs@, i + 1);
            }
            self.index_proc(&cs[i].pattern);
            self.index_proc(&cs[i].proc);
            i = i + 1;
            proof {
                assert(self.flat() =~= base + preorder_cases(cs@.take(i as int)));
            }
        }
        proof {
            assert(cs@.take(i as int) =~= cs@);
        }
    }

    fn index_lets(&mut self, ls: &'a Vec<LetBinding>)
        requires
            old(self).flat().len() + preorder_lets(ls@).len() <= index_bound(),
        ensures
            final(self).flat() == old(self).flat() + preorder_lets(ls@),
        decreases *ls, 0nat,
    {
        let ghost base = self.flat();
        let mut i: usize = 0;
        proof {
            assert(ls@.take(0) =~= Seq::<LetBinding>::empty());
            assert(self.flat() =~= base + preorder_lets(ls@.take(0)));
        }
        while i < ls.len()
            invariant
                i <= ls@.len(),
                base.len() + preorder_lets(ls@).len() <= index_bound(),
                self.flat() == base + preorder_lets(ls@.take(i as int)),
            decreases ls@.len() - i,
        {
            proof {
                assert(ls@.take(i + 1).drop_last() =~= ls@.take(i as int));
                lemma_lets_prefix(ls@, i + 1);
            }
            self.index_names(&ls[i].lhs);
            self.index_seq(&ls[i].rhs);
            i = i + 1;
            proof {
                assert(self.flat() =~= base + preorder_lets(ls@.take(i as int)));
            }
        }
        proof {
            assert(ls@.take(i as int) =~= ls@);
        }
    }
}

} // verus!
