//! Dependencies between channels, and the search for a circular wait among them.
use crate::bits::{bitvec_bits, bv_get, bv_repeat, bv_set, count_true, lemma_count_true_bound, BitList, MAX_BITS};
use crate::types::Symbol;
use vstd::prelude::*;

verus! {

/// Channel dependencies: each entry lists the channels a channel depends on.
pub struct DependencyGraph {
    pub edges: Vec<(Symbol, Vec<Symbol>)>,
    pub channels: Vec<Symbol>,
}

/// The channels that `node` depends on: those of the first entry for it.
pub open spec fn neighbours(edges: Seq<(Symbol, Seq<Symbol>)>, node: Symbol) -> Seq<Symbol>
    decreases edges.len(),
{
    if edges.len() == 0 {
        Seq::empty()
    } else if edges[0].0 == node {
        edges[0].1
    } else {
        neighbours(edges.drop_first(), node)
    }
}

/// `a` depends on `b`.
pub open spec fn depends(edges: Seq<(Symbol, Seq<Symbol>)>, a: Symbol, b: Symbol) -> bool {
    neighbours(edges, a).contains(b)
}

/// Each channel of `c` depends on the next, and the last on the first.
pub open spec fn is_cycle(edges: Seq<(Symbol, Seq<Symbol>)>, c: Seq<Symbol>) -> bool {
    &&& c.len() > 0
    &&& forall|i: int| 0 <= i < c.len() - 1 ==> depends(edges, #[trigger] c[i], c[i + 1])
    &&& depends(edges, c.last(), c[0])
}

/// Each channel of `p` depends on the next.
pub open spec fn is_walk(edges: Seq<(Symbol, Seq<Symbol>)>, p: Seq<Symbol>) -> bool {
    forall|i: int| 0 <= i < p.len() - 1 ==> depends(edges, #[trigger] p[i], p[i + 1])
}

/// Each channel of `done` depends only on channels that come before it.
pub open spec fn finished_in_order(edges: Seq<(Symbol, Seq<Symbol>)>, done: Seq<Symbol>) -> bool {
    forall|k: int, t: Symbol|
        0 <= k < done.len() && #[trigger] depends(edges, done[k], t) ==> exists|j: int| 0 <= j < k && done[j] == t
}

/// The place of `s` in `done`.
pub open spec fn place_of(done: Seq<Symbol>, s: Symbol) -> int {
    choose|j: int| 0 <= j < done.len() && done[j] == s
}

/// Along a walk through channels finished in order, places strictly drop.
proof fn lemma_places_drop(edges: Seq<(Symbol, Seq<Symbol>)>, done: Seq<Symbol>, c: Seq<Symbol>, i: int)
    requires
        finished_in_order(edges, done),
        done.no_duplicates(),
        forall|m: int| 0 <= m < c.len() ==> done.contains(#[trigger] c[m]),
        is_walk(edges, c),
        0 <= i < c.len(),
    ensures
        0 <= place_of(done, c[i]) < done.len(),
        done[place_of(done, c[i])] == c[i],
        place_of(done, c[i]) <= place_of(done, c[0]) - i,
    decreases i,
{
    assert(done.contains(c[i]));
    if i > 0 {
        lemma_places_drop(edges, done, c, i - 1);
        let k = place_of(done, c[i - 1]);
        assert(depends(edges, c[i - 1], c[i]));
        assert(depends(edges, done[k], c[i]));
        let j = choose|j: int| 0 <= j < k && done[j] == c[i];
        assert(place_of(done, c[i]) == j);
    }
}

/// No circular dependency runs through channels finished in order.
proof fn lemma_finished_acyclic(edges: Seq<(Symbol, Seq<Symbol>)>, done: Seq<Symbol>, c: Seq<Symbol>)
    requires
        finished_in_order(edges, done),
        done.no_duplicates(),
        forall|m: int| 0 <= m < c.len() ==> done.contains(#[trigger] c[m]),
    ensures
        !is_cycle(edges, c),
{
    if is_cycle(edges, c) {
        let last = c.len() - 1;
        lemma_places_drop(edges, done, c, last);
        lemma_places_drop(edges, done, c, 0);
        let k = place_of(done, c[last]);
        assert(c.last() == c[last]);
        assert(depends(edges, done[k], c[0]));
        let j = choose|j: int| 0 <= j < k && done[j] == c[0];
        assert(place_of(done, c[0]) == j);
    }
}

/// Finishing a channel all of whose dependencies are finished keeps the
/// channels finished in order.
proof fn lemma_finish(edges: Seq<(Symbol, Seq<Symbol>)>, done: Seq<Symbol>, node: Symbol)
    requires
        finished_in_order(edges, done),
        done.no_duplicates(),
        !done.contains(node),
        forall|t: Symbol| #[trigger] depends(edges, node, t) ==> done.contains(t),
    ensures
        finished_in_order(edges, done.push(node)),
        done.push(node).no_duplicates(),
{
    let d = done.push(node);
    assert forall|k: int, t: Symbol| 0 <= k < d.len() && #[trigger] depends(edges, d[k], t) implies exists|j: int|
        0 <= j < k && d[j] == t by {
        if k < done.len() {
            assert(d[k] == done[k]);
            let j = choose|j: int| 0 <= j < k && done[j] == t;
            assert(d[j] == done[j]);
        } else {
            assert(d[k] == node);
            assert(done.contains(t));
            let j = choose|j: int| 0 <= j < done.len() && done[j] == t;
            assert(d[j] == done[j]);
        }
    }
    assert forall|a: int, b: int| 0 <= a < d.len() && 0 <= b < d.len() && a != b implies d[a] != d[b] by {
        if a < done.len() && b < done.len() {
            assert(d[a] == done[a] && d[b] == done[b]);
        } else if a < done.len() {
            assert(d[a] == done[a]);
        } else if b < done.len() {
            assert(d[b] == done[b]);
        }
    }
}

/// The number of clear bits.
pub open spec fn count_false(s: Seq<bool>) -> int {
    s.len() - count_true(s)
}

/// Setting bits never makes fewer bits set.
proof fn lemma_count_true_mono(a: Seq<bool>, b: Seq<bool>)
    requires
        a.len() == b.len(),
        forall|i: int| 0 <= i < a.len() && a[i] ==> b[i],
    ensures
        count_true(a) <= count_true(b),
    decreases a.len(),
{
    if a.len() > 0 {
        lemma_count_true_mono(a.drop_last(), b.drop_last());
    }
}

/// Setting a clear bit sets one more bit.
proof fn lemma_count_true_set(a: Seq<bool>, i: int)
    requires
        0 <= i < a.len(),
        !a[i],
    ensures
        count_true(a.update(i, true)) == count_true(a) + 1,
    decreases a.len(),
{
    if i < a.len() - 1 {
        lemma_count_true_set(a.drop_last(), i);
        assert(a.update(i, true).drop_last() =~= a.drop_last().update(i, true));
    } else {
        assert(a.update(i, true).drop_last() =~= a.drop_last());
    }
}

/// The part of `path` from the first place of `node` on.
fn cycle_from(path: &Vec<Symbol>, node: Symbol) -> (r: (Vec<Symbol>, Ghost<int>))
    requires
        path@.contains(node),
    ensures
        0 <= r.1@ < path@.len(),
        path@[r.1@] == node,
        r.0@ == path@.subrange(r.1@, path@.len() as int),
{
    let mut start: usize = 0;
    while start < path.len() && path[start].0 != node.0
        invariant
            start <= path@.len(),
            path@.contains(node),
            forall|q: int| 0 <= q < start ==> path@[q] != node,
        decreases path@.len() - start,
    {
        start = start + 1;
    }
    proof {
        if start == path@.len() {
            let q = choose|q: int| 0 <= q < path@.len() && path@[q] == node;
            assert(path@[q] != node);
        }
    }
    let mut cycle: Vec<Symbol> = Vec::new();
    let mut q = start;
    while q < path.len()
        invariant
            start <= q <= path@.len(),
            start < path@.len(),
            cycle@ == path@.subrange(start as int, q as int),
        decreases path@.len() - q,
    {
        cycle.push(path[q]);
        proof {
            assert(cycle@ =~= path@.subrange(start as int, q + 1));
        }
        q = q + 1;
    }
    (cycle, Ghost(start as int))
}

impl DependencyGraph {
    /// The entries, each channel with the channels it depends on.
    pub open spec fn edge_view(&self) -> Seq<(Symbol, Seq<Symbol>)> {
        self.edges@.map_values(|e: (Symbol, Vec<Symbol>)| (e.0, e.1@))
    }

    /// Every channel the graph mentions is one of its channels, and every
    /// channel fits a bit vector.
    pub open spec fn wf(&self) -> bool {
        &&& forall|i: int| 0 <= i < self.channels@.len() ==> (#[trigger] self.channels@[i]).0 < MAX_BITS
        &&& forall|n: Symbol, t: Symbol| #[trigger] depends(self.edge_view(), n, t) ==> self.channels@.contains(t)
    }

    pub fn new() -> (r: Self)
        ensures
            r.edges@.len() == 0,
            r.channels@.len() == 0,
    {
        DependencyGraph { edges: Vec::new(), channels: Vec::new() }
    }

    pub fn is_empty(&self) -> (r: bool)
        ensures
            r == (self.channels@.len() == 0),
    {
        self.channels.len() == 0
    }

    /// The channels that `node` depends on.
    fn neighbours_of(&self, node: Symbol) -> (r: Option<&Vec<Symbol>>)
        ensures
            match r {
                Some(v) => v@ == neighbours(self.edge_view(), node),
                None => neighbours(self.edge_view(), node) == Seq::<Symbol>::empty(),
            },
    {
        let ghost ev = self.edge_view();
        let mut i: usize = 0;
        proof {
            assert(ev.skip(0) =~= ev);
        }
        while i < self.edges.len()
            invariant
                i <= self.edges@.len(),
                ev == self.edge_view(),
                neighbours(ev, node) == neighbours(ev.skip(i as int), node),
            decreases self.edges@.len() - i,
        {
            proof {
                assert(ev.skip(i as int)[0] == ev[i as int]);
                assert(ev.skip(i as int).drop_first() =~= ev.skip(i + 1));
            }
            if self.edges[i].0.0 == node.0 {
                return Some(&self.edges[i].1);
            }
            i = i + 1;
        }
        None
    }

    /// A circular dependency, found by a depth-first search from each
    /// channel in turn, if there is one.
    pub fn find_cycle(&self) -> (r: Option<Vec<Symbol>>)
        requires
            self.wf(),
        ensures
            r matches Some(c) ==> is_cycle(self.edge_view(), c@),
            r is None ==> forall|c: Seq<Symbol>| !is_cycle(self.edge_view(), c),
    {
        let mut max_symbol: u32 = 0;
        let mut i: usize = 0;
        while i < self.channels.len()
            invariant
                i <= self.channels@.len(),
                max_symbol < MAX_BITS,
                forall|k: int| 0 <= k < i ==> (#[trigger] self.channels@[k]).0 <= max_symbol,
                self.wf(),
            decreases self.channels@.len() - i,
        {
            if self.channels[i].0 > max_symbol {
                max_symbol = self.channels[i].0;
            }
            i = i + 1;
        }
        let n = max_symbol as usize + 1;
        let mut visited = bv_repeat(false, n);
        let mut rec_stack = bv_repeat(false, n);
        let mut path: Vec<Symbol> = Vec::new();
        let mut done: Ghost<Seq<Symbol>> = Ghost(Seq::empty());
        let mut j: usize = 0;
        while j < self.channels.len()
            invariant
                self.wf(),
                n <= MAX_BITS,
                forall|k: int| 0 <= k < self.channels@.len() ==> (#[trigger] self.channels@[k]).0 < n,
                bitvec_bits(visited).len() == n,
                bitvec_bits(rec_stack).len() == n,
                path@.len() == 0,
                forall|x: int| 0 <= x < n ==> !bitvec_bits(rec_stack)[x],
                finished_in_order(self.edge_view(), done@),
                done@.no_duplicates(),
                forall|k: int| 0 <= k < done@.len() ==> (#[trigger] done@[k]).0 < n,
                forall|x: int| 0 <= x < n ==> (bitvec_bits(visited)[x] <==> done@.contains(Symbol(x as u32))),
                forall|m: int| 0 <= m < j ==> done@.contains(#[trigger] self.channels@[m]),
                j <= self.channels@.len(),
            decreases self.channels@.len() - j,
        {
            let channel = self.channels[j];
            proof {
                assert(channel.0 < n);
            }
            if !bv_get(&visited, channel.0 as usize) {
                let ghost budget = count_false(bitvec_bits(visited));
                let ghost dm = done@;
                proof {
                    assert(self.channels@.contains(channel)) by {
                        assert(self.channels@[j as int] == channel);
                    }
                }
                match self.dfs_cycle(channel, &mut visited, &mut rec_stack, &mut path, &mut done, Ghost(n as nat), Ghost(budget)) {
                    Some(cycle) => {
                        return Some(cycle);
                    },
                    None => {},
                }
                proof {
                    assert forall|m: int| 0 <= m < j implies done@.contains(#[trigger] self.channels@[m]) by {
                        let q = choose|q: int| 0 <= q < dm.len() && dm[q] == self.channels@[m];
                        assert(done@[q] == done@.take(dm.len() as int)[q]);
                    }
                }
            } else {
                proof {
                    assert(Symbol(channel.0 as u32) == channel);
                }
            }
            j = j + 1;
        }
        proof {
            assert forall|c: Seq<Symbol>| !is_cycle(self.edge_view(), c) by {
                if is_cycle(self.edge_view(), c) {
                    assert forall|m: int| 0 <= m < c.len() implies done@.contains(#[trigger] c[m]) by {
                        let p = if m == 0 { c.len() - 1 } else { m - 1 };
                        if m == 0 {
                            assert(c.last() == c[c.len() - 1]);
                            assert(depends(self.edge_view(), c[p], c[m]));
                        } else {
                            assert(depends(self.edge_view(), c[p], c[m]));
                        }
                        assert(self.channels@.contains(c[m]));
                        let q = choose|q: int| 0 <= q < self.channels@.len() && self.channels@[q] == c[m];
                        assert(done@.contains(self.channels@[q]));
                    }
                    lemma_finished_acyclic(self.edge_view(), done@, c);
                }
            }
        }
        None
    }

    /// Depth-first search from `node` along the current `path`; `rec_stack`
    /// marks the channels on the path.  A channel met again while on the path
    /// closes a cycle.  `done` lists the channels whose search has ended, in
    /// the order it ended: each depends only on channels listed before it.
    #[verifier::rlimit(60)]
    fn dfs_cycle(
        &self,
        node: Symbol,
        visited: &mut BitList,
        rec_stack: &mut BitList,
        path: &mut Vec<Symbol>,
        done: &mut Ghost<Seq<Symbol>>,
        Ghost(n): Ghost<nat>,
        Ghost(budget): Ghost<int>,
    ) -> (r: Option<Vec<Symbol>>)
        requires
            self.wf(),
            budget == count_false(bitvec_bits(*old(visited))),
            n <= MAX_BITS,
            forall|k: int| 0 <= k < self.channels@.len() ==> (#[trigger] self.channels@[k]).0 < n,
            self.channels@.contains(node),
            bitvec_bits(*old(visited)).len() == n,
            bitvec_bits(*old(rec_stack)).len() == n,
            !bitvec_bits(*old(visited))[node.0 as int],
            forall|x: int| 0 <= x < n && bitvec_bits(*old(rec_stack))[x] ==> bitvec_bits(*old(visited))[x],
            forall|x: int|
                0 <= x < n ==> (bitvec_bits(*old(rec_stack))[x] <==> old(path)@.contains(Symbol(x as u32))),
            is_walk(self.edge_view(), old(path)@),
            old(path)@.len() > 0 ==> depends(self.edge_view(), old(path)@.last(), node),
            finished_in_order(self.edge_view(), old(done)@),
            old(done)@.no_duplicates(),
            forall|k: int| 0 <= k < old(done)@.len() ==> (#[trigger] old(done)@[k]).0 < n,
            forall|x: int|
                0 <= x < n ==> ((bitvec_bits(*old(visited))[x] && !bitvec_bits(*old(rec_stack))[x])
                    <==> old(done)@.contains(Symbol(x as u32))),
        ensures
            bitvec_bits(*final(visited)).len() == n,
            bitvec_bits(*final(rec_stack)).len() == n,
            forall|x: int| 0 <= x < n && bitvec_bits(*old(visited))[x] ==> bitvec_bits(*final(visited))[x],
            r is None ==> final(path)@ == old(path)@ && bitvec_bits(*final(rec_stack)) == bitvec_bits(
                *old(rec_stack),
            ),
            r is None ==> old(done)@.len() <= final(done)@.len() && final(done)@.take(old(done)@.len() as int)
                == old(done)@ && finished_in_order(self.edge_view(), final(done)@)
                && final(done)@.no_duplicates() && final(done)@.contains(node),
            r is None ==> forall|k: int| 0 <= k < final(done)@.len() ==> (#[trigger] final(done)@[k]).0 < n,
            r is None ==> forall|x: int|
                0 <= x < n ==> ((bitvec_bits(*final(visited))[x] && !bitvec_bits(*final(rec_stack))[x])
                    <==> final(done)@.contains(Symbol(x as u32))),
            r matches Some(c) ==> is_cycle(self.edge_view(), c@),
        decreases budget,
    {
        let ghost ev = self.edge_view();
        let ghost v0 = bitvec_bits(*visited);
        let ghost r0 = bitvec_bits(*rec_stack);
        let ghost p0 = path@;
        proof {
            assert(node.0 < n) by {
                let k = choose|k: int| 0 <= k < self.channels@.len() && self.channels@[k] == node;
                assert(self.channels@[k].0 < n);
            }
        }
        let idx = node.0 as usize;
        bv_set(visited, idx, true);
        bv_set(rec_stack, idx, true);
        path.push(node);
        proof {
            lemma_count_true_set(v0, idx as int);
            lemma_count_true_bound(bitvec_bits(*visited));
            assert forall|x: int| 0 <= x < n implies (bitvec_bits(*rec_stack)[x] <==> path@.contains(Symbol(x as u32))) by {
                if x == idx {
                    assert(path@[path@.len() - 1] == node);
                    assert(Symbol(x as u32) == node);
                } else {
                    if path@.contains(Symbol(x as u32)) {
                        let k = choose|k: int| 0 <= k < path@.len() && path@[k] == Symbol(x as u32);
                        assert(k < p0.len());
                        assert(p0[k] == Symbol(x as u32));
                    }
                    if p0.contains(Symbol(x as u32)) {
                        let k = choose|k: int| 0 <= k < p0.len() && p0[k] == Symbol(x as u32);
                        assert(path@[k] == Symbol(x as u32));
                    }
                }
            }
            assert forall|i: int| 0 <= i < path@.len() - 1 implies depends(ev, #[trigger] path@[i], path@[i + 1]) by {
                if i < p0.len() - 1 {
                    assert(path@[i] == p0[i] && path@[i + 1] == p0[i + 1]);
                } else {
                    assert(path@[i] == p0.last());
                }
            }
        }
        let ghost v1 = bitvec_bits(*visited);
        let ghost r1 = bitvec_bits(*rec_stack);
        proof {
            assert forall|x: int| 0 <= x < n && v0[x] implies v1[x] by {
                if x != idx {
                    assert(v1[x] == v0[x]);
                }
            }
        }
        proof {
            assert forall|x: int| 0 <= x < n implies ((v1[x] && !r1[x]) <==> done@.contains(Symbol(x as u32))) by {
                if x != idx {
                    assert(v1[x] == v0[x] && r1[x] == r0[x]);
                } else {
                    assert(Symbol(x as u32) == node);
                }
            }
        }
        proof {
            assert(done@.take(done@.len() as int) =~= done@);
        }
        match self.neighbours_of(node) {
            Some(neighbours_list) => {
                let mut k: usize = 0;
                while k < neighbours_list.len()
                    invariant
                        self.wf(),
                        ev == self.edge_view(),
                        n <= MAX_BITS,
                        forall|m: int| 0 <= m < self.channels@.len() ==> (#[trigger] self.channels@[m]).0 < n,
                        neighbours_list@ == neighbours(ev, node),
                        k <= neighbours_list@.len(),
                        bitvec_bits(*visited).len() == n,
                        bitvec_bits(*rec_stack) == r1,
                        r1.len() == n,
                        path@ == p0.push(node),
                        is_walk(ev, path@),
                        forall|x: int| 0 <= x < n && v1[x] ==> bitvec_bits(*visited)[x],
                        forall|x: int| 0 <= x < n && r1[x] ==> bitvec_bits(*visited)[x],
                        forall|x: int| 0 <= x < n ==> (r1[x] <==> path@.contains(Symbol(x as u32))),
                        count_true(v1) == count_true(v0) + 1,
                        v1.len() == n,
                        v0.len() == n,
                        budget == count_false(v0),
                        v0 == bitvec_bits(*old(visited)),
                        forall|x: int| 0 <= x < n && v0[x] ==> v1[x],
                        count_false(bitvec_bits(*visited)) < count_false(v0),
                        old(done)@.len() <= done@.len(),
                        done@.take(old(done)@.len() as int) == old(done)@,
                        finished_in_order(ev, done@),
                        done@.no_duplicates(),
                        forall|m: int| 0 <= m < done@.len() ==> (#[trigger] done@[m]).0 < n,
                        forall|x: int|
                            #![trigger bitvec_bits(*visited)[x]]
                            #![trigger r1[x]]
                            #![trigger done@.contains(Symbol(x as u32))]
                            0 <= x < n ==> ((bitvec_bits(*visited)[x] && !r1[x]) <==> done@.contains(Symbol(x as u32))),
                        forall|m: int| 0 <= m < k ==> done@.contains(#[trigger] neighbours_list@[m]),
                        r1[node.0 as int],
                        node.0 < n,
                    decreases neighbours_list@.len() - k,
                {
                    let neighbour = neighbours_list[k];
                    proof {
                        assert(depends(ev, node, neighbour)) by {
                            assert(neighbours(ev, node)[k as int] == neighbour);
                        }
                        assert(self.channels@.contains(neighbour));
                        let m = choose|m: int| 0 <= m < self.channels@.len() && self.channels@[m] == neighbour;
                        assert(self.channels@[m].0 < n);
                    }
                    let nidx = neighbour.0 as usize;
                    if !bv_get(visited, nidx) {
                        let ghost before = bitvec_bits(*visited);
                        proof {
                            assert(path@.last() == node);
                            lemma_count_true_bound(bitvec_bits(*visited));
                        }
                        let ghost budget_next = count_false(bitvec_bits(*visited));
                        let ghost dm = done@;
                        proof {
                            assert forall|x: int| 0 <= x < n implies ((bitvec_bits(*visited)[x]
                                && !bitvec_bits(*rec_stack)[x]) <==> done@.contains(Symbol(x as u32))) by {
                                assert(bitvec_bits(*rec_stack)[x] == r1[x]);
                            }
                        }
                        match self.dfs_cycle(neighbour, visited, rec_stack, path, done, Ghost(n), Ghost(budget_next)) {
                            Some(cycle) => {
                                proof {
                                    assert forall|x: int| 0 <= x < n && v0[x] implies bitvec_bits(*visited)[x] by {
                                        assert(v1[x]);
                                        assert(before[x]);
                                    }
                                }
                                return Some(cycle);
                            },
                            None => {},
                        }
                        proof {
                            lemma_count_true_mono(before, bitvec_bits(*visited));
                            assert forall|x: int| 0 <= x < n implies ((bitvec_bits(*visited)[x] && !r1[x])
                                <==> done@.contains(Symbol(x as u32))) by {
                                assert(bitvec_bits(*rec_stack)[x] == r1[x]);
                            }
                            assert(done@.take(old(done)@.len() as int) =~= done@.take(dm.len() as int).take(
                                old(done)@.len() as int,
                            ));
                            assert forall|m: int| 0 <= m < k + 1 implies done@.contains(
                                #[trigger] neighbours_list@[m],
                            ) by {
                                if m < k {
                                    let q = choose|q: int| 0 <= q < dm.len() && dm[q] == neighbours_list@[m];
                                    assert(done@[q] == done@.take(dm.len() as int)[q]);
                                }
                            }
                        }
                    } else if bv_get(rec_stack, nidx) {
                        proof {
                            assert(path@.contains(Symbol(nidx as u32)));
                            assert(Symbol(nidx as u32) == neighbour);
                        }
                        let (cycle, Ghost(start)) = cycle_from(path, neighbour);
                        proof {
                            assert forall|x: int| 0 <= x < n && v0[x] implies bitvec_bits(*visited)[x] by {
                                assert(v1[x]);
                            }
                            let c = cycle@;
                            assert(c[0] == neighbour);
                            assert(c.last() == path@.last());
                            assert(path@.last() == node);
                            assert forall|i: int| 0 <= i < c.len() - 1 implies depends(ev, #[trigger] c[i], c[i + 1]) by {
                                assert(c[i] == path@[start + i]);
                                assert(c[i + 1] == path@[start + i + 1]);
                            }
                        }
                        return Some(cycle);
                    } else {
                        proof {
                            assert(Symbol(nidx as u32) == neighbour);
                            assert(done@.contains(neighbour));
                        }
                    }
                    k = k + 1;
                }
                proof {
                    assert forall|t: Symbol| #[trigger] depends(ev, node, t) implies done@.contains(t) by {
                        let m = choose|m: int| 0 <= m < neighbours_list@.len() && neighbours_list@[m] == t;
                        assert(done@.contains(neighbours_list@[m]));
                    }
                }
            },
            None => {},
        }
        path.pop();
        bv_set(rec_stack, idx, false);
        proof {
            assert(!done@.contains(node)) by {
                assert(Symbol(idx as u32) == node);
            }
            lemma_finish(ev, done@, node);
        }
        let ghost dd = done@;
        *done = Ghost(done@.push(node));
        proof {
            assert(forall|x: int| 0 <= x < n && v0[x] ==> v1[x]);
            assert(done@.take(old(done)@.len() as int) =~= dd.take(old(done)@.len() as int));
            assert(done@.contains(node)) by {
                assert(done@[dd.len() as int] == node);
            }
            assert forall|x: int| 0 <= x < n implies ((bitvec_bits(*visited)[x] && !bitvec_bits(*rec_stack)[x])
                <==> done@.contains(Symbol(x as u32))) by {
                if x != idx {
                    assert(bitvec_bits(*rec_stack)[x] == r1[x]);
                    if dd.contains(Symbol(x as u32)) {
                        let q = choose|q: int| 0 <= q < dd.len() && dd[q] == Symbol(x as u32);
                        assert(done@[q] == dd[q]);
                    }
                    if done@.contains(Symbol(x as u32)) {
                        let q = choose|q: int| 0 <= q < done@.len() && done@[q] == Symbol(x as u32);
                        if q == dd.len() {
                            assert(Symbol(x as u32) == node);
                        } else {
                            assert(dd[q] == done@[q]);
                        }
                    }
                } else {
                    assert(Symbol(x as u32) == node);
                }
            }
            assert forall|m: int| 0 <= m < done@.len() implies (#[trigger] done@[m]).0 < n by {
                if m < dd.len() {
                    assert(done@[m] == dd[m]);
                }
            }
            assert(path@ =~= p0);
            assert(bitvec_bits(*rec_stack) =~= r0) by {
                assert forall|x: int| 0 <= x < n implies bitvec_bits(*rec_stack)[x] == r0[x] by {
                    if x != idx {
                        assert(bitvec_bits(*rec_stack)[x] == r1[x]);
                    } else {
                        assert(!r0[x]);
                    }
                }
            }
        }
        None
    }
}

} // verus!
