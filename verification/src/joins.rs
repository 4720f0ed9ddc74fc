//! Join semantics of `for` comprehensions: the binds of one join group use
//! one arrow, join groups are not empty, and every channel is bound.
use crate::arrow_validator::arrow_of;
use crate::ast::{Bind, Name, Source, SourcePos, Var};
use crate::db::{lookup_binding, DbView, SemanticDb};
use crate::elab_errors::{vresult, ValidationError, ValidationErrorSpec, ValidationResult};
use crate::resolution::symbol_index;
use crate::deps::DependencyGraph;
use crate::types::{ArrowKind, Symbol, SymbolOccurrence, VarBinding, PID};
use vstd::prelude::*;
use vstd::string::StringExecFns;

verus! {

/// Where a name stands in the source; the wildcard carries no position.
pub open spec fn name_position(n: Name) -> SourcePos {
    match n {
        Name::NameVar(Var::Id(id)) => id.pos,
        Name::NameVar(Var::Wildcard) => SourcePos { line: 0, col: 0 },
        Name::Quote(p) => p.span.start,
    }
}

pub fn get_name_position(n: &Name) -> (r: SourcePos)
    ensures
        r == name_position(*n),
{
    match n {
        Name::NameVar(Var::Id(id)) => id.pos,
        Name::NameVar(Var::Wildcard) => SourcePos::origin(),
        Name::Quote(p) => p.span.start,
    }
}

/// Where the channel of a bind stands.
pub open spec fn bind_channel_position(b: Bind) -> SourcePos {
    name_position(*b.spec_source_name())
}

/// The arrows of `binds[..n]`, each once, in the order they first appear.
pub open spec fn distinct_arrows(binds: Seq<Bind>, n: int) -> Seq<ArrowKind>
    decreases n,
{
    if n <= 0 {
        Seq::empty()
    } else {
        let d = distinct_arrows(binds, n - 1);
        if d.contains(arrow_of(binds[n - 1])) {
            d
        } else {
            d.push(arrow_of(binds[n - 1]))
        }
    }
}

/// The first join group from `i` on that mixes arrows, with its arrows.
pub open spec fn first_mixed(receipts: Seq<Vec<Bind>>, i: int) -> Option<(int, Seq<ArrowKind>)>
    decreases receipts.len() - i,
{
    if i < 0 || i >= receipts.len() {
        None
    } else if receipts[i]@.len() > 1 && distinct_arrows(receipts[i]@, receipts[i]@.len() as int).len() > 1 {
        Some((i, distinct_arrows(receipts[i]@, receipts[i]@.len() as int)))
    } else {
        first_mixed(receipts, i + 1)
    }
}

/// The arrow check of the join groups `receipts`.
pub open spec fn spec_arrow_homogeneity(receipts: Seq<Vec<Bind>>) -> Result<(), ValidationErrorSpec> {
    match first_mixed(receipts, 0) {
        Some((i, arrows)) => Err(
            ValidationErrorSpec::MixedArrowTypes {
                receipt_index: i as usize,
                found_types: arrows,
                pos: Some(bind_channel_position(receipts[i]@[0])),
            },
        ),
        None => Ok(()),
    }
}

/// The availability check of the channel `n`: a named channel must be bound
/// to a binder.
pub open spec fn spec_channel_check(v: DbView, n: Name) -> Result<(), ValidationErrorSpec> {
    match n {
        Name::NameVar(Var::Id(id)) => {
            let sym = if v.strings.contains(id.name@) {
                symbol_index(v.strings, id.name@)
            } else {
                Symbol(v.strings.len() as u32)
            };
            match lookup_binding(v.bound, SymbolOccurrence { position: id.pos, symbol: sym }) {
                Some(VarBinding::Bound(_)) => Ok(()),
                _ => Err(ValidationErrorSpec::UnboundVariable { var: sym, pos: id.pos }),
            }
        },
        _ => Ok(()),
    }
}

/// The first bind, in order, whose channel fails the availability check.
pub open spec fn spec_channels_check(v: DbView, binds: Seq<Bind>) -> Result<(), ValidationErrorSpec>
    decreases binds.len(),
{
    if binds.len() == 0 {
        Ok(())
    } else {
        match spec_channel_check(v, *binds[0].spec_source_name()) {
            Err(e) => Err(e),
            Ok(()) => spec_channels_check(v, binds.drop_first()),
        }
    }
}

/// The channels of `receipts`, group by group, as one sequence of binds.
pub open spec fn all_binds(receipts: Seq<Vec<Bind>>) -> Seq<Bind>
    decreases receipts.len(),
{
    if receipts.len() == 0 {
        Seq::empty()
    } else {
        all_binds(receipts.drop_last()) + receipts.last()@
    }
}

/// The full join check.
pub open spec fn spec_join_check(v: DbView, receipts: Seq<Vec<Bind>>) -> Result<(), ValidationErrorSpec> {
    match spec_arrow_homogeneity(receipts) {
        Err(e) => Err(e),
        Ok(()) => spec_channels_check(v, all_binds(receipts)),
    }
}

/// Checks the join semantics of `for` comprehensions.
pub struct JoinValidator<'a, 'b> {
    pub db: &'a SemanticDb<'b>,
}

impl<'a, 'b> JoinValidator<'a, 'b> {
    pub fn new(db: &'a SemanticDb<'b>) -> (r: Self)
        ensures
            r.db == db,
    {
        JoinValidator { db }
    }

    /// Arrows, atomicity, circular waits, then channel availability.
    pub fn validate(&self, for_comp_pid: PID, receipts: &Vec<Vec<Bind>>) -> (r: ValidationResult)
        requires
            self.db.inv(),
        ensures
            vresult(r) == spec_join_check(self.db@, receipts@),
    {
        self.validate_arrow_type_homogeneity(receipts)?;
        self.validate_join_atomicity(receipts)?;
        self.detect_deadlocks(receipts)?;
        self.validate_channel_availability(for_comp_pid, receipts)?;
        Ok(())
    }

    /// Every join group with several binds is non-empty, so this holds.
    pub fn validate_join_atomicity(&self, receipts: &Vec<Vec<Bind>>) -> (r: ValidationResult)
        ensures
            r is Ok,
    {
        let mut i: usize = 0;
        while i < receipts.len()
            invariant
                i <= receipts@.len(),
            decreases receipts@.len() - i,
        {
            if receipts[i].len() > 1 {
                self.check_atomic_group(&receipts[i])?;
            }
            i = i + 1;
        }
        Ok(())
    }

    /// A join group must not be empty.
    fn check_atomic_group(&self, receipt: &Vec<Bind>) -> (r: ValidationResult)
        ensures
            match vresult(r) {
                Ok(()) => receipt@.len() > 0,
                Err(e) => receipt@.len() == 0 && e == ValidationErrorSpec::InvalidPatternStructure {
                    pid: PID(0),
                    position: None,
                    reason: "Parallel join group cannot be empty"@,
                },
            },
    {
        if receipt.len() == 0 {
            return Err(
                ValidationError::InvalidPatternStructure {
                    pid: PID(0),
                    position: None,
                    reason: crate::text::owned("Parallel join group cannot be empty"),
                },
            );
        }
        Ok(())
    }

    /// A circular wait among the channels of the dependency graph is an
    /// error.  The graph is empty, as waits across comprehensions are not
    /// analysed, so none is found.
    pub fn detect_deadlocks(&self, receipts: &Vec<Vec<Bind>>) -> (r: ValidationResult)
        requires
            self.db.inv(),
        ensures
            r is Ok,
    {
        let graph = self.build_dependency_graph(receipts);
        if graph.is_empty() {
            return Ok(());
        }
        match graph.find_cycle() {
            Some(cycle) => {
                let mut text = String::from_str("Circular dependency detected: ");
                let mut first = true;
                let mut i: usize = 0;
                while i < cycle.len()
                    invariant
                        i <= cycle@.len(),
                    decreases cycle@.len() - i,
                {
                    match self.db.resolve_symbol(cycle[i]) {
                        Some(name) => {
                            if !first {
                                text.append(" -> ");
                            }
                            text.append(name);
                            first = false;
                        },
                        None => {},
                    }
                    i = i + 1;
                }
                Err(ValidationError::DeadlockPotential { receipts: text, pos: None })
            },
            None => Ok(()),
        }
    }

    /// The dependency graph of `receipts`: the channels of each join group
    /// are looked at, and no dependency is recorded.
    fn build_dependency_graph(&self, receipts: &Vec<Vec<Bind>>) -> (r: DependencyGraph)
        requires
            self.db.inv(),
        ensures
            r.channels@.len() == 0,
            r.edges@.len() == 0,
    {
        let graph = DependencyGraph::new();
        let mut i: usize = 0;
        while i < receipts.len()
            invariant
                i <= receipts@.len(),
                self.db.inv(),
            decreases receipts@.len() - i,
        {
            let receipt = &receipts[i];
            if receipt.len() > 1 {
                let mut channels_in_parallel: Vec<Symbol> = Vec::new();
                let mut j: usize = 0;
                while j < receipt.len()
                    invariant
                        j <= receipt@.len(),
                        self.db.inv(),
                    decreases receipt@.len() - j,
                {
                    match self.get_channel_symbol(receipt[j].source_name()) {
                        Some(channel) => {
                            let mut seen = false;
                            let mut k: usize = 0;
                            while k < channels_in_parallel.len()
                                invariant
                                    k <= channels_in_parallel@.len(),
                                decreases channels_in_parallel@.len() - k,
                            {
                                if channels_in_parallel[k].0 == channel.0 {
                                    seen = true;
                                }
                                k = k + 1;
                            }
                            if !seen {
                                channels_in_parallel.push(channel);
                            }
                        },
                        None => {},
                    }
                    j = j + 1;
                }
            }
            i = i + 1;
        }
        graph
    }

    /// Every channel of every bind must be bound to a binder.
    pub fn validate_channel_availability(&self, for_comp_pid: PID, receipts: &Vec<Vec<Bind>>) -> (r: ValidationResult)
        requires
            self.db.inv(),
        ensures
            vresult(r) == spec_channels_check(self.db@, all_binds(receipts@)),
    {
        let mut i: usize = 0;
        proof {
            assert(receipts@.take(0) =~= Seq::<Vec<Bind>>::empty());
            assert(all_binds(receipts@) =~= all_binds(receipts@.take(0)) + all_binds(receipts@).skip(0));
        }
        while i < receipts.len()
            invariant
                i <= receipts@.len(),
                self.db.inv(),
                spec_channels_check(self.db@, all_binds(receipts@)) == spec_channels_check(
                    self.db@,
                    all_binds(receipts@).skip(all_binds(receipts@.take(i as int)).len() as int),
                ),
                all_binds(receipts@.take(i as int)).len() <= all_binds(receipts@).len(),
                all_binds(receipts@).take(all_binds(receipts@.take(i as int)).len() as int) == all_binds(receipts@.take(i as int)),
            decreases receipts@.len() - i,
        {
            let receipt = &receipts[i];
            let ghost done = all_binds(receipts@.take(i as int)).len() as int;
            proof {
                lemma_all_binds_split(receipts@, i as int);
            }
            let mut j: usize = 0;
            while j < receipt.len()
                invariant
                    j <= receipt@.len(),
                    self.db.inv(),
                    0 <= done,
                    done == all_binds(receipts@.take(i as int)).len(),
                    receipt@ == receipts@[i as int]@,
                    done + receipt@.len() <= all_binds(receipts@).len(),
                    all_binds(receipts@).subrange(done, done + receipt@.len()) == receipt@,
                    spec_channels_check(self.db@, all_binds(receipts@)) == spec_channels_check(
                        self.db@,
                        all_binds(receipts@).skip(done + j),
                    ),
                decreases receipt@.len() - j,
            {
                let channel_name = receipt[j].source_name();
                let ghost rest = all_binds(receipts@).skip(done + j);
                proof {
                    assert(rest[0] == receipt@[j as int]) by {
                        assert(all_binds(receipts@).subrange(done, done + receipt@.len())[j as int] == receipt@[j as int]);
                    }
                    assert(rest.drop_first() =~= all_binds(receipts@).skip(done + j + 1));
                }
                self.verify_channel(channel_name)?;
                j = j + 1;
            }
            proof {
                lemma_all_binds_split(receipts@, i as int);
                assert(receipts@.take(i + 1).drop_last() =~= receipts@.take(i as int));
                assert(receipts@.take(i + 1).last() == receipts@[i as int]);
                assert(all_binds(receipts@.take(i + 1)) == all_binds(receipts@.take(i as int)) + receipt@);
                assert(all_binds(receipts@).take(done + receipt@.len()) =~= all_binds(receipts@.take(i + 1))) by {
                    assert(all_binds(receipts@).take(done) == all_binds(receipts@.take(i as int)));
                }
            }
            i = i + 1;
        }
        proof {
            assert(receipts@.take(i as int) =~= receipts@);
            assert(all_binds(receipts@).skip(all_binds(receipts@).len() as int) =~= Seq::<Bind>::empty());
        }
        Ok(())
    }

    /// The availability check of one channel.
    pub fn verify_channel(&self, name: &Name) -> (r: ValidationResult)
        requires
            self.db.inv(),
        ensures
            vresult(r) == spec_channel_check(self.db@, *name),
    {
        proof {
            self.db.lemma_inv_wf();
        }
        match name {
            Name::NameVar(Var::Id(id)) => {
                let sym = match self.db.symbol_of(id.name.as_str()) {
                    Some(s) => {
                        proof {
                            let i = choose|i: int| 0 <= i < self.db@.strings.len() && self.db@.strings[i] == id.name@;
                            assert(self.db@.strings[s.0 as int] == id.name@);
                            assert(i == s.0);
                        }
                        s
                    },
                    None => Symbol(self.db.symbol_count() as u32),
                };
                match self.db.binder_of(SymbolOccurrence { position: id.pos, symbol: sym }) {
                    Some(VarBinding::Bound(_)) => Ok(()),
                    _ => Err(ValidationError::UnboundVariable { var: sym, pos: id.pos }),
                }
            },
            _ => Ok(()),
        }
    }

    /// The symbol of a named channel; none for wildcards, quotes and names
    /// never interned.
    pub fn get_channel_symbol(&self, name: &Name) -> (r: Option<Symbol>)
        requires
            self.db.inv(),
        ensures
            match *name {
                Name::NameVar(Var::Id(id)) => match r {
                    Some(s) => s.0 < self.db@.strings.len() && self.db@.strings[s.0 as int] == id.name@,
                    None => !self.db@.strings.contains(id.name@),
                },
                _ => r is None,
            },
    {
        match name {
            Name::NameVar(Var::Id(id)) => self.db.symbol_of(id.name.as_str()),
            _ => None,
        }
    }

    /// The binds of each join group with several binds must all use one
    /// arrow; the first group that mixes arrows is an error listing its
    /// arrows in order of appearance.
    pub fn validate_arrow_type_homogeneity(&self, receipts: &Vec<Vec<Bind>>) -> (r: ValidationResult)
        ensures
            vresult(r) == spec_arrow_homogeneity(receipts@),
    {
        let mut i: usize = 0;
        while i < receipts.len()
            invariant
                i <= receipts@.len(),
                first_mixed(receipts@, 0) == first_mixed(receipts@, i as int),
            decreases receipts@.len() - i,
        {
            let receipt = &receipts[i];
            if receipt.len() > 1 {
                let mut arrow_types: Vec<ArrowKind> = Vec::new();
                let first_pos = get_name_position(receipt[0].source_name());
                let mut j: usize = 0;
                while j < receipt.len()
                    invariant
                        j <= receipt@.len(),
                        receipt@ == receipts@[i as int]@,
                        arrow_types@ == distinct_arrows(receipt@, j as int),
                    decreases receipt@.len() - j,
                {
                    let arrow = crate::arrow_validator::ArrowTypeValidator::arrow_type_name(&receipt[j]);
                    let mut present = false;
                    let mut k: usize = 0;
                    while k < arrow_types.len()
                        invariant
                            k <= arrow_types@.len(),
                            present == (exists|m: int| 0 <= m < k && arrow_types@[m] == arrow),
                        decreases arrow_types@.len() - k,
                    {
                        if arrow_types[k] == arrow {
                            present = true;
                        }
                        k = k + 1;
                    }
                    proof {
                        if present {
                            let m = choose|m: int| 0 <= m < k && arrow_types@[m] == arrow;
                            assert(arrow_types@.contains(arrow));
                        } else {
                            assert(!arrow_types@.contains(arrow));
                        }
                    }
                    if !present {
                        arrow_types.push(arrow);
                    }
                    j = j + 1;
                }
                if arrow_types.len() > 1 {
                    proof {
                        assert(first_mixed(receipts@, i as int) == Some((i as int, arrow_types@)));
                    }
                    return Err(
                        ValidationError::MixedArrowTypes {
                            receipt_index: i,
                            found_types: arrow_types,
                            pos: Some(first_pos),
                        },
                    );
                }
            }
            i = i + 1;
        }
        Ok(())
    }
}

pub proof fn lemma_all_binds_split(receipts: Seq<Vec<Bind>>, i: int)
    requires
        0 <= i < receipts.len(),
    ensures
        all_binds(receipts.take(i)).len() + receipts[i]@.len() <= all_binds(receipts).len(),
        all_binds(receipts).take(all_binds(receipts.take(i)).len() as int) == all_binds(receipts.take(i)),
        all_binds(receipts).subrange(
            all_binds(receipts.take(i)).len() as int,
            (all_binds(receipts.take(i)).len() + receipts[i]@.len()) as int,
        ) == receipts[i]@,
    decreases receipts.len(),
{
    if i < receipts.len() - 1 {
        lemma_all_binds_split(receipts.drop_last(), i);
        assert(receipts.drop_last().take(i) =~= receipts.take(i));
        assert(receipts.drop_last()[i] == receipts[i]);
        let a = all_binds(receipts.drop_last());
        assert(all_binds(receipts) == a + receipts.last()@);
        assert(all_binds(receipts).take(all_binds(receipts.take(i)).len() as int) =~= a.take(
            all_binds(receipts.take(i)).len() as int,
        ));
        assert(all_binds(receipts).subrange(
            all_binds(receipts.take(i)).len() as int,
            (all_binds(receipts.take(i)).len() + receipts[i]@.len()) as int,
        ) =~= a.subrange(
            all_binds(receipts.take(i)).len() as int,
            (all_binds(receipts.take(i)).len() + receipts[i]@.len()) as int,
        ));
    } else {
        assert(receipts.drop_last() =~= receipts.take(i));
        let a = all_binds(receipts.take(i));
        assert(all_binds(receipts) == a + receipts.last()@);
        assert(all_binds(receipts).take(a.len() as int) =~= a);
        assert(all_binds(receipts).subrange(a.len() as int, (a.len() + receipts[i]@.len()) as int) =~= receipts[i]@);
    }
}

} // verus!
