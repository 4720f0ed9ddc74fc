//! Consumption modes of `for`-comprehension binds: a channel is consumed
//! linearly at most once, never both linearly and repeatedly, and every
//! channel is bound.
use crate::ast::{Bind, Name, Source, SourcePos, Var};
use crate::db::{lookup_binding, DbView, SemanticDb};
use crate::elab_errors::{vresult, ValidationError, ValidationErrorSpec, ValidationResult};
use crate::joins::{all_binds, get_name_position, name_position};
use crate::resolution::symbol_index;
use crate::text::{decimal, usize_to_string};
use crate::types::{Symbol, SymbolOccurrence, VarBinding, PID};
use vstd::prelude::*;
use vstd::string::StringExecFns;

verus! {

/// How a bind reads its channel.
#[derive(Clone, Copy, Debug, PartialEq, Eq, Structural)]
pub enum ConsumptionMode {
    Linear,
    Repeated,
    Peek,
}

/// The uses of each channel, by channel name, channels in order of first use.
pub type Usages = Seq<(Seq<char>, Seq<(ConsumptionMode, SourcePos)>)>;

/// The entry of `usages` for the channel `name`.
pub open spec fn entry_of(usages: Usages, name: Seq<char>) -> Option<int>
    decreases usages.len(),
{
    if usages.len() == 0 {
        None
    } else if usages.last().0 == name {
        Some(usages.len() - 1)
    } else {
        entry_of(usages.drop_last(), name)
    }
}

/// `usages` after a use of channel `name` in `mode` at `pos`.
pub open spec fn record(usages: Usages, name: Seq<char>, mode: ConsumptionMode, pos: SourcePos) -> Usages {
    match entry_of(usages, name) {
        Some(i) => usages.update(i, (name, usages[i].1.push((mode, pos)))),
        None => usages.push((name, seq![(mode, pos)])),
    }
}

/// The mode, channel and position of a bind.
pub open spec fn bind_use(b: Bind) -> (ConsumptionMode, Name) {
    match b {
        Bind::Linear { rhs, .. } => (ConsumptionMode::Linear, source_name_of(rhs)),
        Bind::Repeated { rhs, .. } => (ConsumptionMode::Repeated, rhs),
        Bind::Peek { rhs, .. } => (ConsumptionMode::Peek, rhs),
    }
}

pub open spec fn source_name_of(s: Source) -> Name {
    match s {
        Source::Simple { name } => name,
        Source::ReceiveSend { name } => name,
        Source::SendReceive { name, .. } => name,
    }
}

/// The uses recorded for `binds`: only named channels are tracked.
pub open spec fn track(binds: Seq<Bind>) -> Usages
    decreases binds.len(),
{
    if binds.len() == 0 {
        Seq::empty()
    } else {
        let prev = track(binds.drop_last());
        let (mode, name) = bind_use(binds.last());
        match name {
            Name::NameVar(Var::Id(id)) => record(prev, id.name@, mode, name_position(name)),
            _ => prev,
        }
    }
}

/// The positions of the linear uses among `uses`.
pub open spec fn linear_positions(uses: Seq<(ConsumptionMode, SourcePos)>) -> Seq<SourcePos>
    decreases uses.len(),
{
    if uses.len() == 0 {
        Seq::empty()
    } else {
        linear_positions(uses.drop_last()) + if uses.last().0 == ConsumptionMode::Linear {
            seq![uses.last().1]
        } else {
            Seq::empty()
        }
    }
}

pub open spec fn has_mode(uses: Seq<(ConsumptionMode, SourcePos)>, mode: ConsumptionMode) -> bool {
    exists|i: int| 0 <= i < uses.len() && (#[trigger] uses[i]).0 == mode
}

pub open spec fn multiple_linear_reason(n: nat) -> Seq<char> {
    "Channel consumed linearly multiple times. Linear consumption (<-) expects exactly one message, but channel appears "@
        + decimal(n as nat) + " times with linear consumption mode."@
}

pub open spec fn conflicting_modes_reason() -> Seq<char> {
    "Channel has conflicting consumption modes. Cannot use both linear (<-) and repeated (<=) consumption on the same channel in a single for-comprehension."@
}

/// What is wrong with the uses of one channel, if anything: more than one
/// linear use (reported at the second), or linear and repeated uses (reported
/// at the first linear one).
pub open spec fn usage_error(uses: Seq<(ConsumptionMode, SourcePos)>) -> Option<ValidationErrorSpec> {
    let lin = linear_positions(uses);
    if lin.len() > 1 {
        Some(
            ValidationErrorSpec::InvalidPatternStructure {
                pid: PID(0),
                position: Some(lin[1]),
                reason: multiple_linear_reason(lin.len()),
            },
        )
    } else if lin.len() > 0 && has_mode(uses, ConsumptionMode::Repeated) {
        Some(
            ValidationErrorSpec::InvalidPatternStructure {
                pid: PID(0),
                position: Some(lin[0]),
                reason: conflicting_modes_reason(),
            },
        )
    } else {
        None
    }
}

/// The error of the first channel, in order of first use, whose uses are wrong.
pub open spec fn usages_error(usages: Usages, from: int) -> Option<ValidationErrorSpec>
    decreases usages.len() - from,
{
    if from < 0 || from >= usages.len() {
        None
    } else {
        match usage_error(usages[from].1) {
            Some(e) => Some(e),
            None => usages_error(usages, from + 1),
        }
    }
}

/// The existence check of a channel: a named channel must have a binding.
pub open spec fn spec_exists_check(v: DbView, n: Name) -> Result<(), ValidationErrorSpec> {
    match n {
        Name::NameVar(Var::Id(id)) => {
            let bound = exists|sym: Symbol|
                sym.0 < v.strings.len() && v.strings[sym.0 as int] == id.name@ && lookup_binding(
                    v.bound,
                    SymbolOccurrence { position: id.pos, symbol: sym },
                ) is Some;
            if bound {
                Ok(())
            } else {
                Err(
                    ValidationErrorSpec::UnboundVariable {
                        var: if v.strings.contains(id.name@) {
                            symbol_index(v.strings, id.name@)
                        } else {
                            Symbol(v.strings.len() as u32)
                        },
                        pos: id.pos,
                    },
                )
            }
        },
        _ => Ok(()),
    }
}

/// The existence check of the channels of `binds`, in order.
pub open spec fn spec_exists_all(v: DbView, binds: Seq<Bind>) -> Result<(), ValidationErrorSpec>
    decreases binds.len(),
{
    if binds.len() == 0 {
        Ok(())
    } else {
        match spec_exists_check(v, bind_use(binds[0]).1) {
            Err(e) => Err(e),
            Ok(()) => spec_exists_all(v, binds.drop_first()),
        }
    }
}

/// The full consumption check.
pub open spec fn spec_consumption(v: DbView, receipts: Seq<Vec<Bind>>) -> Result<(), ValidationErrorSpec> {
    match usages_error(track(all_binds(receipts)), 0) {
        Some(e) => Err(e),
        None => spec_exists_all(v, all_binds(receipts)),
    }
}

/// The uses of each channel of one `for` comprehension.
pub struct ConsumptionTracker {
    channel_usages: Vec<(String, Vec<(ConsumptionMode, SourcePos)>)>,
}

impl ConsumptionTracker {
    pub closed spec fn usages(&self) -> Usages {
        self.channel_usages@.map_values(
            |e: (String, Vec<(ConsumptionMode, SourcePos)>)| (e.0@, e.1@),
        )
    }

    pub fn new() -> (r: Self)
        ensures
            r.usages() == Seq::<(Seq<char>, Seq<(ConsumptionMode, SourcePos)>)>::empty(),
    {
        let r = ConsumptionTracker { channel_usages: Vec::new() };
        proof {
            assert(r.usages() =~= Seq::<(Seq<char>, Seq<(ConsumptionMode, SourcePos)>)>::empty());
        }
        r
    }

    /// The uses of each channel, channels in order of first use.
    pub fn channel_usages(&self) -> (r: &Vec<(String, Vec<(ConsumptionMode, SourcePos)>)>)
        ensures
            r@.map_values(|e: (String, Vec<(ConsumptionMode, SourcePos)>)| (e.0@, e.1@)) == self.usages(),
    {
        &self.channel_usages
    }

    /// Records a use of channel `channel` in `mode` at `pos`.
    pub fn record_usage(&mut self, channel: &str, mode: ConsumptionMode, pos: SourcePos)
        ensures
            final(self).usages() == record(old(self).usages(), channel@, mode, pos),
    {
        let mut i = self.channel_usages.len();
        proof {
            assert(old(self).usages().take(i as int) =~= old(self).usages());
        }
        while i > 0
            invariant
                i <= self.channel_usages@.len(),
                self.channel_usages@ == old(self).channel_usages@,
                entry_of(self.usages(), channel@) == entry_of(self.usages().take(i as int), channel@),
            decreases i,
        {
            proof {
                let t = self.usages().take(i as int);
                assert(t.drop_last() =~= self.usages().take(i - 1));
                assert(t.last() == self.usages()[i - 1]);
            }
            if string_eq(self.channel_usages[i - 1].0.as_str(), channel) {
                let ghost before = self.usages();
                let mut entry = self.channel_usages.remove(i - 1);
                entry.1.push((mode, pos));
                self.channel_usages.insert(i - 1, entry);
                proof {
                    assert(self.usages() =~= before.update(i - 1, (channel@, before[i - 1].1.push((mode, pos)))));
                }
                return;
            }
            i = i - 1;
        }
        proof {
            assert(self.usages().take(0) =~= Seq::<(Seq<char>, Seq<(ConsumptionMode, SourcePos)>)>::empty());
        }
        let mut uses: Vec<(ConsumptionMode, SourcePos)> = Vec::new();
        uses.push((mode, pos));
        let ghost before = self.usages();
        self.channel_usages.push((String::from_str(channel), uses));
        proof {
            assert(self.usages() =~= before.push((channel@, seq![(mode, pos)])));
        }
    }

    /// The error of the first channel, in order of first use, that is consumed
    /// linearly more than once, or both linearly and repeatedly.
    pub fn validate_linear_consumption(&self) -> (r: ValidationResult)
        ensures
            vresult(r) == match usages_error(self.usages(), 0) {
                Some(e) => Err(e),
                None => Ok(()),
            },
    {
        let mut i: usize = 0;
        while i < self.channel_usages.len()
            invariant
                i <= self.channel_usages@.len(),
                usages_error(self.usages(), 0) == usages_error(self.usages(), i as int),
            decreases self.channel_usages@.len() - i,
        {
            let usages = &self.channel_usages[i].1;
            proof {
                assert(self.usages()[i as int].1 == usages@);
            }
            let mut linear: Vec<SourcePos> = Vec::new();
            let mut has_repeated = false;
            let mut k: usize = 0;
            while k < usages.len()
                invariant
                    k <= usages@.len(),
                    linear@ == linear_positions(usages@.take(k as int)),
                    has_repeated == has_mode(usages@.take(k as int), ConsumptionMode::Repeated),
                decreases usages@.len() - k,
            {
                let (mode, pos) = usages[k];
                proof {
                    let t = usages@.take(k + 1);
                    assert(t.drop_last() =~= usages@.take(k as int));
                    assert(t.last() == usages@[k as int]);
                    if has_mode(t, ConsumptionMode::Repeated) && !has_mode(usages@.take(k as int), ConsumptionMode::Repeated) {
                        let m = choose|m: int| 0 <= m < t.len() && (#[trigger] t[m]).0 == ConsumptionMode::Repeated;
                        if m < k {
                            assert(usages@.take(k as int)[m] == t[m]);
                        }
                    }
                    if has_mode(usages@.take(k as int), ConsumptionMode::Repeated) {
                        let m = choose|m: int| 0 <= m < k && (#[trigger] usages@.take(k as int)[m]).0 == ConsumptionMode::Repeated;
                        assert(t[m] == usages@.take(k as int)[m]);
                    }
                }
                if mode == ConsumptionMode::Linear {
                    linear.push(pos);
                }
                if mode == ConsumptionMode::Repeated {
                    has_repeated = true;
                    proof {
                        assert(usages@.take(k + 1)[k as int].0 == ConsumptionMode::Repeated);
                    }
                }
                k = k + 1;
            }
            proof {
                assert(usages@.take(k as int) =~= usages@);
            }
            if linear.len() > 1 {
                let n = usize_to_string(linear.len());
                let mut reason = String::from_str(
                    "Channel consumed linearly multiple times. Linear consumption (<-) expects exactly one message, but channel appears ",
                );
                reason.append(n.as_str());
                reason.append(" times with linear consumption mode.");
                return Err(
                    ValidationError::InvalidPatternStructure {
                        pid: PID(0),
                        position: Some(linear[1]),
                        reason,
                    },
                );
            }
            if linear.len() > 0 && has_repeated {
                return Err(
                    ValidationError::InvalidPatternStructure {
                        pid: PID(0),
                        position: Some(linear[0]),
                        reason: String::from_str(
                            "Channel has conflicting consumption modes. Cannot use both linear (<-) and repeated (<=) consumption on the same channel in a single for-comprehension.",
                        ),
                    },
                );
            }
            i = i + 1;
        }
        Ok(())
    }
}

/// `a` and `b` are the same text.
fn string_eq(a: &str, b: &str) -> (r: bool)
    ensures
        r == (a@ == b@),
{
    let n = a.unicode_len();
    if n != b.unicode_len() {
        return false;
    }
    let mut i: usize = 0;
    while i < n
        invariant
            n == a@.len(),
            n == b@.len(),
            i <= n,
            forall|k: int| 0 <= k < i ==> a@[k] == b@[k],
        decreases n - i,
    {
        if a.get_char(i) != b.get_char(i) {
            return false;
        }
        i = i + 1;
    }
    proof {
        assert(a@ =~= b@);
    }
    true
}

/// Checks the consumption modes of `for` comprehensions.
pub struct ConsumptionValidator<'a, 'b> {
    pub db: &'a SemanticDb<'b>,
}

impl<'a, 'b> ConsumptionValidator<'a, 'b> {
    pub fn new(db: &'a SemanticDb<'b>) -> (r: Self)
        ensures
            r.db == db,
    {
        ConsumptionValidator { db }
    }

    /// Tracks the uses of each channel and checks them, then checks that
    /// every channel has a binding.
    pub fn validate(&self, for_comp_pid: PID, receipts: &Vec<Vec<Bind>>) -> (r: ValidationResult)
        requires
            self.db.inv(),
        ensures
            vresult(r) == spec_consumption(self.db@, receipts@),
    {
        let tracker = self.track_consumption_patterns(receipts);
        tracker.validate_linear_consumption()?;
        self.detect_reentrancy_patterns(receipts)?;
        self.verify_all_channels(receipts)?;
        Ok(())
    }

    /// The uses of the named channels of `receipts`, bind by bind.
    pub fn track_consumption_patterns(&self, receipts: &Vec<Vec<Bind>>) -> (r: ConsumptionTracker)
        ensures
            r.usages() == track(all_binds(receipts@)),
    {
        let mut tracker = ConsumptionTracker::new();
        let mut i: usize = 0;
        proof {
            assert(receipts@.take(0) =~= Seq::<Vec<Bind>>::empty());
        }
        while i < receipts.len()
            invariant
                i <= receipts@.len(),
                tracker.usages() == track(all_binds(receipts@.take(i as int))),
            decreases receipts@.len() - i,
        {
            let receipt = &receipts[i];
            let ghost before = all_binds(receipts@.take(i as int));
            let mut j: usize = 0;
            proof {
                assert(before + receipt@.take(0) =~= before);
            }
            while j < receipt.len()
                invariant
                    j <= receipt@.len(),
                    tracker.usages() == track(before + receipt@.take(j as int)),
                decreases receipt@.len() - j,
            {
                let bind = &receipt[j];
                let (mode, source_name): (ConsumptionMode, &Name) = match bind {
                    Bind::Linear { rhs, .. } => (ConsumptionMode::Linear, self.extract_name_from_source(rhs)),
                    Bind::Repeated { rhs, .. } => (ConsumptionMode::Repeated, rhs),
                    Bind::Peek { rhs, .. } => (ConsumptionMode::Peek, rhs),
                };
                let pos = get_name_position(source_name);
                proof {
                    let s = before + receipt@.take(j + 1);
                    assert(s.drop_last() =~= before + receipt@.take(j as int));
                    assert(s.last() == receipt@[j as int]);
                }
                match source_name {
                    Name::NameVar(Var::Id(id)) => {
                        tracker.record_usage(id.name.as_str(), mode, pos);
                    },
                    _ => {},
                }
                j = j + 1;
            }
            proof {
                assert(receipt@.take(j as int) =~= receipt@);
                assert(receipts@.take(i + 1).drop_last() =~= receipts@.take(i as int));
                assert(receipts@.take(i + 1).last() == receipts@[i as int]);
            }
            i = i + 1;
        }
        proof {
            assert(receipts@.take(i as int) =~= receipts@);
        }
        tracker
    }

    /// The channel of a source.
    pub fn extract_name_from_source<'s>(&self, source: &'s Source) -> (r: &'s Name)
        ensures
            *r == source_name_of(*source),
    {
        match source {
            Source::Simple { name } => name,
            Source::ReceiveSend { name } => name,
            Source::SendReceive { name, .. } => name,
        }
    }

    /// Structural reentrancy patterns are looked for but not reported.
    pub fn detect_reentrancy_patterns(&self, receipts: &Vec<Vec<Bind>>) -> (r: ValidationResult)
        ensures
            r is Ok,
    {
        let mut i: usize = 0;
        while i < receipts.len()
            invariant
                i <= receipts@.len(),
            decreases receipts@.len() - i,
        {
            let receipt = &receipts[i];
            let mut j: usize = 0;
            while j < receipt.len()
                invariant
                    j <= receipt@.len(),
                decreases receipt@.len() - j,
            {
                match &receipt[j] {
                    Bind::Linear { rhs, .. } => {
                        let _ = self.is_reentrancy_pattern(rhs);
                    },
                    _ => {},
                }
                j = j + 1;
            }
            i = i + 1;
        }
        Ok(())
    }

    /// A source that sends and receives on its channel.
    pub fn is_reentrancy_pattern(&self, source: &Source) -> (r: bool)
        ensures
            r == !(*source is Simple),
    {
        match source {
            Source::SendReceive { .. } | Source::ReceiveSend { .. } => true,
            Source::Simple { .. } => false,
        }
    }

    /// Every channel of every bind has a binding.
    pub fn verify_all_channels(&self, receipts: &Vec<Vec<Bind>>) -> (r: ValidationResult)
        requires
            self.db.inv(),
        ensures
            vresult(r) == spec_exists_all(self.db@, all_binds(receipts@)),
    {
        let mut i: usize = 0;
        proof {
            assert(receipts@.take(0) =~= Seq::<Vec<Bind>>::empty());
            assert(all_binds(receipts@).skip(0) =~= all_binds(receipts@));
        }
        while i < receipts.len()
            invariant
                i <= receipts@.len(),
                self.db.inv(),
                all_binds(receipts@.take(i as int)).len() <= all_binds(receipts@).len(),
                all_binds(receipts@).take(all_binds(receipts@.take(i as int)).len() as int) == all_binds(receipts@.take(i as int)),
                spec_exists_all(self.db@, all_binds(receipts@)) == spec_exists_all(
                    self.db@,
                    all_binds(receipts@).skip(all_binds(receipts@.take(i as int)).len() as int),
                ),
            decreases receipts@.len() - i,
        {
            let receipt = &receipts[i];
            let ghost done = all_binds(receipts@.take(i as int)).len() as int;
            proof {
                crate::joins::lemma_all_binds_split(receipts@, i as int);
            }
            let mut j: usize = 0;
            while j < receipt.len()
                invariant
                    j <= receipt@.len(),
                    self.db.inv(),
                    0 <= done,
                    done == all_binds(receipts@.take(i as int)).len(),
                    receipt@ == receipts@[i as int]@,
                    done + receipt@.len() <= all_binds(receipts@).len(),
                    all_binds(receipts@).subrange(done, done + receipt@.len()) == receipt@,
                    spec_exists_all(self.db@, all_binds(receipts@)) == spec_exists_all(
                        self.db@,
                        all_binds(receipts@).skip(done + j),
                    ),
                decreases receipt@.len() - j,
            {
                let name: &Name = match &receipt[j] {
                    Bind::Linear { rhs, .. } => self.extract_name_from_source(rhs),
                    Bind::Repeated { rhs, .. } => rhs,
                    Bind::Peek { rhs, .. } => rhs,
                };
                let ghost rest = all_binds(receipts@).skip(done + j);
                proof {
                    assert(all_binds(receipts@).subrange(done, done + receipt@.len())[j as int] == receipt@[j as int]);
                    assert(rest[0] == receipt@[j as int]);
                    assert(rest.drop_first() =~= all_binds(receipts@).skip(done + j + 1));
                }
                self.verify_channel_exists(name)?;
                j = j + 1;
            }
            proof {
                crate::joins::lemma_all_binds_split(receipts@, i as int);
                assert(receipts@.take(i + 1).drop_last() =~= receipts@.take(i as int));
                assert(receipts@.take(i + 1).last() == receipts@[i as int]);
                assert(all_binds(receipts@.take(i + 1)) == all_binds(receipts@.take(i as int)) + receipt@);
                assert(all_binds(receipts@).take(done + receipt@.len()) =~= all_binds(receipts@.take(i + 1))) by {
                    assert(all_binds(receipts@).take(done) == all_binds(receipts@.take(i as int)));
                }
            }
            i = i + 1;
        }
        proof {
            assert(receipts@.take(i as int) =~= receipts@);
            assert(all_binds(receipts@).skip(all_binds(receipts@).len() as int) =~= Seq::<Bind>::empty());
        }
        Ok(())
    }

    /// A named channel must have a binding; wildcards and quoted processes
    /// are always channels.
    pub fn verify_channel_exists(&self, name: &Name) -> (r: ValidationResult)
        requires
            self.db.inv(),
        ensures
            vresult(r) == spec_exists_check(self.db@, *name),
    {
        proof {
            self.db.lemma_inv_wf();
        }
        match name {
            Name::NameVar(Var::Id(id)) => {
                if self.db.binder_of_id(id).is_none() {
                    let sym = match self.db.symbol_of(id.name.as_str()) {
                        Some(s) => {
                            proof {
                                let i = choose|i: int| 0 <= i < self.db@.strings.len() && self.db@.strings[i] == id.name@;
                                assert(self.db@.strings[s.0 as int] == id.name@);
                                assert(i == s.0);
                            }
                            s
                        },
                        None => Symbol(self.db.symbol_count() as u32),
                    };
                    return Err(ValidationError::UnboundVariable { var: sym, pos: id.pos });
                }
                Ok(())
            },
            _ => Ok(()),
        }
    }
}

} // verus!
