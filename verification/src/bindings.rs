//! Classification of the bindings of `for` comprehensions as name-valued or
//! process-valued, quote balance in patterns, and uniqueness of pattern
//! variables.
use crate::ast::{AnnProc, Bind, Collection, KeyValue, Name, Names, Proc, Source, Var};
use crate::db::SemanticDb;
use crate::elab_errors::{ElaborationError, ElaborationResult, ValidationResult};
use crate::patterns::PatternVariable;
use crate::types::{BinderKind, Symbol, SymbolOccurrence, PID};
use vstd::prelude::*;

verus! {

/// Whether a binding is name-valued or process-valued.
#[derive(Clone, Copy, Debug, PartialEq, Eq, Structural)]
pub enum BindingClassification {
    Name,
    Proc,
}

impl BindingClassification {
    pub open spec fn spec_binder_kind(self) -> BinderKind {
        match self {
            BindingClassification::Name => BinderKind::Name(None),
            BindingClassification::Proc => BinderKind::Proc,
        }
    }

    /// The binder kind of this classification.
    pub fn to_binder_kind(self) -> (r: BinderKind)
        ensures
            r == self.spec_binder_kind(),
    {
        match self {
            BindingClassification::Name => BinderKind::Name(None),
            BindingClassification::Proc => BinderKind::Proc,
        }
    }
}

/// Where classification stands: the processes marked as being in name or
/// process context, and how many quotes deep it is.
pub struct BindingContext {
    name_contexts: Vec<PID>,
    proc_contexts: Vec<PID>,
    quote_depth: usize,
}

impl BindingContext {
    pub closed spec fn name_set(&self) -> Set<PID> {
        self.name_contexts@.to_set()
    }

    pub closed spec fn proc_set(&self) -> Set<PID> {
        self.proc_contexts@.to_set()
    }

    pub closed spec fn depth(&self) -> usize {
        self.quote_depth
    }

    /// A context at the top level, outside every quote.
    pub fn new() -> (r: Self)
        ensures
            r.depth() == 0,
            r.name_set() == Set::<PID>::empty(),
            r.proc_set() == Set::<PID>::empty(),
    {
        let r = BindingContext { name_contexts: Vec::new(), proc_contexts: Vec::new(), quote_depth: 0 };
        proof {
            assert(r.name_contexts@.to_set() =~= Set::<PID>::empty());
            assert(r.proc_contexts@.to_set() =~= Set::<PID>::empty());
        }
        r
    }

    /// One quote deeper.
    pub fn enter_quote(&mut self)
        requires
            old(self).depth() < usize::MAX,
        ensures
            final(self).depth() == old(self).depth() + 1,
            final(self).name_set() == old(self).name_set(),
            final(self).proc_set() == old(self).proc_set(),
    {
        self.quote_depth = self.quote_depth + 1;
    }

    /// One quote less, staying at the top level when already there.
    pub fn exit_quote(&mut self)
        ensures
            final(self).depth() == if old(self).depth() == 0 {
                0
            } else {
                old(self).depth() - 1
            },
            final(self).name_set() == old(self).name_set(),
            final(self).proc_set() == old(self).proc_set(),
    {
        if self.quote_depth > 0 {
            self.quote_depth = self.quote_depth - 1;
        }
    }

    /// An odd number of quotes deep.
    pub fn is_name_context(&self) -> (r: bool)
        ensures
            r == (self.depth() % 2 == 1),
    {
        self.quote_depth % 2 == 1
    }

    /// An even number of quotes deep.
    pub fn is_proc_context(&self) -> (r: bool)
        ensures
            r == (self.depth() % 2 == 0),
    {
        self.quote_depth % 2 == 0
    }

    pub fn mark_name_context(&mut self, pid: PID)
        ensures
            final(self).name_set() == old(self).name_set().insert(pid),
            final(self).proc_set() == old(self).proc_set(),
            final(self).depth() == old(self).depth(),
    {
        insert_pid(&mut self.name_contexts, pid);
    }

    pub fn mark_proc_context(&mut self, pid: PID)
        ensures
            final(self).proc_set() == old(self).proc_set().insert(pid),
            final(self).name_set() == old(self).name_set(),
            final(self).depth() == old(self).depth(),
    {
        insert_pid(&mut self.proc_contexts, pid);
    }

    pub fn quote_depth(&self) -> (r: usize)
        ensures
            r == self.depth(),
    {
        self.quote_depth
    }
}

impl Default for BindingContext {
    fn default() -> (r: Self)
        ensures
            r.depth() == 0,
            r.name_set() == Set::<PID>::empty(),
            r.proc_set() == Set::<PID>::empty(),
    {
        Self::new()
    }
}

/// Adds `pid` to the set held in `v`, unless it is there.
fn insert_pid(v: &mut Vec<PID>, pid: PID)
    ensures
        final(v)@.to_set() == old(v)@.to_set().insert(pid),
{
    let mut i: usize = 0;
    while i < v.len()
        invariant
            i <= v@.len(),
            v@ == old(v)@,
            forall|k: int| 0 <= k < i ==> v@[k] != pid,
        decreases v@.len() - i,
    {
        if v[i].0 == pid.0 {
            proof {
                assert(v@.contains(pid));
                assert(v@.to_set().insert(pid) =~= v@.to_set());
            }
            return;
        }
        i = i + 1;
    }
    v.push(pid);
    proof {
        old(v)@.lemma_push_to_set_commute(pid);
    }
}

/// The classification at quote depth `depth`.
pub open spec fn classification_at(depth: usize) -> BindingClassification {
    if depth % 2 == 1 {
        BindingClassification::Name
    } else {
        BindingClassification::Proc
    }
}

/// The bindings seen so far, each symbol with its first occurrence.
pub open spec fn seen_map(v: Seq<(Symbol, SymbolOccurrence)>) -> Map<Symbol, SymbolOccurrence>
    decreases v.len(),
{
    if v.len() == 0 {
        Map::empty()
    } else {
        seen_map(v.drop_last()).insert(v.last().0, v.last().1)
    }
}

/// The occurrence of a pattern variable.
pub open spec fn var_occurrence(v: PatternVariable) -> SymbolOccurrence {
    SymbolOccurrence { symbol: v.symbol, position: v.position }
}

/// Checking `vars` for uniqueness against the bindings `seen`: the bindings
/// seen afterwards, and the first duplicate (its first occurrence, then the
/// duplicate) if there is one; checking stops there.
pub open spec fn uniqueness(seen: Map<Symbol, SymbolOccurrence>, vars: Seq<PatternVariable>) -> (Map<
    Symbol,
    SymbolOccurrence,
>, Option<(SymbolOccurrence, SymbolOccurrence)>)
    decreases vars.len(),
{
    if vars.len() == 0 {
        (seen, None)
    } else if seen.contains_key(vars[0].symbol) {
        (seen, Some((seen[vars[0].symbol], var_occurrence(vars[0]))))
    } else {
        uniqueness(seen.insert(vars[0].symbol, var_occurrence(vars[0])), vars.drop_first())
    }
}

/// How deeply `p` nests quotes `*@...` on the paths the quote check follows.
pub open spec fn quote_nesting(p: AnnProc) -> nat
    decreases p, 0nat,
{
    match p.proc {
        Proc::Eval { name: Name::Quote(q) } => 1 + quote_nesting(*q),
        Proc::Collection(c) => match c {
            Collection::List { elements, .. } => seq_quote_nesting(elements@),
            Collection::SetOf { elements, .. } => seq_quote_nesting(elements@),
            Collection::Tuple(elements) => seq_quote_nesting(elements@),
            Collection::MapOf { elements, .. } => pairs_quote_nesting(elements@),
        },
        Proc::Par { left, right } | Proc::BinaryExp { left, right, .. } => {
            let l = quote_nesting(*left);
            let r = quote_nesting(*right);
            if l >= r {
                l
            } else {
                r
            }
        },
        Proc::Send { inputs, .. } => seq_quote_nesting(inputs@),
        _ => 0,
    }
}

pub open spec fn seq_quote_nesting(ps: Seq<AnnProc>) -> nat
    decreases ps, 0nat,
{
    if ps.len() == 0 {
        0
    } else {
        let a = seq_quote_nesting(ps.drop_last());
        let b = quote_nesting(ps.last());
        if a >= b {
            a
        } else {
            b
        }
    }
}

pub open spec fn pairs_quote_nesting(ps: Seq<KeyValue>) -> nat
    decreases ps, 0nat,
{
    if ps.len() == 0 {
        0
    } else {
        let a = pairs_quote_nesting(ps.drop_last());
        let b = quote_nesting(ps.last().key);
        let c = quote_nesting(ps.last().value);
        let m = if a >= b {
            a
        } else {
            b
        };
        if m >= c {
            m
        } else {
            c
        }
    }
}

/// Classifies the bindings of `for` comprehensions and checks their patterns.
pub struct BindingClassifier<'a, 'b> {
    db: &'a SemanticDb<'b>,
    context: BindingContext,
    seen_bindings: Vec<(Symbol, SymbolOccurrence)>,
}

impl<'a, 'b> BindingClassifier<'a, 'b> {
    /// The context of the classifier.
    pub closed spec fn spec_context(&self) -> BindingContext {
        self.context
    }

    /// The bindings seen so far.
    pub closed spec fn seen(&self) -> Map<Symbol, SymbolOccurrence> {
        seen_map(self.seen_bindings@)
    }

    pub fn new(db: &'a SemanticDb<'b>) -> (r: Self)
        ensures
            r.spec_context().depth() == 0,
            r.spec_context().name_set() == Set::<PID>::empty(),
            r.spec_context().proc_set() == Set::<PID>::empty(),
            r.seen() == Map::<Symbol, SymbolOccurrence>::empty(),
    {
        BindingClassifier { db, context: BindingContext::new(), seen_bindings: Vec::new() }
    }

    /// The classification of the variables a bind introduces: the current
    /// context decides.
    pub fn classify_binding(&mut self, bind: &Bind) -> (r: BindingClassification)
        ensures
            r == classification_at(old(self).spec_context().depth()),
            final(self).spec_context() == old(self).spec_context(),
            final(self).seen() == old(self).seen(),
    {
        match bind {
            Bind::Linear { lhs, rhs, .. } => self.classify_names_in_pattern(lhs, rhs),
            Bind::Repeated { lhs, rhs, .. } => self.classify_names_from_name(lhs, rhs),
            Bind::Peek { lhs, rhs, .. } => self.classify_names_from_name(lhs, rhs),
        }
    }

    fn classify_names_in_pattern(&self, lhs: &Names, rhs: &Source) -> (r: BindingClassification)
        ensures
            r == classification_at(self.spec_context().depth()),
    {
        if self.context.is_name_context() {
            BindingClassification::Name
        } else {
            BindingClassification::Proc
        }
    }

    fn classify_names_from_name(&self, lhs: &Names, rhs: &Name) -> (r: BindingClassification)
        ensures
            r == classification_at(self.spec_context().depth()),
    {
        if self.context.is_name_context() {
            BindingClassification::Name
        } else {
            BindingClassification::Proc
        }
    }

    /// The classification of a variable of a pattern at the current quote depth.
    pub fn classify_variable_in_pattern(&self, var: &Var) -> (r: BindingClassification)
        ensures
            r == classification_at(self.spec_context().depth()),
    {
        if self.context.is_name_context() {
            BindingClassification::Name
        } else {
            BindingClassification::Proc
        }
    }

    /// Checks that quotes are balanced in `pattern`; they always are, and the
    /// context ends at the quote depth it started at.
    pub fn validate_quote_unquote(&mut self, pattern: &AnnProc) -> (r: ValidationResult)
        requires
            old(self).spec_context().depth() + quote_nesting(*pattern) <= usize::MAX,
        ensures
            r is Ok,
            final(self).spec_context().depth() == old(self).spec_context().depth(),
            final(self).spec_context().name_set() == old(self).spec_context().name_set(),
            final(self).spec_context().proc_set() == old(self).spec_context().proc_set(),
            final(self).seen() == old(self).seen(),
    {
        self.validate_quotes_recursive(pattern)
    }

    fn validate_quotes_recursive(&mut self, pattern: &AnnProc) -> (r: ValidationResult)
        requires
            old(self).spec_context().depth() + quote_nesting(*pattern) <= usize::MAX,
        ensures
            r is Ok,
            final(self).spec_context().depth() == old(self).spec_context().depth(),
            final(self).spec_context().name_set() == old(self).spec_context().name_set(),
            final(self).spec_context().proc_set() == old(self).spec_context().proc_set(),
            final(self).seen() == old(self).seen(),
        decreases *pattern, 1nat,
    {
        match &pattern.proc {
            Proc::Eval { name: Name::Quote(proc) } => {
                self.context.enter_quote();
                self.validate_quotes_recursive(proc)?;
                self.context.exit_quote();
            },
            Proc::Collection(collection) => {
                self.validate_collection_quotes(collection)?;
            },
            Proc::Par { left, right } => {
                self.validate_quotes_recursive(left)?;
                self.validate_quotes_recursive(right)?;
            },
            Proc::BinaryExp { left, right, .. } => {
                self.validate_quotes_recursive(left)?;
                self.validate_quotes_recursive(right)?;
            },
            Proc::Send { inputs, .. } => {
                self.validate_seq_quotes(inputs)?;
            },
            _ => {},
        }
        Ok(())
    }

    fn validate_collection_quotes(&mut self, collection: &Collection) -> (r: ValidationResult)
        requires
            old(self).spec_context().depth() + match *collection {
                Collection::List { elements, .. } => seq_quote_nesting(elements@),
                Collection::SetOf { elements, .. } => seq_quote_nesting(elements@),
                Collection::Tuple(elements) => seq_quote_nesting(elements@),
                Collection::MapOf { elements, .. } => pairs_quote_nesting(elements@),
            } <= usize::MAX,
        ensures
            r is Ok,
            final(self).spec_context().depth() == old(self).spec_context().depth(),
            final(self).spec_context().name_set() == old(self).spec_context().name_set(),
            final(self).spec_context().proc_set() == old(self).spec_context().proc_set(),
            final(self).seen() == old(self).seen(),
        decreases *collection, 0nat,
    {
        match collection {
            Collection::List { elements, .. } => self.validate_seq_quotes(elements),
            Collection::SetOf { elements, .. } => self.validate_seq_quotes(elements),
            Collection::Tuple(elements) => self.validate_seq_quotes(elements),
            Collection::MapOf { elements, .. } => self.validate_pairs_quotes(elements),
        }
    }

    fn validate_seq_quotes(&mut self, ps: &Vec<AnnProc>) -> (r: ValidationResult)
        requires
            old(self).spec_context().depth() + seq_quote_nesting(ps@) <= usize::MAX,
        ensures
            r is Ok,
            final(self).spec_context().depth() == old(self).spec_context().depth(),
            final(self).spec_context().name_set() == old(self).spec_context().name_set(),
            final(self).spec_context().proc_set() == old(self).spec_context().proc_set(),
            final(self).seen() == old(self).seen(),
        decreases *ps, 0nat,
    {
        let mut i: usize = 0;
        while i < ps.len()
            invariant
                i <= ps@.len(),
                old(self).spec_context().depth() + seq_quote_nesting(ps@) <= usize::MAX,
                self.spec_context().depth() == old(self).spec_context().depth(),
                self.spec_context().name_set() == old(self).spec_context().name_set(),
                self.spec_context().proc_set() == old(self).spec_context().proc_set(),
                self.seen() == old(self).seen(),
            decreases ps@.len() - i,
        {
            proof {
                lemma_seq_quote_nesting_elem(ps@, i as int);
            }
            self.validate_quotes_recursive(&ps[i])?;
            i = i + 1;
        }
        Ok(())
    }

    fn validate_pairs_quotes(&mut self, ps: &Vec<KeyValue>) -> (r: ValidationResult)
        requires
            old(self).spec_context().depth() + pairs_quote_nesting(ps@) <= usize::MAX,
        ensures
            r is Ok,
            final(self).spec_context().depth() == old(self).spec_context().depth(),
            final(self).spec_context().name_set() == old(self).spec_context().name_set(),
            final(self).spec_context().proc_set() == old(self).spec_context().proc_set(),
            final(self).seen() == old(self).seen(),
        decreases *ps, 0nat,
    {
        let mut i: usize = 0;
        while i < ps.len()
            invariant
                i <= ps@.len(),
                old(self).spec_context().depth() + pairs_quote_nesting(ps@) <= usize::MAX,
                self.spec_context().depth() == old(self).spec_context().depth(),
                self.spec_context().name_set() == old(self).spec_context().name_set(),
                self.spec_context().proc_set() == old(self).spec_context().proc_set(),
                self.seen() == old(self).seen(),
            decreases ps@.len() - i,
        {
            proof {
                lemma_pairs_quote_nesting_elem(ps@, i as int);
            }
            self.validate_quotes_recursive(&ps[i].key)?;
            self.validate_quotes_recursive(&ps[i].value)?;
            i = i + 1;
        }
        Ok(())
    }

    /// Checks that no variable of `variables` was seen before, in order;
    /// each new one is remembered.  The first duplicate is an error, with
    /// its first occurrence; its PID is left for the caller to fill in.
    pub fn check_binding_uniqueness(&mut self, variables: &[PatternVariable]) -> (r: ElaborationResult<()>)
        ensures
            final(self).seen() == uniqueness(old(self).seen(), variables@).0,
            final(self).spec_context() == old(self).spec_context(),
            match uniqueness(old(self).seen(), variables@).1 {
                None => r is Ok,
                Some((original, duplicate)) => r == Err::<(), ElaborationError>(
                    ElaborationError::DuplicateVarDef { pid: PID(0), original, duplicate },
                ),
            },
    {
        let mut i: usize = 0;
        proof {
            assert(variables@.skip(0) =~= variables@);
        }
        while i < variables.len()
            invariant
                i <= variables@.len(),
                uniqueness(old(self).seen(), variables@) == uniqueness(self.seen(), variables@.skip(i as int)),
                self.spec_context() == old(self).spec_context(),
            decreases variables@.len() - i,
        {
            let var = variables[i];
            let occurrence = SymbolOccurrence { symbol: var.symbol, position: var.position };
            proof {
                assert(variables@.skip(i as int)[0] == var);
                assert(variables@.skip(i as int).drop_first() =~= variables@.skip(i + 1));
            }
            match self.get_first_occurrence(var.symbol) {
                Some(original) => {
                    return Err(ElaborationError::DuplicateVarDef { pid: PID(0), original, duplicate: occurrence });
                },
                None => {},
            }
            let ghost before = self.seen_bindings@;
            self.seen_bindings.push((var.symbol, occurrence));
            proof {
                assert(self.seen_bindings@.drop_last() == before);
            }
            i = i + 1;
        }
        proof {
            assert(variables@.skip(i as int) =~= Seq::<PatternVariable>::empty());
        }
        Ok(())
    }

    /// Forgets the bindings seen so far.
    pub fn clear_seen_bindings(&mut self)
        ensures
            final(self).seen() == Map::<Symbol, SymbolOccurrence>::empty(),
            final(self).spec_context() == old(self).spec_context(),
    {
        self.seen_bindings.clear();
    }

    pub fn context(&self) -> (r: &BindingContext)
        ensures
            *r == self.spec_context(),
    {
        &self.context
    }

    /// The context, to change it.
    pub fn context_mut(&mut self) -> (r: &mut BindingContext)
        ensures
            *r == old(self).spec_context(),
            final(self).spec_context() == *final(r),
            final(self).seen() == old(self).seen(),
    {
        &mut self.context
    }

    /// `symbol` was seen before.
    pub fn has_seen_binding(&self, symbol: Symbol) -> (r: bool)
        ensures
            r == self.seen().contains_key(symbol),
    {
        self.get_first_occurrence(symbol).is_some()
    }

    /// The first occurrence of `symbol`, if it was seen.
    pub fn get_first_occurrence(&self, symbol: Symbol) -> (r: Option<SymbolOccurrence>)
        ensures
            match r {
                Some(o) => self.seen().contains_key(symbol) && self.seen()[symbol] == o,
                None => !self.seen().contains_key(symbol),
            },
    {
        let mut i = self.seen_bindings.len();
        proof {
            assert(self.seen_bindings@.take(i as int) =~= self.seen_bindings@);
        }
        while i > 0
            invariant
                i <= self.seen_bindings@.len(),
                seen_map(self.seen_bindings@).contains_key(symbol) == seen_map(self.seen_bindings@.take(i as int)).contains_key(symbol),
                seen_map(self.seen_bindings@).contains_key(symbol) ==> seen_map(self.seen_bindings@)[symbol] == seen_map(self.seen_bindings@.take(i as int))[symbol],
            decreases i,
        {
            let (s, o) = self.seen_bindings[i - 1];
            proof {
                let t = self.seen_bindings@.take(i as int);
                assert(t.drop_last() =~= self.seen_bindings@.take(i - 1));
                assert(t.last() == (s, o));
            }
            if s.0 == symbol.0 {
                return Some(o);
            }
            i = i - 1;
        }
        proof {
            assert(self.seen_bindings@.take(0) =~= Seq::<(Symbol, SymbolOccurrence)>::empty());
        }
        None
    }

    /// Classifies each bind of `receipt`, in order.
    pub fn classify_receipt<'r>(&mut self, receipt: &'r Vec<Bind>) -> (r: ElaborationResult<Vec<(&'r Bind, BindingClassification)>>)
        ensures
            final(self).spec_context() == old(self).spec_context(),
            final(self).seen() == old(self).seen(),
            r matches Ok(v) && v@.len() == receipt@.len() && forall|i: int|
                0 <= i < v@.len() ==> *(#[trigger] v@[i]).0 == receipt@[i] && v@[i].1 == classification_at(
                    old(self).spec_context().depth(),
                ),
    {
        let mut classifications: Vec<(&'r Bind, BindingClassification)> = Vec::new();
        let mut i: usize = 0;
        while i < receipt.len()
            invariant
                i <= receipt@.len(),
                self.spec_context() == old(self).spec_context(),
                self.seen() == old(self).seen(),
                classifications@.len() == i,
                forall|k: int|
                    0 <= k < i ==> *(#[trigger] classifications@[k]).0 == receipt@[k]
                        && classifications@[k].1 == classification_at(old(self).spec_context().depth()),
            decreases receipt@.len() - i,
        {
            let c = self.classify_binding(&receipt[i]);
            classifications.push((&receipt[i], c));
            i = i + 1;
        }
        Ok(classifications)
    }
}

proof fn lemma_seq_quote_nesting_elem(ps: Seq<AnnProc>, i: int)
    requires
        0 <= i < ps.len(),
    ensures
        quote_nesting(ps[i]) <= seq_quote_nesting(ps),
    decreases ps.len(),
{
    if i < ps.len() - 1 {
        lemma_seq_quote_nesting_elem(ps.drop_last(), i);
    }
}

proof fn lemma_pairs_quote_nesting_elem(ps: Seq<KeyValue>, i: int)
    requires
        0 <= i < ps.len(),
    ensures
        quote_nesting(ps[i].key) <= pairs_quote_nesting(ps),
        quote_nesting(ps[i].value) <= pairs_quote_nesting(ps),
    decreases ps.len(),
{
    if i < ps.len() - 1 {
        lemma_pairs_quote_nesting_elem(ps.drop_last(), i);
    }
}

/// The classification of `bind` by a fresh classifier.
pub fn classify_binding(db: &SemanticDb, bind: &Bind) -> (r: BindingClassification)
    ensures
        r == BindingClassification::Proc,
{
    let mut classifier = BindingClassifier::new(db);
    classifier.classify_binding(bind)
}

/// Checks the quote balance of `pattern` with a fresh classifier: it always holds.
pub fn validate_quote_unquote(db: &SemanticDb, pattern: &AnnProc) -> (r: ValidationResult)
    requires
        quote_nesting(*pattern) <= usize::MAX,
    ensures
        r is Ok,
{
    let mut classifier = BindingClassifier::new(db);
    classifier.validate_quote_unquote(pattern)
}

} // verus!
