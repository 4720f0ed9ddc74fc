//! Pattern analysis for `for` comprehensions: the variables a pattern binds,
//! whether it has wildcards, remainders and connectives, how deep it nests,
//! where connectives may stand, and whether a pattern can match at all.
use crate::ast::{AnnProc, BinaryExpOp, Collection, KeyValue, Proc, SourcePos, Var};
use crate::db::{DbView, SemanticDb};
use crate::elab_errors::{vresult, ElaborationResult, ValidationError, ValidationErrorSpec, ValidationResult};
use crate::resolution::{lemma_symbol_index_stable, symbol_index};
use crate::types::{BinderKind, Symbol};
use vstd::prelude::*;
use vstd::string::StringExecFns;

verus! {

/// A variable found in a pattern.
#[derive(Clone, Copy, Debug, PartialEq, Eq, Structural)]
pub struct PatternVariable {
    pub symbol: Symbol,
    pub position: SourcePos,
    pub kind: BinderKind,
    /// The variable is the remainder `...rest` of a collection.
    pub is_remainder: bool,
}

impl PatternVariable {
    pub fn new(symbol: Symbol, position: SourcePos, kind: BinderKind) -> (r: Self)
        ensures
            r == (PatternVariable { symbol, position, kind, is_remainder: false }),
    {
        PatternVariable { symbol, position, kind, is_remainder: false }
    }

    pub fn with_remainder(self, is_remainder: bool) -> (r: Self)
        ensures
            r == (PatternVariable { is_remainder, ..self }),
    {
        PatternVariable { is_remainder, ..self }
    }
}

/// What the analysis of a pattern found.
#[derive(Debug)]
pub struct PatternInfo {
    pub variables: Vec<PatternVariable>,
    pub has_wildcards: bool,
    pub has_remainder: bool,
    pub has_connectives: bool,
    /// The deepest nesting reached.
    pub depth: usize,
}

/// What a pattern holds, as far as the analysis looks: the variable sites
/// (name, position, remainder or not) in order, the flags, and the depth.
pub struct PatternSummary {
    pub sites: Seq<(Seq<char>, SourcePos, bool)>,
    pub wild: bool,
    pub rem: bool,
    pub conn: bool,
    pub depth: nat,
}

pub open spec fn empty_summary() -> PatternSummary {
    PatternSummary { sites: Seq::empty(), wild: false, rem: false, conn: false, depth: 0 }
}

/// `a` then `b`.
pub open spec fn combine(a: PatternSummary, b: PatternSummary) -> PatternSummary {
    PatternSummary {
        sites: a.sites + b.sites,
        wild: a.wild || b.wild,
        rem: a.rem || b.rem,
        conn: a.conn || b.conn,
        depth: if a.depth >= b.depth {
            a.depth
        } else {
            b.depth
        },
    }
}

/// One level more.
pub open spec fn nest(s: PatternSummary) -> PatternSummary {
    PatternSummary { depth: s.depth + 1, ..s }
}

/// The summary of a remainder variable.
pub open spec fn remainder_summary(r: Option<Var>) -> PatternSummary {
    match r {
        Some(Var::Id(id)) => PatternSummary {
            sites: seq![(id.name@, id.pos, true)],
            rem: true,
            ..empty_summary()
        },
        Some(Var::Wildcard) => PatternSummary { rem: true, ..empty_summary() },
        None => empty_summary(),
    }
}

/// The summary of what lies inside pattern `p`, one level below it.
pub open spec fn inner_summary(p: AnnProc) -> PatternSummary
    decreases p, 0nat,
{
    match p.proc {
        Proc::ProcVar(Var::Id(id)) => PatternSummary {
            sites: seq![(id.name@, p.span.start, false)],
            ..empty_summary()
        },
        Proc::ProcVar(Var::Wildcard) => PatternSummary { wild: true, ..empty_summary() },
        Proc::Collection(c) => collection_summary(c),
        Proc::BinaryExp { op, left, right } => {
            let s = combine(summary(*left), summary(*right));
            PatternSummary {
                conn: s.conn || op == BinaryExpOp::Conjunction || op == BinaryExpOp::Disjunction,
                ..s
            }
        },
        Proc::Par { left, right } => combine(summary(*left), summary(*right)),
        Proc::Send { inputs, .. } => seq_summary(inputs@),
        _ => empty_summary(),
    }
}

/// The summary of pattern `p`.
pub open spec fn summary(p: AnnProc) -> PatternSummary
    decreases p, 1nat,
{
    nest(inner_summary(p))
}

pub open spec fn seq_summary(ps: Seq<AnnProc>) -> PatternSummary
    decreases ps, 2nat,
{
    if ps.len() == 0 {
        empty_summary()
    } else {
        combine(seq_summary(ps.drop_last()), summary(ps.last()))
    }
}

pub open spec fn pairs_summary(ps: Seq<KeyValue>) -> PatternSummary
    decreases ps, 2nat,
{
    if ps.len() == 0 {
        empty_summary()
    } else {
        combine(
            combine(pairs_summary(ps.drop_last()), summary(ps.last().key)),
            summary(ps.last().value),
        )
    }
}

pub open spec fn collection_summary(c: Collection) -> PatternSummary
    decreases c, 2nat,
{
    match c {
        Collection::List { elements, remainder } => combine(
            seq_summary(elements@),
            remainder_summary(remainder),
        ),
        Collection::SetOf { elements, remainder } => combine(
            seq_summary(elements@),
            remainder_summary(remainder),
        ),
        Collection::Tuple(elements) => seq_summary(elements@),
        Collection::MapOf { elements, remainder } => combine(
            pairs_summary(elements@),
            remainder_summary(remainder),
        ),
    }
}

/// The variables for the sites `sites`, with symbols as interned in `strings`.
pub open spec fn site_vars(
    strings: Seq<Seq<char>>,
    sites: Seq<(Seq<char>, SourcePos, bool)>,
    kind: BinderKind,
) -> Seq<PatternVariable> {
    sites.map_values(
        |s: (Seq<char>, SourcePos, bool)|
            PatternVariable {
                symbol: symbol_index(strings, s.0),
                position: s.1,
                kind,
                is_remainder: s.2,
            },
    )
}

/// The binder kind for variables under `quote_depth` quotes: process
/// variables at even depth, names at odd depth.
pub open spec fn kind_at(quote_depth: usize) -> BinderKind {
    if quote_depth % 2 == 0 {
        BinderKind::Proc
    } else {
        BinderKind::Name(None)
    }
}

/// The database changed only by interning strings.
pub open spec fn interned_only(o: DbView, n: DbView) -> bool {
    &&& n == DbView { strings: n.strings, ..o }
    &&& o.strings.len() <= n.strings.len()
    &&& n.strings.take(o.strings.len() as int) == o.strings
}

/// The first connective `/\` or `\/` met when looking through binary
/// expressions, parallel compositions and collections of `p`.
pub open spec fn first_connective(p: AnnProc) -> Option<SourcePos>
    decreases p, 0nat,
{
    match p.proc {
        Proc::BinaryExp { op, left, right } => if op == BinaryExpOp::Conjunction || op
            == BinaryExpOp::Disjunction {
            Some(p.span.start)
        } else {
            match first_connective(*left) {
                Some(pos) => Some(pos),
                None => first_connective(*right),
            }
        },
        Proc::Par { left, right } => match first_connective(*left) {
            Some(pos) => Some(pos),
            None => first_connective(*right),
        },
        Proc::Collection(c) => match c {
            Collection::List { elements, .. } => first_connective_seq(elements@),
            Collection::SetOf { elements, .. } => first_connective_seq(elements@),
            Collection::Tuple(elements) => first_connective_seq(elements@),
            Collection::MapOf { elements, .. } => first_connective_pairs(elements@),
        },
        _ => None,
    }
}

pub open spec fn first_connective_seq(ps: Seq<AnnProc>) -> Option<SourcePos>
    decreases ps, 0nat,
{
    if ps.len() == 0 {
        None
    } else {
        match first_connective_seq(ps.drop_last()) {
            Some(pos) => Some(pos),
            None => first_connective(ps.last()),
        }
    }
}

pub open spec fn first_connective_pairs(ps: Seq<KeyValue>) -> Option<SourcePos>
    decreases ps, 0nat,
{
    if ps.len() == 0 {
        None
    } else {
        match first_connective_pairs(ps.drop_last()) {
            Some(pos) => Some(pos),
            None => match first_connective(ps.last().key) {
                Some(pos) => Some(pos),
                None => first_connective(ps.last().value),
            },
        }
    }
}

/// The connective check of a pattern: inside a pattern every connective is
/// allowed; elsewhere the first one is an error.
pub open spec fn connective_check(p: AnnProc, in_pattern: bool) -> Result<(), ValidationErrorSpec> {
    if in_pattern {
        Ok(())
    } else {
        match first_connective(p) {
            Some(pos) => Err(ValidationErrorSpec::ConnectiveOutsidePattern { pos }),
            None => Ok(()),
        }
    }
}

/// Analyzes patterns; what it finds accumulates over the patterns it analyzes.
pub struct PatternAnalyzer {
    pub seen_variables: Vec<Symbol>,
    pub info: PatternInfo,
    pub current_depth: usize,
    pub quote_depth: usize,
}

impl PatternAnalyzer {
    pub fn new() -> (r: Self)
        ensures
            r.info.variables@.len() == 0,
            !r.info.has_wildcards,
            !r.info.has_remainder,
            !r.info.has_connectives,
            r.info.depth == 0,
            r.current_depth == 0,
            r.quote_depth == 0,
            r.seen_variables@.len() == 0,
    {
        PatternAnalyzer {
            seen_variables: Vec::new(),
            info: PatternInfo {
                variables: Vec::new(),
                has_wildcards: false,
                has_remainder: false,
                has_connectives: false,
                depth: 0,
            },
            current_depth: 0,
            quote_depth: 0,
        }
    }

    /// How the analysis changes when it goes through a part summarized by
    /// `s`, recording its variables with binder kind `kind`.
    pub open spec fn after_kind(&self, old: &Self, strings: Seq<Seq<char>>, s: PatternSummary, kind: BinderKind) -> bool {
        &&& self.info.variables@ == old.info.variables@ + site_vars(strings, s.sites, kind)
        &&& self.info.has_wildcards == (old.info.has_wildcards || s.wild)
        &&& self.info.has_remainder == (old.info.has_remainder || s.rem)
        &&& self.info.has_connectives == (old.info.has_connectives || s.conn)
        &&& self.info.depth == if old.info.depth >= old.current_depth + s.depth {
            old.info.depth as int
        } else {
            old.current_depth + s.depth
        }
        &&& self.current_depth == old.current_depth
        &&& self.quote_depth == old.quote_depth
    }

    /// How the analysis changes when it goes through a part summarized by `s`.
    pub open spec fn after(&self, old: &Self, strings: Seq<Seq<char>>, s: PatternSummary) -> bool {
        self.after_kind(old, strings, s, kind_at(old.quote_depth))
    }

    /// The names of `sites` are interned in `strings`.
    pub open spec fn interned(strings: Seq<Seq<char>>, sites: Seq<(Seq<char>, SourcePos, bool)>) -> bool {
        forall|i: int| 0 <= i < sites.len() ==> strings.contains(#[trigger] sites[i].0)
    }

    /// Analyzes `pattern` and returns everything found so far.
    pub fn analyze_pattern(&mut self, db: &mut SemanticDb, pattern: &AnnProc) -> (r: ElaborationResult<PatternInfo>)
        requires
            old(db).inv(),
            old(db)@.strings.len() + summary(*pattern).sites.len() <= u32::MAX,
            old(self).current_depth + summary(*pattern).depth <= usize::MAX,
        ensures
            final(db).inv(),
            interned_only(old(db)@, final(db)@),
            final(self).after(old(self), final(db)@.strings, summary(*pattern)),
            r matches Ok(info) && info.variables@ == final(self).info.variables@
                && info.has_wildcards == final(self).info.has_wildcards
                && info.has_remainder == final(self).info.has_remainder
                && info.has_connectives == final(self).info.has_connectives
                && info.depth == final(self).info.depth,
    {
        self.traverse_pattern(db, pattern);
        let mut vars: Vec<PatternVariable> = Vec::new();
        let mut i: usize = 0;
        while i < self.info.variables.len()
            invariant
                i <= self.info.variables@.len(),
                vars@ == self.info.variables@.take(i as int),
            decreases self.info.variables@.len() - i,
        {
            vars.push(self.info.variables[i]);
            i = i + 1;
            proof {
                assert(vars@ =~= self.info.variables@.take(i as int));
            }
        }
        proof {
            assert(self.info.variables@.take(i as int) =~= self.info.variables@);
        }
        Ok(
            PatternInfo {
                variables: vars,
                has_wildcards: self.info.has_wildcards,
                has_remainder: self.info.has_remainder,
                has_connectives: self.info.has_connectives,
                depth: self.info.depth,
            },
        )
    }

    /// Goes through `pattern`, recording what it finds.
    fn traverse_pattern(&mut self, db: &mut SemanticDb, pattern: &AnnProc)
        requires
            old(db).inv(),
            old(db)@.strings.len() + summary(*pattern).sites.len() <= u32::MAX,
            old(self).current_depth + summary(*pattern).depth <= usize::MAX,
        ensures
            final(db).inv(),
            interned_only(old(db)@, final(db)@),
            final(db)@.strings.len() <= old(db)@.strings.len() + summary(*pattern).sites.len(),
            Self::interned(final(db)@.strings, summary(*pattern).sites),
            final(self).after(old(self), final(db)@.strings, summary(*pattern)),
        decreases *pattern, 1nat,
    {
        self.current_depth = self.current_depth + 1;
        if self.current_depth > self.info.depth {
            self.info.depth = self.current_depth;
        }
        let ghost s1 = *self;
        self.traverse_inner(db, pattern);
        self.current_depth = self.current_depth - 1;
    }

    /// Goes through the parts of `pattern`, one level below it.
    fn traverse_inner(&mut self, db: &mut SemanticDb, pattern: &AnnProc)
        requires
            old(self).info.depth >= old(self).current_depth,
            old(db).inv(),
            old(db)@.strings.len() + inner_summary(*pattern).sites.len() <= u32::MAX,
            old(self).current_depth + inner_summary(*pattern).depth <= usize::MAX,
        ensures
            final(db).inv(),
            interned_only(old(db)@, final(db)@),
            final(db)@.strings.len() <= old(db)@.strings.len() + inner_summary(*pattern).sites.len(),
            Self::interned(final(db)@.strings, inner_summary(*pattern).sites),
            final(self).after(old(self), final(db)@.strings, inner_summary(*pattern)),
        decreases *pattern, 0nat,
    {
        proof {
            lemma_after_refl(*self, db@);
        }
        match &pattern.proc {
            Proc::ProcVar(var) => {
                let kind = self.current_binder_kind();
                self.visit_var(db, var, pattern.span.start, kind);
                proof {
                    let inner = inner_summary(*pattern);
                    match var {
                        Var::Id(id) => {
                            assert(site_vars(db@.strings, inner.sites, kind) =~= seq![
                                PatternVariable {
                                    symbol: symbol_index(db@.strings, id.name@),
                                    position: pattern.span.start,
                                    kind,
                                    is_remainder: false,
                                },
                            ]);
                        },
                        Var::Wildcard => {
                            assert(site_vars(db@.strings, inner.sites, kind) =~= Seq::<PatternVariable>::empty());
                        },
                    }
                    assert(self.info.variables@ =~= old(self).info.variables@ + site_vars(db@.strings, inner.sites, kind));
                }
            },
            Proc::Collection(collection) => {
                self.visit_collection(collection);
                self.traverse_collection(db, collection);
            },
            Proc::BinaryExp { op, left, right } => {
                let ghost s0 = *self;
                if *op == BinaryExpOp::Conjunction || *op == BinaryExpOp::Disjunction {
                    self.visit_connective(*op);
                }
                let ghost s2 = *self;
                let ghost d2 = db@;
                self.traverse_pattern(db, left);
                let ghost s3 = *self;
                let ghost d3 = db@;
                self.traverse_pattern(db, right);
                proof {
                    db.lemma_inv_wf();
                    lemma_after_combine(s2, s3, *self, d2, d3, db@, summary(**left), summary(**right));
                }
            },
            Proc::Par { left, right } => {
                let ghost s2 = *self;
                let ghost d2 = db@;
                self.traverse_pattern(db, left);
                let ghost s3 = *self;
                let ghost d3 = db@;
                self.traverse_pattern(db, right);
                proof {
                    db.lemma_inv_wf();
                    lemma_after_combine(s2, s3, *self, d2, d3, db@, summary(**left), summary(**right));
                }
            },
            Proc::Send { inputs, .. } => {
                self.traverse_seq(db, inputs);
            },
            _ => {},
        }
    }

    fn traverse_seq(&mut self, db: &mut SemanticDb, ps: &Vec<AnnProc>)
        requires
            old(self).info.depth >= old(self).current_depth,
            old(db).inv(),
            old(db)@.strings.len() + seq_summary(ps@).sites.len() <= u32::MAX,
            old(self).current_depth + seq_summary(ps@).depth <= usize::MAX,
        ensures
            final(db).inv(),
            interned_only(old(db)@, final(db)@),
            final(db)@.strings.len() <= old(db)@.strings.len() + seq_summary(ps@).sites.len(),
            Self::interned(final(db)@.strings, seq_summary(ps@).sites),
            final(self).after(old(self), final(db)@.strings, seq_summary(ps@)),
        decreases *ps, 0nat,
    {
        proof {
            lemma_after_refl(*self, db@);
            assert(ps@.take(0) =~= Seq::<AnnProc>::empty());
        }
        let mut i: usize = 0;
        while i < ps.len()
            invariant
                i <= ps@.len(),
                db.inv(),
                old(db)@.strings.len() + seq_summary(ps@).sites.len() <= u32::MAX,
                old(self).current_depth + seq_summary(ps@).depth <= usize::MAX,
                interned_only(old(db)@, db@),
                db@.strings.len() <= old(db)@.strings.len() + seq_summary(ps@.take(i as int)).sites.len(),
                Self::interned(db@.strings, seq_summary(ps@.take(i as int)).sites),
                self.after(old(self), db@.strings, seq_summary(ps@.take(i as int))),
                old(self).info.depth >= old(self).current_depth,
            decreases ps@.len() - i,
        {
            proof {
                assert(ps@.take(i + 1).drop_last() =~= ps@.take(i as int));
                lemma_seq_summary_prefix(ps@, i + 1);
            }
            let ghost s2 = *self;
            let ghost d2 = db@;
            self.traverse_pattern(db, &ps[i]);
            proof {
                db.lemma_inv_wf();
                lemma_after_combine(*old(self), s2, *self, old(db)@, d2, db@, seq_summary(ps@.take(i as int)), summary(ps@[i as int]));
            }
            i = i + 1;
        }
        proof {
            assert(ps@.take(i as int) =~= ps@);
        }
    }

    fn traverse_pairs(&mut self, db: &mut SemanticDb, ps: &Vec<KeyValue>)
        requires
            old(self).info.depth >= old(self).current_depth,
            old(db).inv(),
            old(db)@.strings.len() + pairs_summary(ps@).sites.len() <= u32::MAX,
            old(self).current_depth + pairs_summary(ps@).depth <= usize::MAX,
        ensures
            final(db).inv(),
            interned_only(old(db)@, final(db)@),
            final(db)@.strings.len() <= old(db)@.strings.len() + pairs_summary(ps@).sites.len(),
            Self::interned(final(db)@.strings, pairs_summary(ps@).sites),
            final(self).after(old(self), final(db)@.strings, pairs_summary(ps@)),
        decreases *ps, 0nat,
    {
        proof {
            lemma_after_refl(*self, db@);
            assert(ps@.take(0) =~= Seq::<KeyValue>::empty());
        }
        let mut i: usize = 0;
        while i < ps.len()
            invariant
                i <= ps@.len(),
                db.inv(),
                old(db)@.strings.len() + pairs_summary(ps@).sites.len() <= u32::MAX,
                old(self).current_depth + pairs_summary(ps@).depth <= usize::MAX,
                interned_only(old(db)@, db@),
                db@.strings.len() <= old(db)@.strings.len() + pairs_summary(ps@.take(i as int)).sites.len(),
                Self::interned(db@.strings, pairs_summary(ps@.take(i as int)).sites),
                self.after(old(self), db@.strings, pairs_summary(ps@.take(i as int))),
                old(self).info.depth >= old(self).current_depth,
            decreases ps@.len() - i,
        {
            proof {
                assert(ps@.take(i + 1).drop_last() =~= ps@.take(i as int));
                lemma_pairs_summary_prefix(ps@, i + 1);
            }
            let ghost front = pairs_summary(ps@.take(i as int));
            let ghost s2 = *self;
            let ghost d2 = db@;
            self.traverse_pattern(db, &ps[i].key);
            proof {
                db.lemma_inv_wf();
                lemma_after_combine(*old(self), s2, *self, old(db)@, d2, db@, front, summary(ps@[i as int].key));
            }
            let ghost s3 = *self;
            let ghost d3 = db@;
            self.traverse_pattern(db, &ps[i].value);
            proof {
                db.lemma_inv_wf();
                lemma_after_combine(*old(self), s3, *self, old(db)@, d3, db@, combine(front, summary(ps@[i as int].key)), summary(ps@[i as int].value));
            }
            i = i + 1;
        }
        proof {
            assert(ps@.take(i as int) =~= ps@);
        }
    }

    /// Goes through the elements of a collection, then its remainder.
    fn traverse_collection(&mut self, db: &mut SemanticDb, collection: &Collection)
        requires
            old(self).info.depth >= old(self).current_depth,
            old(db).inv(),
            old(db)@.strings.len() + collection_summary(*collection).sites.len() <= u32::MAX,
            old(self).current_depth + collection_summary(*collection).depth <= usize::MAX,
        ensures
            final(db).inv(),
            interned_only(old(db)@, final(db)@),
            final(db)@.strings.len() <= old(db)@.strings.len() + collection_summary(*collection).sites.len(),
            Self::interned(final(db)@.strings, collection_summary(*collection).sites),
            final(self).after(old(self), final(db)@.strings, collection_summary(*collection)),
        decreases *collection, 0nat,
    {
        match collection {
            Collection::List { elements, remainder } | Collection::SetOf { elements, remainder } => {
                let ghost s1 = *self;
                let ghost d1 = db@;
                self.traverse_seq(db, elements);
                let ghost s2 = *self;
                let ghost d2 = db@;
                self.traverse_remainder(db, remainder);
                proof {
                    db.lemma_inv_wf();
                    lemma_after_combine(s1, s2, *self, d1, d2, db@, seq_summary(elements@), remainder_summary(*remainder));
                }
            },
            Collection::Tuple(elements) => {
                self.traverse_seq(db, elements);
            },
            Collection::MapOf { elements, remainder } => {
                let ghost s1 = *self;
                let ghost d1 = db@;
                self.traverse_pairs(db, elements);
                let ghost s2 = *self;
                let ghost d2 = db@;
                self.traverse_remainder(db, remainder);
                proof {
                    db.lemma_inv_wf();
                    lemma_after_combine(s1, s2, *self, d1, d2, db@, pairs_summary(elements@), remainder_summary(*remainder));
                }
            },
        }
    }

    fn traverse_remainder(&mut self, db: &mut SemanticDb, remainder: &Option<Var>)
        requires
            old(self).info.depth >= old(self).current_depth,
            old(db).inv(),
            old(db)@.strings.len() + remainder_summary(*remainder).sites.len() <= u32::MAX,
        ensures
            final(db).inv(),
            interned_only(old(db)@, final(db)@),
            final(db)@.strings.len() <= old(db)@.strings.len() + remainder_summary(*remainder).sites.len(),
            Self::interned(final(db)@.strings, remainder_summary(*remainder).sites),
            final(self).after(old(self), final(db)@.strings, remainder_summary(*remainder)),
    {
        match remainder {
            Some(var) => {
                let pos = match var {
                    Var::Id(id) => id.pos,
                    Var::Wildcard => SourcePos::origin(),
                };
                self.visit_remainder(db, var, pos);
            },
            None => {
                proof {
                    lemma_after_refl(*self, db@);
                }
            },
        }
    }

    /// The binder kind of variables at the current quote depth.
    pub fn current_binder_kind(&self) -> (r: BinderKind)
        ensures
            r == kind_at(self.quote_depth),
    {
        if self.quote_depth % 2 == 0 {
            BinderKind::Proc
        } else {
            BinderKind::Name(None)
        }
    }

    fn remember(&mut self, symbol: Symbol)
        ensures
            final(self).seen_variables@.contains(symbol),
            final(self).info == old(self).info,
            final(self).current_depth == old(self).current_depth,
            final(self).quote_depth == old(self).quote_depth,
    {
        let mut i: usize = 0;
        while i < self.seen_variables.len()
            invariant
                i <= self.seen_variables@.len(),
                self.seen_variables@ == old(self).seen_variables@,
            decreases self.seen_variables@.len() - i,
        {
            if self.seen_variables[i].0 == symbol.0 {
                proof {
                    assert(self.seen_variables@[i as int] == symbol);
                }
                return;
            }
            i = i + 1;
        }
        self.seen_variables.push(symbol);
        proof {
            assert(self.seen_variables@[self.seen_variables@.len() - 1] == symbol);
        }
    }

    /// Records the variable `var` at `pos`; a wildcard only sets the wildcard flag.
    pub fn visit_var(&mut self, db: &mut SemanticDb, var: &Var, pos: SourcePos, kind: BinderKind)
        requires
            old(db).inv(),
            *var is Id ==> old(db)@.strings.len() + 1 <= u32::MAX,
        ensures
            final(db).inv(),
            interned_only(old(db)@, final(db)@),
            final(db)@.strings.len() <= old(db)@.strings.len() + if *var is Id { 1int } else { 0int },
            final(self).current_depth == old(self).current_depth,
            final(self).quote_depth == old(self).quote_depth,
            final(self).info.has_remainder == old(self).info.has_remainder,
            final(self).info.has_connectives == old(self).info.has_connectives,
            final(self).info.depth == old(self).info.depth,
            match var {
                Var::Wildcard => final(self).info.has_wildcards && final(self).info.variables@
                    == old(self).info.variables@,
                Var::Id(id) => final(self).info.has_wildcards == old(self).info.has_wildcards
                    && final(db)@.strings.contains(id.name@)
                    && final(self).info.variables@ == old(self).info.variables@.push(
                    PatternVariable {
                        symbol: symbol_index(final(db)@.strings, id.name@),
                        position: pos,
                        kind,
                        is_remainder: false,
                    },
                ),
            },
    {
        match var {
            Var::Wildcard => {
                self.info.has_wildcards = true;
                proof {
                    assert(db@.strings.take(db@.strings.len() as int) =~= db@.strings);
                }
            },
            Var::Id(id) => {
                proof {
                    db.lemma_inv_wf();
                }
                let symbol = db.intern(id.name.as_str());
                proof {
                    db.lemma_inv_wf();
                    assert(db@.strings.take(old(db)@.strings.len() as int) =~= old(db)@.strings);
                    assert(db@.strings.contains(id.name@)) by {
                        assert(db@.strings[symbol.0 as int] == id.name@);
                    }
                    let i = choose|i: int| 0 <= i < db@.strings.len() && db@.strings[i] == id.name@;
                    assert(i == symbol.0);
                }
                self.remember(symbol);
                self.info.variables.push(PatternVariable::new(symbol, pos, kind));
            },
        }
    }

    /// Goes through a quoted process, one quote deeper.
    pub fn visit_quote(&mut self, db: &mut SemanticDb, proc: &AnnProc)
        requires
            old(db).inv(),
            old(db)@.strings.len() + summary(*proc).sites.len() <= u32::MAX,
            old(self).current_depth + summary(*proc).depth <= usize::MAX,
            old(self).quote_depth < usize::MAX,
        ensures
            final(db).inv(),
            interned_only(old(db)@, final(db)@),
            final(self).after_kind(old(self), final(db)@.strings, summary(*proc), kind_at((old(self).quote_depth + 1) as usize)),
    {
        self.quote_depth = self.quote_depth + 1;
        self.traverse_pattern(db, proc);
        self.quote_depth = self.quote_depth - 1;
    }

    /// Collections need nothing beyond the traversal of their parts.
    pub fn visit_collection(&mut self, collection: &Collection)
        ensures
            *final(self) == *old(self),
    {
    }

    /// Records that the pattern has a connective.
    pub fn visit_connective(&mut self, op: BinaryExpOp)
        ensures
            final(self).info.has_connectives,
            final(self).info.variables == old(self).info.variables,
            final(self).info.has_wildcards == old(self).info.has_wildcards,
            final(self).info.has_remainder == old(self).info.has_remainder,
            final(self).info.depth == old(self).info.depth,
            final(self).current_depth == old(self).current_depth,
            final(self).quote_depth == old(self).quote_depth,
            final(self).seen_variables == old(self).seen_variables,
    {
        self.info.has_connectives = true;
    }

    /// Records that the pattern has a wildcard.
    pub fn visit_wildcard(&mut self, pos: SourcePos)
        ensures
            final(self).info.has_wildcards,
            final(self).info.variables == old(self).info.variables,
            final(self).info.has_connectives == old(self).info.has_connectives,
            final(self).info.has_remainder == old(self).info.has_remainder,
            final(self).info.depth == old(self).info.depth,
            final(self).current_depth == old(self).current_depth,
            final(self).quote_depth == old(self).quote_depth,
    {
        self.info.has_wildcards = true;
    }

    /// Records a remainder; a named one is also a variable of the pattern.
    pub fn visit_remainder(&mut self, db: &mut SemanticDb, var: &Var, pos: SourcePos)
        requires
            old(self).info.depth >= old(self).current_depth,
            old(db).inv(),
            *var is Id ==> old(db)@.strings.len() + 1 <= u32::MAX,
            *var is Id ==> pos == var->Id_0.pos,
        ensures
            final(db).inv(),
            interned_only(old(db)@, final(db)@),
            final(db)@.strings.len() <= old(db)@.strings.len() + remainder_summary(Some(*var)).sites.len(),
            Self::interned(final(db)@.strings, remainder_summary(Some(*var)).sites),
            final(self).after(old(self), final(db)@.strings, remainder_summary(Some(*var))),
    {
        self.info.has_remainder = true;
        match var {
            Var::Id(id) => {
                proof {
                    db.lemma_inv_wf();
                }
                let symbol = db.intern(id.name.as_str());
                proof {
                    db.lemma_inv_wf();
                    assert(db@.strings.take(old(db)@.strings.len() as int) =~= old(db)@.strings);
                    let i = choose|i: int| 0 <= i < db@.strings.len() && db@.strings[i] == id.name@;
                    assert(db@.strings[symbol.0 as int] == id.name@);
                    assert(i == symbol.0);
                }
                self.remember(symbol);
                let kind = self.current_binder_kind();
                self.info.variables.push(PatternVariable::new(symbol, pos, kind).with_remainder(true));
                proof {
                    let s = remainder_summary(Some(*var));
                    assert(site_vars(db@.strings, s.sites, kind) =~= seq![
                        PatternVariable { symbol, position: pos, kind, is_remainder: true },
                    ]);
                    assert(self.info.variables@ =~= old(self).info.variables@ + site_vars(db@.strings, s.sites, kind));
                    assert(db@.strings.contains(id.name@)) by {
                        assert(db@.strings[symbol.0 as int] == id.name@);
                    }
                }
            },
            Var::Wildcard => {
                proof {
                    assert(db@.strings.take(db@.strings.len() as int) =~= db@.strings);
                    assert(site_vars(db@.strings, Seq::<(Seq<char>, SourcePos, bool)>::empty(), kind_at(self.quote_depth)) =~= Seq::<PatternVariable>::empty());
                    assert(self.info.variables@ =~= old(self).info.variables@ + Seq::<PatternVariable>::empty());
                }
            },
        }
    }

    /// Checks where connectives stand in `pattern`; inside a pattern they may
    /// stand anywhere.
    pub fn validate_connectives(&self, pattern: &AnnProc) -> (r: ValidationResult)
        ensures
            vresult(r) == connective_check(*pattern, true),
    {
        self.check_connectives_recursive(pattern, true)
    }

    fn check_connectives_recursive(&self, proc: &AnnProc, in_pattern: bool) -> (r: ValidationResult)
        ensures
            vresult(r) == connective_check(*proc, in_pattern),
        decreases *proc, 1nat,
    {
        match &proc.proc {
            Proc::BinaryExp { op, left, right } => {
                if (*op == BinaryExpOp::Conjunction || *op == BinaryExpOp::Disjunction) && !in_pattern {
                    return Err(ValidationError::ConnectiveOutsidePattern { pos: proc.span.start });
                }
                self.check_connectives_recursive(left, in_pattern)?;
                self.check_connectives_recursive(right, in_pattern)
            },
            Proc::Par { left, right } => {
                self.check_connectives_recursive(left, in_pattern)?;
                self.check_connectives_recursive(right, in_pattern)
            },
            Proc::Collection(collection) => self.check_collection_connectives(collection, in_pattern),
            _ => Ok(()),
        }
    }

    fn check_collection_connectives(&self, collection: &Collection, in_pattern: bool) -> (r: ValidationResult)
        ensures
            vresult(r) == if in_pattern {
                Ok(())
            } else {
                match match collection {
                    Collection::List { elements, .. } => first_connective_seq(elements@),
                    Collection::SetOf { elements, .. } => first_connective_seq(elements@),
                    Collection::Tuple(elements) => first_connective_seq(elements@),
                    Collection::MapOf { elements, .. } => first_connective_pairs(elements@),
                } {
                    Some(pos) => Err(ValidationErrorSpec::ConnectiveOutsidePattern { pos }),
                    None => Ok(()),
                }
            },
        decreases *collection, 0nat,
    {
        match collection {
            Collection::List { elements, .. } => self.check_seq_connectives(elements, in_pattern),
            Collection::SetOf { elements, .. } => self.check_seq_connectives(elements, in_pattern),
            Collection::Tuple(elements) => self.check_seq_connectives(elements, in_pattern),
            Collection::MapOf { elements, .. } => self.check_pairs_connectives(elements, in_pattern),
        }
    }

    fn check_seq_connectives(&self, ps: &Vec<AnnProc>, in_pattern: bool) -> (r: ValidationResult)
        ensures
            vresult(r) == if in_pattern {
                Ok(())
            } else {
                match first_connective_seq(ps@) {
                    Some(pos) => Err(ValidationErrorSpec::ConnectiveOutsidePattern { pos }),
                    None => Ok(()),
                }
            },
        decreases *ps, 0nat,
    {
        let mut i: usize = 0;
        proof {
            assert(ps@.take(0) =~= Seq::<AnnProc>::empty());
        }
        while i < ps.len()
            invariant
                i <= ps@.len(),
                in_pattern || first_connective_seq(ps@.take(i as int)) is None,
            decreases ps@.len() - i,
        {
            proof {
                assert(ps@.take(i + 1).drop_last() =~= ps@.take(i as int));
            }
            let r = self.check_connectives_recursive(&ps[i], in_pattern);
            match r {
                Ok(()) => {},
                Err(e) => {
                    proof {
                        lemma_first_connective_seq_extends(ps@, i + 1);
                    }
                    return Err(e);
                },
            }
            i = i + 1;
        }
        proof {
            assert(ps@.take(i as int) =~= ps@);
        }
        Ok(())
    }

    fn check_pairs_connectives(&self, ps: &Vec<KeyValue>, in_pattern: bool) -> (r: ValidationResult)
        ensures
            vresult(r) == if in_pattern {
                Ok(())
            } else {
                match first_connective_pairs(ps@) {
                    Some(pos) => Err(ValidationErrorSpec::ConnectiveOutsidePattern { pos }),
                    None => Ok(()),
                }
            },
        decreases *ps, 0nat,
    {
        let mut i: usize = 0;
        proof {
            assert(ps@.take(0) =~= Seq::<KeyValue>::empty());
        }
        while i < ps.len()
            invariant
                i <= ps@.len(),
                in_pattern || first_connective_pairs(ps@.take(i as int)) is None,
            decreases ps@.len() - i,
        {
            proof {
                assert(ps@.take(i + 1).drop_last() =~= ps@.take(i as int));
            }
            let r1 = self.check_connectives_recursive(&ps[i].key, in_pattern);
            match r1 {
                Ok(()) => {},
                Err(e) => {
                    proof {
                        lemma_first_connective_pairs_extends(ps@, i + 1);
                    }
                    return Err(e);
                },
            }
            let r2 = self.check_connectives_recursive(&ps[i].value, in_pattern);
            match r2 {
                Ok(()) => {},
                Err(e) => {
                    proof {
                        lemma_first_connective_pairs_extends(ps@, i + 1);
                    }
                    return Err(e);
                },
            }
            i = i + 1;
        }
        proof {
            assert(ps@.take(i as int) =~= ps@);
        }
        Ok(())
    }

    /// Checks that `pattern` can be matched by some value.  A disjunction is
    /// unsatisfiable only when both of its sides are; nothing else is, so no
    /// pattern is rejected.
    pub fn check_pattern_satisfiability(&self, pattern: &AnnProc) -> (r: ValidationResult)
        ensures
            r is Ok,
        decreases *pattern, 1nat,
    {
        match &pattern.proc {
            Proc::BinaryExp { op: BinaryExpOp::Conjunction, left, right } => {
                self.check_pattern_satisfiability(left)?;
                self.check_pattern_satisfiability(right)?;
                Ok(())
            },
            Proc::BinaryExp { op: BinaryExpOp::Disjunction, left, right } => {
                let left_result = self.check_pattern_satisfiability(left);
                let right_result = self.check_pattern_satisfiability(right);
                if left_result.is_err() && right_result.is_err() {
                    return Err(
                        ValidationError::UnsatisfiablePattern {
                            pattern: String::from_str("All branches of OR pattern are unsatisfiable"),
                            pos: None,
                        },
                    );
                }
                Ok(())
            },
            Proc::Collection(collection) => self.check_collection_satisfiability(collection),
            Proc::Par { left, right } => {
                self.check_pattern_satisfiability(left)?;
                self.check_pattern_satisfiability(right)?;
                Ok(())
            },
            _ => Ok(()),
        }
    }

    fn check_collection_satisfiability(&self, collection: &Collection) -> (r: ValidationResult)
        ensures
            r is Ok,
        decreases *collection, 0nat,
    {
        match collection {
            Collection::List { elements, .. } => self.check_seq_satisfiability(elements),
            Collection::SetOf { elements, .. } => self.check_seq_satisfiability(elements),
            Collection::Tuple(elements) => self.check_seq_satisfiability(elements),
            Collection::MapOf { elements, .. } => self.check_pairs_satisfiability(elements),
        }
    }

    fn check_seq_satisfiability(&self, ps: &Vec<AnnProc>) -> (r: ValidationResult)
        ensures
            r is Ok,
        decreases *ps, 0nat,
    {
        let mut i: usize = 0;
        while i < ps.len()
            invariant
                i <= ps@.len(),
            decreases ps@.len() - i,
        {
            self.check_pattern_satisfiability(&ps[i])?;
            i = i + 1;
        }
        Ok(())
    }

    fn check_pairs_satisfiability(&self, ps: &Vec<KeyValue>) -> (r: ValidationResult)
        ensures
            r is Ok,
        decreases *ps, 0nat,
    {
        let mut i: usize = 0;
        while i < ps.len()
            invariant
                i <= ps@.len(),
            decreases ps@.len() - i,
        {
            self.check_pattern_satisfiability(&ps[i].key)?;
            self.check_pattern_satisfiability(&ps[i].value)?;
            i = i + 1;
        }
        Ok(())
    }
}

/// The variables that `pattern` binds.
pub fn extract_pattern_variables(db: &mut SemanticDb, pattern: &AnnProc) -> (r: ElaborationResult<Vec<PatternVariable>>)
    requires
        old(db).inv(),
        old(db)@.strings.len() + summary(*pattern).sites.len() <= u32::MAX,
        summary(*pattern).depth <= usize::MAX,
    ensures
        final(db).inv(),
        interned_only(old(db)@, final(db)@),
        r matches Ok(vars) && vars@ == site_vars(final(db)@.strings, summary(*pattern).sites, BinderKind::Proc),
{
    let mut analyzer = PatternAnalyzer::new();
    match analyzer.analyze_pattern(db, pattern) {
        Ok(info) => {
            proof {
                assert(info.variables@ =~= site_vars(db@.strings, summary(*pattern).sites, BinderKind::Proc));
            }
            Ok(info.variables)
        },
        Err(e) => Err(e),
    }
}

/// Checks the connectives of `pattern`, which is a pattern: none is rejected.
pub fn validate_pattern_connectives(pattern: &AnnProc) -> (r: ValidationResult)
    ensures
        vresult(r) == connective_check(*pattern, true),
{
    let analyzer = PatternAnalyzer::new();
    analyzer.validate_connectives(pattern)
}

/// Checks that `pattern` can be matched; no pattern is rejected.
pub fn check_pattern_satisfiability(pattern: &AnnProc) -> (r: ValidationResult)
    ensures
        r is Ok,
{
    let analyzer = PatternAnalyzer::new();
    analyzer.check_pattern_satisfiability(pattern)
}

pub proof fn lemma_after_refl(s: PatternAnalyzer, d: DbView)
    requires
        s.info.depth >= s.current_depth,
    ensures
        s.after(&s, d.strings, empty_summary()),
        interned_only(d, d),
{
    assert(d.strings.take(d.strings.len() as int) =~= d.strings);
    assert(site_vars(d.strings, Seq::<(Seq<char>, SourcePos, bool)>::empty(), kind_at(s.quote_depth)) =~= Seq::<PatternVariable>::empty());
    assert(s.info.variables@ + Seq::<PatternVariable>::empty() =~= s.info.variables@);
}

/// Going through `a` then `b` is going through both.
pub proof fn lemma_after_combine(
    s0: PatternAnalyzer,
    s1: PatternAnalyzer,
    s2: PatternAnalyzer,
    d0: DbView,
    d1: DbView,
    d2: DbView,
    a: PatternSummary,
    b: PatternSummary,
)
    requires
        s1.after(&s0, d1.strings, a),
        s2.after(&s1, d2.strings, b),
        interned_only(d0, d1),
        interned_only(d1, d2),
        PatternAnalyzer::interned(d1.strings, a.sites),
        PatternAnalyzer::interned(d2.strings, b.sites),
        d2.strings.no_duplicates(),
    ensures
        s2.after(&s0, d2.strings, combine(a, b)),
        interned_only(d0, d2),
        PatternAnalyzer::interned(d2.strings, combine(a, b).sites),
{
    let kind = kind_at(s0.quote_depth);
    assert(d2.strings.take(d0.strings.len() as int) =~= d2.strings.take(d1.strings.len() as int).take(
        d0.strings.len() as int,
    ));
    assert forall|i: int| 0 <= i < a.sites.len() implies d2.strings.contains(#[trigger] a.sites[i].0)
        && symbol_index(d1.strings, a.sites[i].0) == symbol_index(d2.strings, a.sites[i].0) by {
        assert(d1.strings.contains(a.sites[i].0));
        lemma_symbol_index_stable(d1.strings, d2.strings, a.sites[i].0);
        let k = choose|k: int| 0 <= k < d1.strings.len() && d1.strings[k] == a.sites[i].0;
        assert(d2.strings.take(d1.strings.len() as int)[k] == d2.strings[k]);
    }
    assert(site_vars(d1.strings, a.sites, kind) =~= site_vars(d2.strings, a.sites, kind));
    assert(site_vars(d2.strings, a.sites + b.sites, kind) =~= site_vars(d2.strings, a.sites, kind)
        + site_vars(d2.strings, b.sites, kind));
    assert(s2.info.variables@ =~= s0.info.variables@ + site_vars(d2.strings, a.sites + b.sites, kind));
    assert forall|i: int| 0 <= i < (a.sites + b.sites).len() implies d2.strings.contains(
        #[trigger] (a.sites + b.sites)[i].0,
    ) by {
        if i < a.sites.len() {
            assert((a.sites + b.sites)[i] == a.sites[i]);
        } else {
            assert((a.sites + b.sites)[i] == b.sites[i - a.sites.len()]);
        }
    }
}

pub proof fn lemma_seq_summary_prefix(ps: Seq<AnnProc>, i: int)
    requires
        0 <= i <= ps.len(),
    ensures
        seq_summary(ps.take(i)).sites.len() <= seq_summary(ps).sites.len(),
        seq_summary(ps.take(i)).depth <= seq_summary(ps).depth,
    decreases ps.len(),
{
    if i < ps.len() {
        lemma_seq_summary_prefix(ps.drop_last(), i);
        assert(ps.drop_last().take(i) =~= ps.take(i));
    } else {
        assert(ps.take(i) =~= ps);
    }
}

pub proof fn lemma_pairs_summary_prefix(ps: Seq<KeyValue>, i: int)
    requires
        0 <= i <= ps.len(),
    ensures
        pairs_summary(ps.take(i)).sites.len() <= pairs_summary(ps).sites.len(),
        pairs_summary(ps.take(i)).depth <= pairs_summary(ps).depth,
    decreases ps.len(),
{
    if i < ps.len() {
        lemma_pairs_summary_prefix(ps.drop_last(), i);
        assert(ps.drop_last().take(i) =~= ps.take(i));
    } else {
        assert(ps.take(i) =~= ps);
    }
}

proof fn lemma_first_connective_seq_extends(ps: Seq<AnnProc>, j: int)
    requires
        0 <= j <= ps.len(),
        first_connective_seq(ps.take(j)) is Some,
    ensures
        first_connective_seq(ps) == first_connective_seq(ps.take(j)),
    decreases ps.len(),
{
    if j < ps.len() {
        assert(ps.drop_last().take(j) =~= ps.take(j));
        lemma_first_connective_seq_extends(ps.drop_last(), j);
    } else {
        assert(ps.take(j) =~= ps);
    }
}

proof fn lemma_first_connective_pairs_extends(ps: Seq<KeyValue>, j: int)
    requires
        0 <= j <= ps.len(),
        first_connective_pairs(ps.take(j)) is Some,
    ensures
        first_connective_pairs(ps) == first_connective_pairs(ps.take(j)),
    decreases ps.len(),
{
    if j < ps.len() {
        assert(ps.drop_last().take(j) =~= ps.take(j));
        lemma_first_connective_pairs_extends(ps.drop_last(), j);
    } else {
        assert(ps.take(j) =~= ps);
    }
}

} // verus!
