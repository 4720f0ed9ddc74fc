//! Patterns read as queries: structure, projections and satisfiability.
use crate::ast::{AnnProc, BinaryExpOp, Collection, KeyValue, Proc};
use crate::elab_errors::{ValidationError, ValidationResult};
use crate::text::{decimal, decimal_signed, i64_to_string, usize_to_string};
use vstd::prelude::*;
use vstd::string::StringExecFns;

verus! {

/// The kinds of collections.
#[derive(Clone, Copy, Debug, PartialEq, Eq, Structural)]
pub enum CollectionKind {
    List,
    Tuple,
    SetOf,
    MapOf,
}

impl CollectionKind {
    pub open spec fn spec_label(self) -> &'static str {
        match self {
            CollectionKind::List => "List",
            CollectionKind::Tuple => "Tuple",
            CollectionKind::SetOf => "Set",
            CollectionKind::MapOf => "Map",
        }
    }

    /// The name of the kind as diagnostics print it.
    pub fn label(self) -> (r: &'static str)
        ensures
            r == self.spec_label(),
    {
        match self {
            CollectionKind::List => "List",
            CollectionKind::Tuple => "Tuple",
            CollectionKind::SetOf => "Set",
            CollectionKind::MapOf => "Map",
        }
    }
}

/// The text of a ground term, when the pattern is one.
pub open spec fn spec_ground_value(p: AnnProc) -> Option<Seq<char>> {
    match p.proc {
        Proc::Nil => Some("Nil"@),
        Proc::Unit => Some("()"@),
        Proc::BoolLiteral(b) => Some(
            if b {
                "true"@
            } else {
                "false"@
            },
        ),
        Proc::LongLiteral(n) => Some(decimal_signed(n as int)),
        Proc::StringLiteral(s) => Some("\""@ + s@ + "\""@),
        Proc::UriLiteral(u) => Some("`"@ + u@ + "`"@),
        _ => None,
    }
}

/// The kind of a collection pattern.
pub open spec fn spec_collection_kind(p: AnnProc) -> Option<CollectionKind> {
    match p.proc {
        Proc::Collection(c) => Some(
            match c {
                Collection::List { .. } => CollectionKind::List,
                Collection::Tuple(_) => CollectionKind::Tuple,
                Collection::SetOf { .. } => CollectionKind::SetOf,
                Collection::MapOf { .. } => CollectionKind::MapOf,
            },
        ),
        _ => None,
    }
}

/// The fixed size of a collection pattern without a remainder.
pub open spec fn spec_collection_size(p: AnnProc) -> Option<usize> {
    match p.proc {
        Proc::Collection(c) => match c {
            Collection::List { elements, remainder } => if remainder is None {
                Some(elements@.len() as usize)
            } else {
                None
            },
            Collection::Tuple(elements) => Some(elements@.len() as usize),
            Collection::SetOf { elements, remainder } => if remainder is None {
                Some(elements@.len() as usize)
            } else {
                None
            },
            Collection::MapOf { elements, remainder } => if remainder is None {
                Some(elements@.len() as usize)
            } else {
                None
            },
        },
        _ => None,
    }
}

/// The first pattern conjunction (`/\`) of two different ground terms, left to right.
pub open spec fn spec_ground_contradiction(p: AnnProc) -> Option<Seq<char>>
    decreases p,
{
    match p.proc {
        Proc::BinaryExp { op: BinaryExpOp::Conjunction, left, right } => {
            let l = spec_ground_value(*left);
            let r = spec_ground_value(*right);
            if l is Some && r is Some && l->0 != r->0 {
                Some("Contradictory ground terms: "@ + l->0 + " AND "@ + r->0)
            } else {
                match spec_ground_contradiction(*left) {
                    Some(c) => Some(c),
                    None => spec_ground_contradiction(*right),
                }
            }
        },
        _ => None,
    }
}

/// The first pattern conjunction (`/\`) of collection patterns that no value can match:
/// different kinds, or different fixed sizes.
pub open spec fn spec_impossible_collection(p: AnnProc) -> Option<Seq<char>>
    decreases p, 1nat,
{
    match p.proc {
        Proc::BinaryExp { op: BinaryExpOp::Conjunction, left, right } => {
            let lk = spec_collection_kind(*left);
            let rk = spec_collection_kind(*right);
            let ls = spec_collection_size(*left);
            let rs = spec_collection_size(*right);
            if lk is Some && rk is Some && lk->0 != rk->0 {
                Some(
                    "Impossible collection constraint: "@ + lk->0.spec_label()@ + " AND "@
                        + rk->0.spec_label()@,
                )
            } else if ls is Some && rs is Some && ls->0 != rs->0 {
                Some(
                    "Impossible collection size constraint: size "@ + decimal(ls->0 as nat)
                        + " AND size "@ + decimal(rs->0 as nat),
                )
            } else {
                match spec_impossible_collection(*left) {
                    Some(c) => Some(c),
                    None => spec_impossible_collection(*right),
                }
            }
        },
        Proc::Collection(c) => match c {
            Collection::List { elements, .. } => spec_impossible_in_seq(elements@),
            Collection::SetOf { elements, .. } => spec_impossible_in_seq(elements@),
            Collection::Tuple(elements) => spec_impossible_in_seq(elements@),
            Collection::MapOf { elements, .. } => spec_impossible_in_pairs(elements@),
        },
        _ => None,
    }
}

pub open spec fn spec_impossible_in_seq(ps: Seq<AnnProc>) -> Option<Seq<char>>
    decreases ps, 0nat,
{
    if ps.len() == 0 {
        None
    } else {
        match spec_impossible_collection(ps[0]) {
            Some(c) => Some(c),
            None => spec_impossible_in_seq(ps.drop_first()),
        }
    }
}

pub open spec fn spec_impossible_in_pairs(ps: Seq<KeyValue>) -> Option<Seq<char>>
    decreases ps, 0nat,
{
    if ps.len() == 0 {
        None
    } else {
        match spec_impossible_collection(ps[0].key) {
            Some(c) => Some(c),
            None => match spec_impossible_collection(ps[0].value) {
                Some(c) => Some(c),
                None => spec_impossible_in_pairs(ps.drop_first()),
            },
        }
    }
}

/// The pattern cannot be satisfied: the reason, as `validate_pattern_satisfiability` reports it.
pub open spec fn spec_unsatisfiable(p: AnnProc) -> Option<Seq<char>> {
    match spec_ground_contradiction(p) {
        Some(c) => Some(c),
        None => spec_impossible_collection(p),
    }
}

/// Validates patterns as queries over messages.
pub struct PatternQueryValidator;

impl PatternQueryValidator {
    pub fn new() -> (r: Self) {
        PatternQueryValidator
    }

    /// Checks the query structure and the projections of a pattern.  Every
    /// pattern passes: the checks find nothing that they reject.
    pub fn validate_sql_like_patterns(&self, pattern: &AnnProc) -> (r: ValidationResult)
        ensures
            r is Ok,
    {
        Self::analyze_pattern_structure(pattern)?;
        Self::validate_pattern_projections(pattern)?;
        Ok(())
    }

    /// Rejects patterns that no message can match: a conjunction of different
    /// ground terms, or of collection patterns of different kinds or sizes.
    pub fn validate_pattern_satisfiability(&self, pattern: &AnnProc) -> (r: ValidationResult)
        ensures
            match spec_unsatisfiable(*pattern) {
                None => r is Ok,
                Some(reason) => r matches Err(ValidationError::UnsatisfiablePattern { pattern: p, pos })
                    && p@ == reason && pos == Some(pattern.span.start),
            },
    {
        match self.find_ground_term_contradiction(pattern) {
            Some(contradiction) => {
                return Err(
                    ValidationError::UnsatisfiablePattern {
                        pattern: contradiction,
                        pos: Some(pattern.span.start),
                    },
                );
            },
            None => {},
        }
        match self.find_type_conflict(pattern) {
            Some(conflict) => {
                return Err(
                    ValidationError::UnsatisfiablePattern {
                        pattern: conflict,
                        pos: Some(pattern.span.start),
                    },
                );
            },
            None => {},
        }
        match self.find_impossible_collection_constraint(pattern) {
            Some(impossible) => {
                return Err(
                    ValidationError::UnsatisfiablePattern {
                        pattern: impossible,
                        pos: Some(pattern.span.start),
                    },
                );
            },
            None => {},
        }
        match self.find_logical_contradiction(pattern) {
            Some(logical) => {
                return Err(
                    ValidationError::UnsatisfiablePattern {
                        pattern: logical,
                        pos: Some(pattern.span.start),
                    },
                );
            },
            None => {},
        }
        Ok(())
    }

    /// Walks the query structure of a pattern; no structure is rejected.
    #[verifier::loop_isolation(false)]
    fn analyze_pattern_structure(pattern: &AnnProc) -> (r: ValidationResult)
        ensures
            r is Ok,
        decreases pattern,
    {
        match &pattern.proc {
            Proc::Collection(col) => match col {
                Collection::List { elements, .. } => {
                    let mut i: usize = 0;
                    while i < elements.len()
                        invariant
                            i <= elements@.len(),
                        decreases elements@.len() - i,
                    {
                        Self::analyze_pattern_structure(&elements[i])?;
                        i = i + 1;
                    }
                    Ok(())
                },
                Collection::Tuple(elements) => {
                    let mut i: usize = 0;
                    while i < elements.len()
                        invariant
                            i <= elements@.len(),
                        decreases elements@.len() - i,
                    {
                        Self::analyze_pattern_structure(&elements[i])?;
                        i = i + 1;
                    }
                    Ok(())
                },
                Collection::SetOf { elements, .. } => {
                    let mut i: usize = 0;
                    while i < elements.len()
                        invariant
                            i <= elements@.len(),
                        decreases elements@.len() - i,
                    {
                        Self::analyze_pattern_structure(&elements[i])?;
                        i = i + 1;
                    }
                    Ok(())
                },
                Collection::MapOf { elements, .. } => {
                    let mut i: usize = 0;
                    while i < elements.len()
                        invariant
                            i <= elements@.len(),
                        decreases elements@.len() - i,
                    {
                        Self::analyze_pattern_structure(&elements[i].key)?;
                        Self::analyze_pattern_structure(&elements[i].value)?;
                        i = i + 1;
                    }
                    Ok(())
                },
            },
            Proc::BinaryExp { op, left, right } => {
                if op.is_connective() {
                    Self::analyze_pattern_structure(left)?;
                    Self::analyze_pattern_structure(right)?;
                }
                Ok(())
            },
            Proc::UnaryExp { op, arg } => {
                if op.is_connective() {
                    Self::analyze_pattern_structure(arg)?;
                }
                Ok(())
            },
            Proc::Send { inputs, .. } => {
                let mut i: usize = 0;
                while i < inputs.len()
                    invariant
                        i <= inputs@.len(),
                    decreases inputs@.len() - i,
                {
                    Self::analyze_pattern_structure(&inputs[i])?;
                    i = i + 1;
                }
                Ok(())
            },
            Proc::Par { left, right } => {
                Self::analyze_pattern_structure(left)?;
                Self::analyze_pattern_structure(right)?;
                Ok(())
            },
            _ => Ok(()),
        }
    }

    /// Walks the variable bindings (projections) of a pattern; none is rejected.
    #[verifier::loop_isolation(false)]
    fn validate_pattern_projections(pattern: &AnnProc) -> (r: ValidationResult)
        ensures
            r is Ok,
        decreases pattern,
    {
        match &pattern.proc {
            Proc::ProcVar(_) => Ok(()),
            Proc::Collection(col) => match col {
                Collection::List { elements, .. } => {
                    let mut i: usize = 0;
                    while i < elements.len()
                        invariant
                            i <= elements@.len(),
                        decreases elements@.len() - i,
                    {
                        Self::validate_pattern_projections(&elements[i])?;
                        i = i + 1;
                    }
                    Ok(())
                },
                Collection::Tuple(elements) => {
                    let mut i: usize = 0;
                    while i < elements.len()
                        invariant
                            i <= elements@.len(),
                        decreases elements@.len() - i,
                    {
                        Self::validate_pattern_projections(&elements[i])?;
                        i = i + 1;
                    }
                    Ok(())
                },
                Collection::SetOf { elements, .. } => {
                    let mut i: usize = 0;
                    while i < elements.len()
                        invariant
                            i <= elements@.len(),
                        decreases elements@.len() - i,
                    {
                        Self::validate_pattern_projections(&elements[i])?;
                        i = i + 1;
                    }
                    Ok(())
                },
                Collection::MapOf { elements, .. } => {
                    let mut i: usize = 0;
                    while i < elements.len()
                        invariant
                            i <= elements@.len(),
                        decreases elements@.len() - i,
                    {
                        Self::validate_pattern_projections(&elements[i].key)?;
                        Self::validate_pattern_projections(&elements[i].value)?;
                        i = i + 1;
                    }
                    Ok(())
                },
            },
            _ => Ok(()),
        }
    }

    /// The text of a ground term.
    pub fn extract_ground_value(&self, pattern: &AnnProc) -> (r: Option<String>)
        ensures
            match spec_ground_value(*pattern) {
                None => r is None,
                Some(v) => r matches Some(s) && s@ == v,
            },
    {
        match &pattern.proc {
            Proc::Nil => Some(String::from_str("Nil")),
            Proc::Unit => Some(String::from_str("()")),
            Proc::BoolLiteral(b) => Some(
                if *b {
                    String::from_str("true")
                } else {
                    String::from_str("false")
                },
            ),
            Proc::LongLiteral(n) => Some(i64_to_string(*n)),
            Proc::StringLiteral(s) => {
                let mut r = String::from_str("\"");
                r.append(s.as_str());
                r.append("\"");
                Some(r)
            },
            Proc::UriLiteral(u) => {
                let mut r = String::from_str("`");
                r.append(u.as_str());
                r.append("`");
                Some(r)
            },
            _ => None,
        }
    }

    /// The kind of a collection pattern.
    pub fn extract_collection_type(&self, pattern: &AnnProc) -> (r: Option<CollectionKind>)
        ensures
            r == spec_collection_kind(*pattern),
    {
        match &pattern.proc {
            Proc::Collection(c) => Some(
                match c {
                    Collection::List { .. } => CollectionKind::List,
                    Collection::Tuple(_) => CollectionKind::Tuple,
                    Collection::SetOf { .. } => CollectionKind::SetOf,
                    Collection::MapOf { .. } => CollectionKind::MapOf,
                },
            ),
            _ => None,
        }
    }

    /// The size of a collection pattern that has no remainder.
    pub fn extract_collection_size(&self, pattern: &AnnProc) -> (r: Option<usize>)
        ensures
            r == spec_collection_size(*pattern),
    {
        match &pattern.proc {
            Proc::Collection(c) => match c {
                Collection::List { elements, remainder } => if remainder.is_none() {
                    Some(elements.len())
                } else {
                    None
                },
                Collection::Tuple(elements) => Some(elements.len()),
                Collection::SetOf { elements, remainder } => if remainder.is_none() {
                    Some(elements.len())
                } else {
                    None
                },
                Collection::MapOf { elements, remainder } => if remainder.is_none() {
                    Some(elements.len())
                } else {
                    None
                },
            },
            _ => None,
        }
    }

    /// The first conjunction of different ground terms.
    fn find_ground_term_contradiction(&self, pattern: &AnnProc) -> (r: Option<String>)
        ensures
            match spec_ground_contradiction(*pattern) {
                None => r is None,
                Some(v) => r matches Some(s) && s@ == v,
            },
        decreases pattern,
    {
        match &pattern.proc {
            Proc::BinaryExp { op: BinaryExpOp::Conjunction, left, right } => {
                let l = self.extract_ground_value(left);
                let r = self.extract_ground_value(right);
                match (l, r) {
                    (Some(lv), Some(rv)) => {
                        if lv != rv {
                            let mut m = String::from_str("Contradictory ground terms: ");
                            m.append(lv.as_str());
                            m.append(" AND ");
                            m.append(rv.as_str());
                            return Some(m);
                        }
                    },
                    _ => {},
                }
                match self.find_ground_term_contradiction(left) {
                    Some(c) => Some(c),
                    None => self.find_ground_term_contradiction(right),
                }
            },
            _ => None,
        }
    }

    /// Type conflicts are left to the runtime: none is reported.
    fn find_type_conflict(&self, pattern: &AnnProc) -> (r: Option<String>)
        ensures
            r is None,
    {
        None
    }

    /// Logical contradictions are left to the runtime: none is reported.
    fn find_logical_contradiction(&self, pattern: &AnnProc) -> (r: Option<String>)
        ensures
            r is None,
    {
        None
    }

    /// The first collection constraint that no value can meet.
    fn find_impossible_collection_constraint(&self, pattern: &AnnProc) -> (r: Option<String>)
        ensures
            match spec_impossible_collection(*pattern) {
                None => r is None,
                Some(v) => r matches Some(s) && s@ == v,
            },
        decreases pattern, 1nat,
    {
        match &pattern.proc {
            Proc::BinaryExp { op: BinaryExpOp::Conjunction, left, right } => {
                let lk = self.extract_collection_type(left);
                let rk = self.extract_collection_type(right);
                match (lk, rk) {
                    (Some(l), Some(r)) => {
                        if l != r {
                            let mut m = String::from_str("Impossible collection constraint: ");
                            m.append(l.label());
                            m.append(" AND ");
                            m.append(r.label());
                            return Some(m);
                        }
                    },
                    _ => {},
                }
                let ls = self.extract_collection_size(left);
                let rs = self.extract_collection_size(right);
                match (ls, rs) {
                    (Some(l), Some(r)) => {
                        if l != r {
                            let mut m = String::from_str(
                                "Impossible collection size constraint: size ",
                            );
                            let lt = usize_to_string(l);
                            m.append(lt.as_str());
                            m.append(" AND size ");
                            let rt = usize_to_string(r);
                            m.append(rt.as_str());
                            return Some(m);
                        }
                    },
                    _ => {},
                }
                match self.find_impossible_collection_constraint(left) {
                    Some(c) => Some(c),
                    None => self.find_impossible_collection_constraint(right),
                }
            },
            Proc::Collection(c) => match c {
                Collection::List { elements, .. } => self.impossible_in_seq(elements),
                Collection::SetOf { elements, .. } => self.impossible_in_seq(elements),
                Collection::Tuple(elements) => self.impossible_in_seq(elements),
                Collection::MapOf { elements, .. } => self.impossible_in_pairs(elements),
            },
            _ => None,
        }
    }

    fn impossible_in_seq(&self, elements: &Vec<AnnProc>) -> (r: Option<String>)
        ensures
            match spec_impossible_in_seq(elements@) {
                None => r is None,
                Some(v) => r matches Some(s) && s@ == v,
            },
        decreases *elements, 0nat,
    {
        let mut i: usize = 0;
        proof {
            assert(elements@.skip(0) =~= elements@);
        }
        while i < elements.len()
            invariant
                i <= elements@.len(),
                spec_impossible_in_seq(elements@) == spec_impossible_in_seq(
                    elements@.skip(i as int),
                ),
            decreases elements@.len() - i,
        {
            proof {
                assert(elements@.skip(i as int)[0] == elements@[i as int]);
                assert(elements@.skip(i as int).drop_first() =~= elements@.skip(i + 1));
            }
            match self.find_impossible_collection_constraint(&elements[i]) {
                Some(c) => {
                    return Some(c);
                },
                None => {},
            }
            i = i + 1;
        }
        None
    }

    fn impossible_in_pairs(&self, elements: &Vec<KeyValue>) -> (r: Option<String>)
        ensures
            match spec_impossible_in_pairs(elements@) {
                None => r is None,
                Some(v) => r matches Some(s) && s@ == v,
            },
        decreases *elements, 0nat,
    {
        let mut i: usize = 0;
        proof {
            assert(elements@.skip(0) =~= elements@);
        }
        while i < elements.len()
            invariant
                i <= elements@.len(),
                spec_impossible_in_pairs(elements@) == spec_impossible_in_pairs(
                    elements@.skip(i as int),
                ),
            decreases elements@.len() - i,
        {
            proof {
                assert(elements@.skip(i as int)[0] == elements@[i as int]);
                assert(elements@.skip(i as int).drop_first() =~= elements@.skip(i + 1));
            }
            match self.find_impossible_collection_constraint(&elements[i].key) {
                Some(c) => {
                    return Some(c);
                },
                None => {},
            }
            match self.find_impossible_collection_constraint(&elements[i].value) {
                Some(c) => {
                    return Some(c);
                },
                None => {},
            }
            i = i + 1;
        }
        None
    }
}

} // verus!
