//! Channel and message types of `for` comprehensions: what a pattern expects,
//! what a channel is, and whether they fit.
use crate::ast::{AnnProc, Bind, Collection, Name, Names, Proc, Var};
use crate::db::{lookup_binding, DbView, SemanticDb};
use crate::elab_errors::{vresult, ValidationError, ValidationErrorSpec, ValidationResult};
use crate::text::{decimal, u32_to_string};
use crate::types::{BinderKind, Symbol, SymbolOccurrence, VarBinding, PID};
use vstd::prelude::*;
use vstd::string::StringExecFns;

verus! {

/// What a channel is, as far as its syntax and binder tell.
#[derive(Clone, Copy, Debug, PartialEq, Eq, Structural)]
pub enum ChannelType {
    /// A name declared by `new` with a URI.
    UnforgeableName,
    /// A quoted process `@P`.
    QuotedProcess,
    /// A variable.
    Variable,
    /// Anything else (the wildcard).
    Unknown,
}

/// The shape of message a pattern expects.
#[derive(Clone, Copy, Debug, PartialEq, Eq, Structural)]
pub enum MessageType {
    /// A ground term (literals, `Nil`, unit).
    Ground,
    /// A single name.
    Name,
    /// A process.
    Process,
    List { expected_len: Option<usize> },
    Tuple { expected_len: usize },
    SetOf { expected_len: Option<usize> },
    MapOf { expected_pairs: Option<usize> },
    /// Several names, or names with a remainder.
    Multiple,
    /// Unknown or too complex to tell.
    Unknown,
}

/// The message type a quoted process pattern expects; `None` for processes
/// that cannot be patterns.
pub open spec fn spec_proc_pattern_type(p: AnnProc) -> Option<MessageType> {
    match p.proc {
        Proc::Nil | Proc::Unit | Proc::BoolLiteral(_) | Proc::LongLiteral(_) | Proc::StringLiteral(_)
        | Proc::UriLiteral(_) | Proc::SimpleType(_) | Proc::SignedIntLiteral { .. }
        | Proc::UnsignedIntLiteral { .. } | Proc::BigIntLiteral(_) | Proc::BigRatLiteral(_)
        | Proc::FloatLiteral { .. } | Proc::FixedPointLiteral { .. } => Some(MessageType::Ground),
        Proc::Collection(col) => Some(
            match col {
                Collection::List { elements, remainder } => MessageType::List {
                    expected_len: if remainder is Some {
                        None
                    } else {
                        Some(elements@.len() as usize)
                    },
                },
                Collection::Tuple(elements) => MessageType::Tuple {
                    expected_len: elements@.len() as usize,
                },
                Collection::SetOf { elements, remainder } => MessageType::SetOf {
                    expected_len: if remainder is Some {
                        None
                    } else {
                        Some(elements@.len() as usize)
                    },
                },
                Collection::MapOf { elements, remainder } => MessageType::MapOf {
                    expected_pairs: if remainder is Some {
                        None
                    } else {
                        Some(elements@.len() as usize)
                    },
                },
            },
        ),
        Proc::Par { .. } | Proc::Send { .. } | Proc::ForComprehension { .. } | Proc::Match { .. }
        | Proc::Let { .. } | Proc::New { .. } | Proc::Contract { .. } => Some(MessageType::Process),
        Proc::ProcVar(_) | Proc::VarRef { .. } | Proc::Eval { .. } | Proc::Method { .. }
        | Proc::UnaryExp { .. } | Proc::BinaryExp { .. } => Some(MessageType::Unknown),
        Proc::IfThenElse { .. } | Proc::SendSync { .. } | Proc::Bundle { .. } | Proc::Bad => None,
    }
}

/// Why a process cannot be a pattern.
pub open spec fn spec_invalid_pattern_reason(p: AnnProc) -> Seq<char> {
    match p.proc {
        Proc::IfThenElse { .. } => "Invalid pattern: IfThenElse cannot be used in patterns"@,
        Proc::SendSync { .. } => "Invalid pattern: SendSync cannot be used in patterns"@,
        Proc::Bundle { .. } => "Bundle cannot appear in pattern"@,
        _ => "Malformed pattern"@,
    }
}

/// The message type of a quoted process pattern, or its error.
pub open spec fn spec_infer_proc_pattern_type(p: AnnProc) -> Result<MessageType, ValidationErrorSpec> {
    match spec_proc_pattern_type(p) {
        Some(t) => Ok(t),
        None => Err(
            ValidationErrorSpec::InvalidPatternStructure {
                pid: PID(0),
                position: Some(p.span.start),
                reason: spec_invalid_pattern_reason(p),
            },
        ),
    }
}

/// The message type a bind pattern expects, or its error.
pub open spec fn spec_infer_pattern_type(pattern: Names) -> Result<MessageType, ValidationErrorSpec> {
    if pattern.spec_is_empty() {
        Ok(MessageType::Ground)
    } else if pattern.spec_is_single_name() {
        match pattern.names@[0] {
            Name::Quote(p) => spec_infer_proc_pattern_type(*p),
            Name::NameVar(_) => Ok(MessageType::Name),
        }
    } else if pattern.names@.len() > 1 || pattern.remainder is Some {
        Ok(MessageType::Multiple)
    } else {
        Ok(MessageType::Unknown)
    }
}

/// The error a quoted process inside a bind pattern raises, if any.
pub open spec fn spec_quoted_pattern_error(pid: PID, p: AnnProc) -> Option<ValidationErrorSpec> {
    match p.proc {
        Proc::Bundle { .. } => Some(
            ValidationErrorSpec::InvalidPatternStructure {
                pid,
                position: Some(p.span.start),
                reason: "Bundle cannot appear in pattern"@,
            },
        ),
        Proc::BinaryExp { op, .. } => if op.spec_is_connective() {
            Some(ValidationErrorSpec::ConnectiveOutsidePattern { pos: p.span.start })
        } else {
            None
        },
        Proc::UnaryExp { op, .. } => if op.spec_is_connective() {
            Some(ValidationErrorSpec::ConnectiveOutsidePattern { pos: p.span.start })
        } else {
            None
        },
        _ => None,
    }
}

/// The first error among the names of a bind pattern, from index `i` on.
pub open spec fn spec_names_error(pid: PID, names: Seq<Name>, i: int) -> Option<ValidationErrorSpec>
    decreases names.len() - i,
{
    if i >= names.len() || i < 0 {
        None
    } else {
        match names[i] {
            Name::Quote(p) => match spec_quoted_pattern_error(pid, *p) {
                Some(e) => Some(e),
                None => spec_names_error(pid, names, i + 1),
            },
            Name::NameVar(_) => spec_names_error(pid, names, i + 1),
        }
    }
}

/// The outcome of validating one bind.
pub open spec fn spec_validate_bind(pid: PID, bind: Bind) -> Result<(), ValidationErrorSpec> {
    let pattern = *bind.spec_names();
    match spec_infer_pattern_type(pattern) {
        Err(e) => Err(e),
        Ok(_) => match spec_names_error(pid, pattern.names@, 0) {
            Some(e) => Err(e),
            None => Ok(()),
        },
    }
}

/// The outcome of validating the binds of a receipt from index `i` on.
pub open spec fn spec_validate_binds(pid: PID, binds: Seq<Bind>, i: int) -> Result<(), ValidationErrorSpec>
    decreases binds.len() - i,
{
    if i >= binds.len() || i < 0 {
        Ok(())
    } else {
        match spec_validate_bind(pid, binds[i]) {
            Err(e) => Err(e),
            Ok(()) => spec_validate_binds(pid, binds, i + 1),
        }
    }
}

/// The outcome of validating the receipts from index `i` on.
pub open spec fn spec_validate_receipts(pid: PID, receipts: Seq<Vec<Bind>>, i: int) -> Result<
    (),
    ValidationErrorSpec,
>
    decreases receipts.len() - i,
{
    if i >= receipts.len() || i < 0 {
        Ok(())
    } else {
        match spec_validate_binds(pid, receipts[i]@, 0) {
            Err(e) => Err(e),
            Ok(()) => spec_validate_receipts(pid, receipts, i + 1),
        }
    }
}

/// The outcome of validating the channel usage of process `pid`.
pub open spec fn spec_validate_channel_usage(v: DbView, pid: PID) -> Result<(), ValidationErrorSpec> {
    if pid.0 >= v.procs.len() {
        Err(
            ValidationErrorSpec::InvalidPatternStructure {
                pid,
                position: None,
                reason: "PID "@ + decimal(pid.0 as nat) + " not found in database"@,
            },
        )
    } else {
        match v.procs[pid.0 as int].proc {
            Proc::ForComprehension { receipts, .. } => spec_validate_receipts(pid, receipts@, 0),
            _ => Err(
                ValidationErrorSpec::InvalidPatternStructure {
                    pid,
                    position: Some(v.procs[pid.0 as int].span.start),
                    reason: "Expected ForComprehension node"@,
                },
            ),
        }
    }
}

/// The channel type of a channel name, from its syntax and its binder.
pub open spec fn spec_channel_type(v: DbView, channel: Name) -> ChannelType {
    match channel {
        Name::Quote(_) => ChannelType::QuotedProcess,
        Name::NameVar(Var::Wildcard) => ChannelType::Unknown,
        Name::NameVar(Var::Id(id)) => {
            if exists|sym: Symbol, b: crate::types::BinderId|
                sym.0 < v.strings.len() && v.strings[sym.0 as int] == id.name@ && lookup_binding(
                    v.bound,
                    SymbolOccurrence { position: id.pos, symbol: sym },
                ) == Some(VarBinding::Bound(b)) && b.0 < v.binders.len() && v.binders[b.0 as int].kind matches BinderKind::Name(
                    Some(_),
                ) {
                ChannelType::UnforgeableName
            } else {
                ChannelType::Variable
            }
        },
    }
}

/// Validates the channels and patterns of `for` comprehensions.
pub struct TypeValidator<'a, 'ast> {
    pub db: &'a SemanticDb<'ast>,
}

impl<'a, 'ast> TypeValidator<'a, 'ast> {
    pub fn new(db: &'a SemanticDb<'ast>) -> (r: Self)
        ensures
            r.db == db,
    {
        TypeValidator { db }
    }

    /// Validates every bind of the `for` comprehension `for_comp_pid`: its
    /// pattern must have a message type, and no quoted process in it may be a
    /// bundle or a connective.
    pub fn validate_channel_usage(&self, for_comp_pid: PID) -> (r: ValidationResult)
        requires
            self.db.inv(),
        ensures
            vresult(r) == spec_validate_channel_usage(self.db@, for_comp_pid),
    {
        let proc_ref = match self.db.get(for_comp_pid) {
            Some(p) => p,
            None => {
                let mut reason = String::from_str("PID ");
                let n = u32_to_string(for_comp_pid.0);
                reason.append(n.as_str());
                reason.append(" not found in database");
                return Err(
                    ValidationError::InvalidPatternStructure {
                        pid: for_comp_pid,
                        position: None,
                        reason,
                    },
                );
            },
        };
        let receipts = match &proc_ref.proc {
            Proc::ForComprehension { receipts, .. } => receipts,
            _ => {
                return Err(
                    ValidationError::InvalidPatternStructure {
                        pid: for_comp_pid,
                        position: Some(proc_ref.span.start),
                        reason: String::from_str("Expected ForComprehension node"),
                    },
                );
            },
        };
        let mut i: usize = 0;
        while i < receipts.len()
            invariant
                i <= receipts@.len(),
                spec_validate_channel_usage(self.db@, for_comp_pid) == spec_validate_receipts(
                    for_comp_pid,
                    receipts@,
                    i as int,
                ),
            decreases receipts@.len() - i,
        {
            self.validate_receipt(for_comp_pid, &receipts[i])?;
            i = i + 1;
        }
        Ok(())
    }

    fn validate_receipt(&self, for_comp_pid: PID, receipt: &Vec<Bind>) -> (r: ValidationResult)
        ensures
            vresult(r) == spec_validate_binds(for_comp_pid, receipt@, 0),
    {
        let mut i: usize = 0;
        while i < receipt.len()
            invariant
                i <= receipt@.len(),
                spec_validate_binds(for_comp_pid, receipt@, 0) == spec_validate_binds(
                    for_comp_pid,
                    receipt@,
                    i as int,
                ),
            decreases receipt@.len() - i,
        {
            self.validate_bind(for_comp_pid, &receipt[i])?;
            i = i + 1;
        }
        Ok(())
    }

    fn validate_bind(&self, for_comp_pid: PID, bind: &Bind) -> (r: ValidationResult)
        ensures
            vresult(r) == spec_validate_bind(for_comp_pid, *bind),
    {
        let pattern = bind.names();
        let _channel = bind.source_name();
        let expected_msg_type = match self.infer_pattern_type(pattern) {
            Ok(t) => t,
            Err(e) => {
                return Err(e);
            },
        };
        self.validate_pattern_channel_compatibility(for_comp_pid, &expected_msg_type)?;
        self.validate_pattern_structure(for_comp_pid, pattern)
    }

    /// The type of a channel name: quoted processes, the wildcard, names declared
    /// with a URI (unforgeable), and other variables.
    pub fn infer_channel_type(&self, channel: &Name) -> (r: ChannelType)
        requires
            self.db.inv(),
        ensures
            r == spec_channel_type(self.db@, *channel),
    {
        match channel {
            Name::Quote(_) => ChannelType::QuotedProcess,
            Name::NameVar(Var::Wildcard) => ChannelType::Unknown,
            Name::NameVar(Var::Id(id)) => {
                let v = self.db.binder_of_id(id);
                match v {
                    Some(VarBinding::Bound(binder_id)) => {
                        match self.db.get_binder(binder_id) {
                            Some(binder) => {
                                if let BinderKind::Name(Some(_)) = binder.kind {
                                    return ChannelType::UnforgeableName;
                                }
                                proof {
                                    self.lemma_not_unforgeable(id, binder_id);
                                }
                                ChannelType::Variable
                            },
                            None => {
                                proof {
                                    self.lemma_not_unforgeable(id, binder_id);
                                }
                                ChannelType::Variable
                            },
                        }
                    },
                    _ => {
                        proof {
                            self.db.lemma_inv_wf();
                            let vv = self.db@;
                            assert forall|sym: Symbol, b: crate::types::BinderId|
                                sym.0 < vv.strings.len() && vv.strings[sym.0 as int] == id.name@
                                    implies lookup_binding(
                                    vv.bound,
                                    SymbolOccurrence { position: id.pos, symbol: sym },
                                ) != Some(VarBinding::Bound(b)) by {
                                if v is Some {
                                    let s0 = choose|s0: Symbol|
                                        s0.0 < vv.strings.len() && vv.strings[s0.0 as int]
                                            == id.name@ && lookup_binding(
                                            vv.bound,
                                            SymbolOccurrence { position: id.pos, symbol: s0 },
                                        ) == v;
                                    if sym != s0 {
                                        assert(vv.strings[sym.0 as int] == vv.strings[s0.0 as int]);
                                    }
                                }
                            }
                        }
                        ChannelType::Variable
                    },
                }
            },
        }
    }

    proof fn lemma_not_unforgeable(&self, id: &crate::ast::Id, binder_id: crate::types::BinderId)
        requires
            self.db.inv(),
            exists|sym: Symbol|
                sym.0 < self.db@.strings.len() && self.db@.strings[sym.0 as int] == id.name@
                    && lookup_binding(
                    self.db@.bound,
                    SymbolOccurrence { position: id.pos, symbol: sym },
                ) == Some(VarBinding::Bound(binder_id)),
            !(binder_id.0 < self.db@.binders.len() && self.db@.binders[binder_id.0 as int].kind matches BinderKind::Name(
                Some(_),
            )),
        ensures
            spec_channel_type(self.db@, Name::NameVar(Var::Id(*id))) == ChannelType::Variable,
    {
        let vv = self.db@;
        let s0 = choose|s0: Symbol|
            s0.0 < vv.strings.len() && vv.strings[s0.0 as int] == id.name@ && lookup_binding(
                vv.bound,
                SymbolOccurrence { position: id.pos, symbol: s0 },
            ) == Some(VarBinding::Bound(binder_id));
        assert(crate::db::db_wf(vv)) by {
            self.db.lemma_inv_wf();
        }
        assert forall|sym: Symbol, b: crate::types::BinderId|
            sym.0 < vv.strings.len() && vv.strings[sym.0 as int] == id.name@ && lookup_binding(
                vv.bound,
                SymbolOccurrence { position: id.pos, symbol: sym },
            ) == Some(VarBinding::Bound(b)) implies !(b.0 < vv.binders.len()
            && vv.binders[b.0 as int].kind matches BinderKind::Name(Some(_))) by {
            if sym != s0 {
                assert(vv.strings[sym.0 as int] == vv.strings[s0.0 as int]);
            }
        }
    }

    /// The message type a bind pattern expects.
    pub fn infer_pattern_type(&self, pattern: &Names) -> (r: Result<MessageType, ValidationError>)
        ensures
            match r {
                Ok(t) => spec_infer_pattern_type(*pattern) == Ok::<MessageType, ValidationErrorSpec>(t),
                Err(e) => spec_infer_pattern_type(*pattern) == Err::<MessageType, ValidationErrorSpec>(e@),
            },
    {
        if pattern.is_empty() {
            return Ok(MessageType::Ground);
        }
        if pattern.is_single_name() {
            return self.infer_single_name_type(&pattern.names[0]);
        }
        if pattern.names.len() > 1 || pattern.remainder.is_some() {
            return Ok(MessageType::Multiple);
        }
        Ok(MessageType::Unknown)
    }

    fn infer_single_name_type(&self, name: &Name) -> (r: Result<MessageType, ValidationError>)
        ensures
            match r {
                Ok(t) => match *name {
                    Name::Quote(p) => spec_infer_proc_pattern_type(*p) == Ok::<
                        MessageType,
                        ValidationErrorSpec,
                    >(t),
                    Name::NameVar(_) => t == MessageType::Name,
                },
                Err(e) => match *name {
                    Name::Quote(p) => spec_infer_proc_pattern_type(*p) == Err::<
                        MessageType,
                        ValidationErrorSpec,
                    >(e@),
                    Name::NameVar(_) => false,
                },
            },
    {
        match name {
            Name::Quote(proc) => self.infer_proc_pattern_type(proc),
            Name::NameVar(_) => Ok(MessageType::Name),
        }
    }

    /// The message type a quoted process pattern expects.
    pub fn infer_proc_pattern_type(&self, proc: &AnnProc) -> (r: Result<MessageType, ValidationError>)
        ensures
            match r {
                Ok(t) => spec_infer_proc_pattern_type(*proc) == Ok::<MessageType, ValidationErrorSpec>(
                    t,
                ),
                Err(e) => spec_infer_proc_pattern_type(*proc) == Err::<
                    MessageType,
                    ValidationErrorSpec,
                >(e@),
            },
    {
        match &proc.proc {
            Proc::Nil | Proc::Unit | Proc::BoolLiteral(_) | Proc::LongLiteral(_)
            | Proc::StringLiteral(_) | Proc::UriLiteral(_) | Proc::SimpleType(_)
            | Proc::SignedIntLiteral { .. } | Proc::UnsignedIntLiteral { .. }
            | Proc::BigIntLiteral(_) | Proc::BigRatLiteral(_) | Proc::FloatLiteral { .. }
            | Proc::FixedPointLiteral { .. } => Ok(MessageType::Ground),
            Proc::Collection(col) => match col {
                Collection::List { elements, remainder } => Ok(
                    MessageType::List {
                        expected_len: if remainder.is_some() {
                            None
                        } else {
                            Some(elements.len())
                        },
                    },
                ),
                Collection::Tuple(elements) => Ok(MessageType::Tuple { expected_len: elements.len() }),
                Collection::SetOf { elements, remainder } => Ok(
                    MessageType::SetOf {
                        expected_len: if remainder.is_some() {
                            None
                        } else {
                            Some(elements.len())
                        },
                    },
                ),
                Collection::MapOf { elements, remainder } => Ok(
                    MessageType::MapOf {
                        expected_pairs: if remainder.is_some() {
                            None
                        } else {
                            Some(elements.len())
                        },
                    },
                ),
            },
            Proc::Par { .. } | Proc::Send { .. } | Proc::ForComprehension { .. } | Proc::Match { .. }
            | Proc::Let { .. } | Proc::New { .. } | Proc::Contract { .. } => Ok(MessageType::Process),
            Proc::ProcVar(_) | Proc::VarRef { .. } | Proc::Eval { .. } | Proc::Method { .. }
            | Proc::UnaryExp { .. } | Proc::BinaryExp { .. } => Ok(MessageType::Unknown),
            Proc::IfThenElse { .. } => Err(
                ValidationError::InvalidPatternStructure {
                    pid: PID(0),
                    position: Some(proc.span.start),
                    reason: String::from_str("Invalid pattern: IfThenElse cannot be used in patterns"),
                },
            ),
            Proc::SendSync { .. } => Err(
                ValidationError::InvalidPatternStructure {
                    pid: PID(0),
                    position: Some(proc.span.start),
                    reason: String::from_str("Invalid pattern: SendSync cannot be used in patterns"),
                },
            ),
            Proc::Bundle { .. } => Err(
                ValidationError::InvalidPatternStructure {
                    pid: PID(0),
                    position: Some(proc.span.start),
                    reason: String::from_str("Bundle cannot appear in pattern"),
                },
            ),
            Proc::Bad => Err(
                ValidationError::InvalidPatternStructure {
                    pid: PID(0),
                    position: Some(proc.span.start),
                    reason: String::from_str("Malformed pattern"),
                },
            ),
        }
    }

    /// Every message type fits every channel type: Rholang is dynamically typed,
    /// so the runtime decides.
    fn validate_pattern_channel_compatibility(&self, _for_comp_pid: PID, _msg_type: &MessageType) -> (r:
        ValidationResult)
        ensures
            r is Ok,
    {
        Ok(())
    }

    /// The quoted processes among the names of a bind pattern must not be
    /// bundles or connectives.
    fn validate_pattern_structure(&self, for_comp_pid: PID, pattern: &Names) -> (r: ValidationResult)
        ensures
            match spec_names_error(for_comp_pid, pattern.names@, 0) {
                Some(e) => r matches Err(err) && err@ == e,
                None => r is Ok,
            },
    {
        if pattern.is_empty() {
            return Ok(());
        }
        let mut i: usize = 0;
        while i < pattern.names.len()
            invariant
                i <= pattern.names@.len(),
                spec_names_error(for_comp_pid, pattern.names@, 0) == spec_names_error(
                    for_comp_pid,
                    pattern.names@,
                    i as int,
                ),
            decreases pattern.names@.len() - i,
        {
            self.validate_name_in_pattern(for_comp_pid, &pattern.names[i])?;
            i = i + 1;
        }
        Ok(())
    }

    fn validate_name_in_pattern(&self, for_comp_pid: PID, name: &Name) -> (r: ValidationResult)
        ensures
            match *name {
                Name::Quote(p) => match spec_quoted_pattern_error(for_comp_pid, *p) {
                    Some(e) => r matches Err(err) && err@ == e,
                    None => r is Ok,
                },
                Name::NameVar(_) => r is Ok,
            },
    {
        match name {
            Name::Quote(proc) => self.validate_quoted_pattern(for_comp_pid, proc),
            Name::NameVar(_) => Ok(()),
        }
    }

    /// A quoted process in a bind pattern must not be a bundle or a connective.
    pub fn validate_quoted_pattern(&self, for_comp_pid: PID, proc: &AnnProc) -> (r: ValidationResult)
        ensures
            match spec_quoted_pattern_error(for_comp_pid, *proc) {
                Some(e) => r matches Err(err) && err@ == e,
                None => r is Ok,
            },
    {
        match &proc.proc {
            Proc::Bundle { .. } => Err(
                ValidationError::InvalidPatternStructure {
                    pid: for_comp_pid,
                    position: Some(proc.span.start),
                    reason: String::from_str("Bundle cannot appear in pattern"),
                },
            ),
            Proc::BinaryExp { op, .. } => if op.is_connective() {
                Err(ValidationError::ConnectiveOutsidePattern { pos: proc.span.start })
            } else {
                Ok(())
            },
            Proc::UnaryExp { op, .. } => if op.is_connective() {
                Err(ValidationError::ConnectiveOutsidePattern { pos: proc.span.start })
            } else {
                Ok(())
            },
            _ => Ok(()),
        }
    }
}

} // verus!
