//! The sources of `for`-comprehension binds: the channel a bind reads from
//! must be usable as a channel.
use crate::ast::{AnnProc, Name, Source, Var};
use crate::db::{lookup_binding, scoped, DbView, SemanticDb};
use crate::elab_errors::{vresult, ValidationError, ValidationErrorSpec, ValidationResult};
use crate::resolution::symbol_index;
use crate::type_validation::ChannelType;
use crate::types::{Symbol, SymbolOccurrence, VarBinding, PID};
use vstd::prelude::*;

verus! {

/// What the channel `name` is, or why it cannot be a channel: a variable
/// that a pattern introduces (a free variable) is not a channel.
pub open spec fn spec_source_channel(v: DbView, name: Name) -> Result<ChannelType, ValidationErrorSpec> {
    match name {
        Name::Quote(_) => Ok(ChannelType::QuotedProcess),
        Name::NameVar(Var::Wildcard) => Ok(ChannelType::Unknown),
        Name::NameVar(Var::Id(id)) => if v.strings.contains(id.name@) {
            let sym = symbol_index(v.strings, id.name@);
            match lookup_binding(v.bound, SymbolOccurrence { position: id.pos, symbol: sym }) {
                Some(VarBinding::Free { .. }) => Err(
                    ValidationErrorSpec::UnboundVariable { var: sym, pos: id.pos },
                ),
                _ => Ok(ChannelType::Variable),
            }
        } else {
            Ok(ChannelType::Variable)
        },
    }
}

/// The validation of a source whose channel is `name`.
pub open spec fn spec_source_check(v: DbView, name: Name) -> Result<(), ValidationErrorSpec> {
    match spec_source_channel(v, name) {
        Ok(_) => Ok(()),
        Err(e) => Err(e),
    }
}

/// The validation of a simple source whose channel is `name`, in the `for`
/// comprehension `pid`: once the resolver has run over the comprehension (it
/// has a scope), a variable must also be bound; before that no binding is
/// known and only the channel is checked.  A name that was never interned is
/// reported under the symbol that interning it would give.
pub open spec fn spec_simple_source_check(v: DbView, pid: PID, name: Name) -> Result<(), ValidationErrorSpec> {
    match spec_source_check(v, name) {
        Err(e) => Err(e),
        Ok(_) => match name {
            Name::NameVar(Var::Id(id)) => if !scoped(v, pid) {
                Ok(())
            } else if v.strings.contains(id.name@) {
                let sym = symbol_index(v.strings, id.name@);
                if lookup_binding(v.bound, SymbolOccurrence { position: id.pos, symbol: sym }) is None {
                    Err(ValidationErrorSpec::UnboundVariable { var: sym, pos: id.pos })
                } else {
                    Ok(())
                }
            } else {
                Err(ValidationErrorSpec::UnboundVariable { var: Symbol(v.strings.len() as u32), pos: id.pos })
            },
            _ => Ok(()),
        },
    }
}

/// The channel a source reads from.
pub open spec fn source_channel(s: Source) -> Name {
    match s {
        Source::Simple { name } => name,
        Source::ReceiveSend { name } => name,
        Source::SendReceive { name, .. } => name,
    }
}

/// Validates the sources of the binds of one `for` comprehension.
pub struct SourceValidator<'a, 'b> {
    pub db: &'a SemanticDb<'b>,
    pub pid: PID,
}

impl<'a, 'b> SourceValidator<'a, 'b> {
    pub fn new(db: &'a SemanticDb<'b>, pid: PID) -> (r: Self)
        ensures
            r.db == db,
            r.pid == pid,
    {
        SourceValidator { db, pid }
    }

    /// A simple source `x <- ch` is valid when its channel is and, when the
    /// channel is a variable and the comprehension has been resolved, the
    /// variable is bound.
    pub fn validate_simple_source(&self, name: &Name) -> (r: ValidationResult)
        requires
            self.db.inv(),
        ensures
            vresult(r) == spec_simple_source_check(self.db@, self.pid, *name),
    {
        proof {
            self.db.lemma_inv_wf();
        }
        match self.check_channel_type(name) {
            Ok(_) => match name {
                Name::NameVar(Var::Id(id)) => if !self.db.is_scoped(self.pid) {
                    Ok(())
                } else {
                    match self.db.symbol_of(id.name.as_str()) {
                    Some(symbol) => {
                        proof {
                            let i = choose|i: int| 0 <= i < self.db@.strings.len() && self.db@.strings[i] == id.name@;
                            assert(self.db@.strings[symbol.0 as int] == id.name@);
                            assert(i == symbol.0);
                        }
                        let occurrence = SymbolOccurrence { symbol, position: id.pos };
                        match self.db.binder_of(occurrence) {
                            None => Err(ValidationError::UnboundVariable { var: symbol, pos: id.pos }),
                            Some(_) => Ok(()),
                        }
                    },
                    None => {
                        let next = self.db.symbol_count();
                        Err(ValidationError::UnboundVariable { var: Symbol(next as u32), pos: id.pos })
                    },
                    }
                },
                _ => Ok(()),
            },
            Err(e) => Err(e),
        }
    }

    /// A receive-send source is valid when its channel is: every kind of
    /// channel can be read and written.
    pub fn validate_receive_send(&self, name: &Name) -> (r: ValidationResult)
        requires
            self.db.inv(),
        ensures
            vresult(r) == spec_source_check(self.db@, *name),
    {
        match self.check_channel_type(name) {
            Ok(channel_type) => match channel_type {
                ChannelType::UnforgeableName | ChannelType::QuotedProcess | ChannelType::Variable
                | ChannelType::Unknown => Ok(()),
            },
            Err(e) => Err(e),
        }
    }

    /// A send-receive source is valid when its channel is; its inputs are not
    /// checked further.
    pub fn validate_send_receive(&self, name: &Name, inputs: &Vec<AnnProc>) -> (r: ValidationResult)
        requires
            self.db.inv(),
        ensures
            vresult(r) == spec_source_check(self.db@, *name),
    {
        match self.check_channel_type(name) {
            Ok(_) => Ok(()),
            Err(e) => Err(e),
        }
    }

    /// What the channel `name` is.
    pub fn check_channel_type(&self, name: &Name) -> (r: Result<ChannelType, ValidationError>)
        requires
            self.db.inv(),
        ensures
            match r {
                Ok(t) => spec_source_channel(self.db@, *name) == Ok::<ChannelType, ValidationErrorSpec>(t),
                Err(e) => spec_source_channel(self.db@, *name) == Err::<ChannelType, ValidationErrorSpec>(e@),
            },
    {
        proof {
            self.db.lemma_inv_wf();
        }
        match name {
            Name::NameVar(Var::Id(id)) => {
                match self.db.symbol_of(id.name.as_str()) {
                    Some(symbol) => {
                        proof {
                            let i = choose|i: int| 0 <= i < self.db@.strings.len() && self.db@.strings[i] == id.name@;
                            assert(self.db@.strings[symbol.0 as int] == id.name@);
                            assert(i == symbol.0);
                            assert(self.db@.strings.contains(id.name@));
                        }
                        let occurrence = SymbolOccurrence { symbol, position: id.pos };
                        match self.db.binder_of(occurrence) {
                            Some(VarBinding::Free { .. }) => Err(
                                ValidationError::UnboundVariable { var: symbol, pos: id.pos },
                            ),
                            _ => Ok(ChannelType::Variable),
                        }
                    },
                    None => Ok(ChannelType::Variable),
                }
            },
            Name::NameVar(Var::Wildcard) => Ok(ChannelType::Unknown),
            Name::Quote(_) => Ok(ChannelType::QuotedProcess),
        }
    }

    /// Validates a source by its kind.
    pub fn validate_source(&self, source: &Source) -> (r: ValidationResult)
        requires
            self.db.inv(),
        ensures
            vresult(r) == match *source {
                Source::Simple { name } => spec_simple_source_check(self.db@, self.pid, name),
                _ => spec_source_check(self.db@, source_channel(*source)),
            },
    {
        match source {
            Source::Simple { name } => self.validate_simple_source(name),
            Source::ReceiveSend { name } => self.validate_receive_send(name),
            Source::SendReceive { name, inputs } => self.validate_send_receive(name, inputs),
        }
    }
}

} // verus!
