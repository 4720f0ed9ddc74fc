//! String interning: each distinct string gets the symbol of its insertion index.
use crate::types::Symbol;
use indexmap::IndexSet;
use std::hash::RandomState;
use vstd::prelude::*;

verus! {

#[verifier::external_type_specification]
#[verifier::external_body]
#[verifier::reject_recursive_types(T)]
#[verifier::reject_recursive_types(S)]
pub struct ExIndexSet<T, S>(IndexSet<T, S>);

/// The strings held by an `IndexSet`, in insertion order.
pub uninterp spec fn index_set_strings(s: IndexSet<String, RandomState>) -> Seq<Seq<char>>;

/// An empty set (`IndexSet::new`).
#[verifier::external_body]
fn index_set_new() -> (r: IndexSet<String, RandomState>)
    ensures
        index_set_strings(r) == Seq::<Seq<char>>::empty(),
{
    IndexSet::new()
}

/// The number of strings (`IndexSet::len`).
#[verifier::external_body]
fn index_set_len(s: &IndexSet<String, RandomState>) -> (r: usize)
    ensures
        r == index_set_strings(*s).len(),
{
    s.len()
}

/// The index of `name`, if present (`IndexSet::get_index_of`).
#[verifier::external_body]
fn index_set_get_index_of(s: &IndexSet<String, RandomState>, name: &str) -> (r: Option<usize>)
    ensures
        match r {
            Some(i) => i < index_set_strings(*s).len() && index_set_strings(*s)[i as int]
                == name@,
            None => !index_set_strings(*s).contains(name@),
        },
{
    s.get_index_of(name)
}

/// Inserts `name` unless an equal string is present; a new string goes last
/// (`IndexSet::insert`).
#[verifier::external_body]
fn index_set_insert(s: &mut IndexSet<String, RandomState>, name: String) -> (r: bool)
    ensures
        r == !index_set_strings(*old(s)).contains(name@),
        index_set_strings(*final(s)) == if r {
            index_set_strings(*old(s)).push(name@)
        } else {
            index_set_strings(*old(s))
        },
{
    s.insert(name)
}

/// The string at index `i` (`IndexSet::get_index`).
#[verifier::external_body]
fn index_set_get_index(s: &IndexSet<String, RandomState>, i: usize) -> (r: Option<&String>)
    ensures
        match r {
            Some(v) => i < index_set_strings(*s).len() && v@ == index_set_strings(*s)[i as int],
            None => i >= index_set_strings(*s).len(),
        },
{
    s.get_index(i)
}

/// The symbol table.
pub struct Interner {
    rev: IndexSet<String, RandomState>,
}

impl Interner {
    /// The interned strings; symbol `i` stands for the `i`-th.
    pub closed spec fn strings(&self) -> Seq<Seq<char>> {
        index_set_strings(self.rev)
    }

    /// No string is held twice, and every index fits a symbol.
    pub open spec fn wf(&self) -> bool {
        &&& self.strings().no_duplicates()
        &&& self.strings().len() <= u32::MAX
    }

    pub fn new() -> (r: Self)
        ensures
            r.wf(),
            r.strings() == Seq::<Seq<char>>::empty(),
    {
        Interner { rev: index_set_new() }
    }

    pub fn len(&self) -> (r: usize)
        ensures
            r == self.strings().len(),
    {
        index_set_len(&self.rev)
    }

    /// The symbol of `name`, if it was interned.
    pub fn lookup(&self, name: &str) -> (r: Option<Symbol>)
        requires
            self.wf(),
        ensures
            match r {
                Some(sym) => sym.0 < self.strings().len() && self.strings()[sym.0 as int]
                    == name@,
                None => !self.strings().contains(name@),
            },
    {
        match index_set_get_index_of(&self.rev, name) {
            Some(i) => Some(Symbol(i as u32)),
            None => None,
        }
    }

    /// The symbol of `name`, interning it first if needed.
    pub fn intern(&mut self, name: &str) -> (r: Symbol)
        requires
            old(self).wf(),
            old(self).strings().contains(name@) || old(self).strings().len() < u32::MAX,
        ensures
            final(self).wf(),
            final(self).strings() == if old(self).strings().contains(name@) {
                old(self).strings()
            } else {
                old(self).strings().push(name@)
            },
            r.0 < final(self).strings().len(),
            final(self).strings()[r.0 as int] == name@,
    {
        match index_set_get_index_of(&self.rev, name) {
            Some(i) => Symbol(i as u32),
            None => {
                let new_sym = index_set_len(&self.rev);
                let owned = name.to_string();
                proof {
                    vstd::string::to_string_from_display_ensures_for_str(name, owned);
                }
                let inserted = index_set_insert(&mut self.rev, owned);
                proof {
                    let old_s = old(self).strings();
                    let new_s = self.strings();
                    assert(new_s == old_s.push(name@));
                    assert forall|a: int, b: int|
                        0 <= a < new_s.len() && 0 <= b < new_s.len() && a != b implies new_s[a]
                        != new_s[b] by {
                        if a < old_s.len() && b < old_s.len() {
                        } else if a == old_s.len() {
                            assert(old_s[b] == new_s[b]);
                        } else {
                            assert(old_s[a] == new_s[a]);
                        }
                    }
                }
                Symbol(new_sym as u32)
            },
        }
    }

    /// The string of `sym`, if it was interned.
    pub fn resolve(&self, sym: Symbol) -> (r: Option<&str>)
        ensures
            match r {
                Some(v) => sym.0 < self.strings().len() && v@ == self.strings()[sym.0 as int],
                None => sym.0 >= self.strings().len(),
            },
    {
        match index_set_get_index(&self.rev, sym.0 as usize) {
            Some(s) => Some(s.as_str()),
            None => None,
        }
    }

    /// An owned copy of the string of `sym`, if it was interned.
    pub fn resolve_owned(&self, sym: Symbol) -> (r: Option<String>)
        ensures
            match r {
                Some(v) => sym.0 < self.strings().len() && v@ == self.strings()[sym.0 as int],
                None => sym.0 >= self.strings().len(),
            },
    {
        match index_set_get_index(&self.rev, sym.0 as usize) {
            Some(s) => Some(s.clone()),
            None => None,
        }
    }
}

} // verus!
