//! Helpers for collecting the variables of `for`-comprehension patterns while
//! rejecting duplicates.
use crate::ast::SourcePos;
use crate::elab_errors::ElaborationError;
use crate::patterns::PatternVariable;
use crate::types::{BinderKind, Symbol, SymbolOccurrence, PID};
use vstd::prelude::*;

verus! {

/// The first variable of `vars` with symbol `symbol`.
pub open spec fn first_var_with(vars: Seq<PatternVariable>, symbol: Symbol) -> PatternVariable
    decreases vars.len(),
{
    if vars.len() == 0 {
        arbitrary()
    } else if vars[0].symbol == symbol {
        vars[0]
    } else {
        first_var_with(vars.drop_first(), symbol)
    }
}

/// Every symbol of `seen` is the symbol of some variable of `vars`.
pub open spec fn seen_covered(seen: Seq<Symbol>, vars: Seq<PatternVariable>) -> bool {
    forall|s: Symbol| seen.contains(s) ==> exists|i: int| 0 <= i < vars.len() && (#[trigger] vars[i]).symbol == s
}

/// The error `check_duplicate_symbol` gives for `symbol` at `position`, if any.
pub open spec fn duplicate_error(
    symbol: Symbol,
    position: SourcePos,
    seen: Seq<Symbol>,
    vars: Seq<PatternVariable>,
    pid: PID,
) -> Option<ElaborationError> {
    if seen.contains(symbol) {
        let original = first_var_with(vars, symbol);
        Some(
            ElaborationError::DuplicateVarDef {
                pid,
                original: SymbolOccurrence { symbol: original.symbol, position: original.position },
                duplicate: SymbolOccurrence { symbol, position },
            },
        )
    } else {
        None
    }
}

/// An error when `symbol` was seen before: a duplicate of the first variable
/// of `all_variables` with that symbol.
pub fn check_duplicate_symbol(
    symbol: Symbol,
    position: SourcePos,
    seen_symbols: &Vec<Symbol>,
    all_variables: &[PatternVariable],
    for_comp_pid: PID,
) -> (r: Result<(), ElaborationError>)
    requires
        seen_covered(seen_symbols@, all_variables@),
    ensures
        match duplicate_error(symbol, position, seen_symbols@, all_variables@, for_comp_pid) {
            Some(e) => r == Err::<(), ElaborationError>(e),
            None => r is Ok,
        },
{
    if !contains_symbol(seen_symbols, symbol) {
        return Ok(());
    }
    let mut k: usize = 0;
    proof {
        assert(all_variables@.skip(0) =~= all_variables@);
    }
    while k < all_variables.len()
        invariant
            k <= all_variables@.len(),
            seen_symbols@.contains(symbol),
            first_var_with(all_variables@, symbol) == first_var_with(all_variables@.skip(k as int), symbol),
            exists|j: int| k <= j < all_variables@.len() && (#[trigger] all_variables@[j]).symbol == symbol,
        decreases all_variables@.len() - k,
    {
        let v = all_variables[k];
        proof {
            assert(all_variables@.skip(k as int)[0] == v);
            assert(all_variables@.skip(k as int).drop_first() =~= all_variables@.skip(k + 1));
        }
        if v.symbol.0 == symbol.0 {
            proof {
                assert(v.symbol == symbol);
                assert(first_var_with(all_variables@.skip(k as int), symbol) == v);
            }
            return Err(
                ElaborationError::DuplicateVarDef {
                    pid: for_comp_pid,
                    original: SymbolOccurrence { symbol: v.symbol, position: v.position },
                    duplicate: SymbolOccurrence { symbol, position },
                },
            );
        }
        k = k + 1;
    }
    Ok(())
}

/// `symbol` is among `v`.
fn contains_symbol(v: &Vec<Symbol>, symbol: Symbol) -> (r: bool)
    ensures
        r == v@.contains(symbol),
{
    let mut i: usize = 0;
    while i < v.len()
        invariant
            i <= v@.len(),
            forall|k: int| 0 <= k < i ==> v@[k] != symbol,
        decreases v@.len() - i,
    {
        if v[i].0 == symbol.0 {
            proof {
                assert(v@[i as int] == symbol);
            }
            return true;
        }
        i = i + 1;
    }
    false
}

/// Adds `symbol` to `seen` unless it is there.
fn insert_symbol(seen: &mut Vec<Symbol>, symbol: Symbol)
    ensures
        final(seen)@.to_set() == old(seen)@.to_set().insert(symbol),
        forall|s: Symbol| #[trigger] final(seen)@.contains(s) <==> (old(seen)@.contains(s) || s == symbol),
{
    let mut i: usize = 0;
    while i < seen.len()
        invariant
            i <= seen@.len(),
            seen@ == old(seen)@,
            forall|k: int| 0 <= k < i ==> seen@[k] != symbol,
        decreases seen@.len() - i,
    {
        if seen[i].0 == symbol.0 {
            proof {
                assert(seen@.contains(symbol));
                assert(seen@.to_set().insert(symbol) =~= seen@.to_set());
            }
            return;
        }
        i = i + 1;
    }
    seen.push(symbol);
    proof {
        old(seen)@.lemma_push_to_set_commute(symbol);
        assert forall|s: Symbol| #[trigger] seen@.contains(s) <==> (old(seen)@.contains(s) || s == symbol) by {
            if seen@.contains(s) {
                let k = choose|k: int| 0 <= k < seen@.len() && seen@[k] == s;
                if k < old(seen)@.len() {
                    assert(old(seen)@[k] == s);
                }
            }
            if old(seen)@.contains(s) {
                let k = choose|k: int| 0 <= k < old(seen)@.len() && old(seen)@[k] == s;
                assert(seen@[k] == s);
            }
            if s == symbol {
                assert(seen@[seen@.len() - 1] == s);
            }
        }
    }
}

/// Records the variable `symbol` at `position`, unless it is a duplicate.
pub fn add_pattern_variable(
    symbol: Symbol,
    position: SourcePos,
    kind: BinderKind,
    seen_symbols: &mut Vec<Symbol>,
    all_variables: &mut Vec<PatternVariable>,
    for_comp_pid: PID,
) -> (r: Result<(), ElaborationError>)
    requires
        seen_covered(old(seen_symbols)@, old(all_variables)@),
    ensures
        seen_covered(final(seen_symbols)@, final(all_variables)@),
        match duplicate_error(symbol, position, old(seen_symbols)@, old(all_variables)@, for_comp_pid) {
            Some(e) => r == Err::<(), ElaborationError>(e) && final(seen_symbols)@ == old(seen_symbols)@
                && final(all_variables)@ == old(all_variables)@,
            None => r is Ok && final(seen_symbols)@.to_set() == old(seen_symbols)@.to_set().insert(symbol)
                && final(all_variables)@ == old(all_variables)@.push(
                PatternVariable { symbol, position, kind, is_remainder: false },
            ),
        },
{
    add_variable(symbol, position, kind, false, seen_symbols, all_variables, for_comp_pid)
}

/// Records the remainder variable `symbol` at `position`, unless it is a duplicate.
pub fn add_remainder_variable(
    symbol: Symbol,
    position: SourcePos,
    kind: BinderKind,
    seen_symbols: &mut Vec<Symbol>,
    all_variables: &mut Vec<PatternVariable>,
    for_comp_pid: PID,
) -> (r: Result<(), ElaborationError>)
    requires
        seen_covered(old(seen_symbols)@, old(all_variables)@),
    ensures
        seen_covered(final(seen_symbols)@, final(all_variables)@),
        match duplicate_error(symbol, position, old(seen_symbols)@, old(all_variables)@, for_comp_pid) {
            Some(e) => r == Err::<(), ElaborationError>(e) && final(seen_symbols)@ == old(seen_symbols)@
                && final(all_variables)@ == old(all_variables)@,
            None => r is Ok && final(seen_symbols)@.to_set() == old(seen_symbols)@.to_set().insert(symbol)
                && final(all_variables)@ == old(all_variables)@.push(
                PatternVariable { symbol, position, kind, is_remainder: true },
            ),
        },
{
    add_variable(symbol, position, kind, true, seen_symbols, all_variables, for_comp_pid)
}

fn add_variable(
    symbol: Symbol,
    position: SourcePos,
    kind: BinderKind,
    is_remainder: bool,
    seen_symbols: &mut Vec<Symbol>,
    all_variables: &mut Vec<PatternVariable>,
    for_comp_pid: PID,
) -> (r: Result<(), ElaborationError>)
    requires
        seen_covered(old(seen_symbols)@, old(all_variables)@),
    ensures
        seen_covered(final(seen_symbols)@, final(all_variables)@),
        match duplicate_error(symbol, position, old(seen_symbols)@, old(all_variables)@, for_comp_pid) {
            Some(e) => r == Err::<(), ElaborationError>(e) && final(seen_symbols)@ == old(seen_symbols)@
                && final(all_variables)@ == old(all_variables)@,
            None => r is Ok && final(seen_symbols)@.to_set() == old(seen_symbols)@.to_set().insert(symbol)
                && final(all_variables)@ == old(all_variables)@.push(
                PatternVariable { symbol, position, kind, is_remainder },
            ),
        },
{
    match check_duplicate_symbol(symbol, position, seen_symbols, all_variables.as_slice(), for_comp_pid) {
        Ok(()) => {},
        Err(e) => {
            return Err(e);
        },
    }
    insert_symbol(seen_symbols, symbol);
    all_variables.push(PatternVariable::new(symbol, position, kind).with_remainder(is_remainder));
    proof {
        let vars = all_variables@;
        assert forall|s: Symbol| seen_symbols@.contains(s) implies exists|i: int|
            0 <= i < vars.len() && (#[trigger] vars[i]).symbol == s by {
            if s == symbol {
                assert(vars[vars.len() - 1].symbol == s);
            } else {
                assert(old(seen_symbols)@.contains(s));
                let i = choose|i: int| 0 <= i < old(all_variables)@.len() && (#[trigger] old(all_variables)@[i]).symbol == s;
                assert(vars[i] == old(all_variables)@[i]);
            }
        }
    }
    Ok(())
}

} // verus!
