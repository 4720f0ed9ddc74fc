//! The variable uses of a process: the identifiers that stand outside every
//! pattern as a process variable `x` or as a name variable in a channel
//! position, and that resolution must either bind or report as unbound.
//!
//! What a construct that resolution rejects as a whole (a connective or a
//! collection remainder outside a pattern) contains is not a use.
//!
//! The variables of a pattern are the identifiers that resolution either
//! introduces as free variables or looks up (a reference `=x`).
use crate::ast::{
    AnnProc, BinaryExpOp, Bind, Case, Collection, Id, KeyValue, LetBinding, Name, NameDecl, Names,
    Proc, Source, SyncSendCont, UnaryExpOp, Var,
};
use crate::bits::MAX_BITS;
use crate::db::{lookup_binding, DbView};
use crate::resolver::resolution_step;
use crate::types::{DiagnosticKind, ErrorKind, Symbol, SymbolOccurrence};
use vstd::prelude::*;

verus! {

/// The uses of `p`, left to right.
pub open spec fn uses(p: AnnProc) -> Seq<Id>
    decreases p, 0nat,
{
    match p.proc {
        Proc::ProcVar(Var::Id(id)) => seq![id],
        Proc::Collection(c) => match c {
            Collection::List { elements, remainder } => if remainder is None {
                uses_seq(elements@)
            } else {
                Seq::empty()
            },
            Collection::SetOf { elements, remainder } => if remainder is None {
                uses_seq(elements@)
            } else {
                Seq::empty()
            },
            Collection::MapOf { elements, remainder } => if remainder is None {
                uses_pairs(elements@)
            } else {
                Seq::empty()
            },
            Collection::Tuple(elements) => uses_seq(elements@),
        },
        Proc::Par { left, right } => uses(*left) + uses(*right),
        Proc::BinaryExp { op, left, right } => if op == BinaryExpOp::Matches {
            uses(*left)
        } else if op.spec_is_connective() {
            Seq::empty()
        } else {
            uses(*left) + uses(*right)
        },
        Proc::UnaryExp { op, arg } => if op == UnaryExpOp::Negation {
            Seq::empty()
        } else {
            uses(*arg)
        },
        Proc::IfThenElse { condition, if_true, if_false } => uses(*condition) + uses(*if_true)
            + match if_false {
            Some(f) => uses(*f),
            None => Seq::empty(),
        },
        Proc::Send { channel, inputs, .. } => uses_name(channel) + uses_seq(inputs@),
        Proc::SendSync { channel, inputs, cont } => uses_name(channel) + uses_seq(inputs@)
            + match cont {
            SyncSendCont::Empty => Seq::empty(),
            SyncSendCont::NonEmpty(k) => uses(*k),
        },
        Proc::ForComprehension { receipts, proc } => uses_receipts(receipts@) + uses(*proc),
        Proc::Match { expression, cases } => uses(*expression) + uses_cases(cases@),
        Proc::Bundle { proc, .. } => uses(*proc),
        Proc::Let { bindings, body, .. } => uses_lets(bindings@) + uses(*body),
        Proc::New { proc, .. } => uses(*proc),
        Proc::Contract { name, body, .. } => uses_name(name) + uses(*body),
        Proc::Eval { name } => uses_name(name),
        Proc::Method { receiver, args, .. } => uses(*receiver) + uses_seq(args@),
        _ => Seq::empty(),
    }
}

pub open spec fn uses_seq(ps: Seq<AnnProc>) -> Seq<Id>
    decreases ps, 0nat,
{
    if ps.len() == 0 {
        Seq::empty()
    } else {
        uses_seq(ps.drop_last()) + uses(ps.last())
    }
}

pub open spec fn uses_pairs(ps: Seq<KeyValue>) -> Seq<Id>
    decreases ps, 0nat,
{
    if ps.len() == 0 {
        Seq::empty()
    } else {
        uses_pairs(ps.drop_last()) + uses(ps.last().key) + uses(ps.last().value)
    }
}

/// The uses of a name in a channel position.
pub open spec fn uses_name(n: Name) -> Seq<Id>
    decreases n, 0nat,
{
    match n {
        Name::NameVar(Var::Id(id)) => seq![id],
        Name::NameVar(Var::Wildcard) => Seq::empty(),
        Name::Quote(p) => uses(*p),
    }
}

/// The uses of the case bodies; the case patterns have none.
pub open spec fn uses_cases(cs: Seq<Case>) -> Seq<Id>
    decreases cs, 0nat,
{
    if cs.len() == 0 {
        Seq::empty()
    } else {
        uses_cases(cs.drop_last()) + uses(cs.last().proc)
    }
}

/// The uses of the right-hand sides of `let` declarations.
pub open spec fn uses_lets(ls: Seq<LetBinding>) -> Seq<Id>
    decreases ls, 0nat,
{
    if ls.len() == 0 {
        Seq::empty()
    } else {
        uses_lets(ls.drop_last()) + uses_seq(ls.last().rhs@)
    }
}

/// The uses of the inputs of a source.
pub open spec fn uses_source_inputs(s: Source) -> Seq<Id>
    decreases s, 0nat,
{
    match s {
        Source::SendReceive { inputs, .. } => uses_seq(inputs@),
        _ => Seq::empty(),
    }
}

/// The uses of the channel of a source.
pub open spec fn uses_source_name(s: Source) -> Seq<Id>
    decreases s, 0nat,
{
    match s {
        Source::Simple { name } => uses_name(name),
        Source::ReceiveSend { name } => uses_name(name),
        Source::SendReceive { name, .. } => uses_name(name),
    }
}

/// The uses of the inputs of a bind.
pub open spec fn uses_bind_inputs(b: Bind) -> Seq<Id>
    decreases b, 0nat,
{
    match b {
        Bind::Linear { rhs, .. } => uses_source_inputs(rhs),
        _ => Seq::empty(),
    }
}

/// The uses of the channel of a bind.
pub open spec fn uses_bind_name(b: Bind) -> Seq<Id>
    decreases b, 0nat,
{
    match b {
        Bind::Linear { rhs, .. } => uses_source_name(rhs),
        Bind::Repeated { rhs, .. } => uses_name(rhs),
        Bind::Peek { rhs, .. } => uses_name(rhs),
    }
}

pub open spec fn uses_binds_inputs(bs: Seq<Bind>) -> Seq<Id>
    decreases bs, 0nat,
{
    if bs.len() == 0 {
        Seq::empty()
    } else {
        uses_binds_inputs(bs.drop_last()) + uses_bind_inputs(bs.last())
    }
}

pub open spec fn uses_binds_names(bs: Seq<Bind>) -> Seq<Id>
    decreases bs, 0nat,
{
    if bs.len() == 0 {
        Seq::empty()
    } else {
        uses_binds_names(bs.drop_last()) + uses_bind_name(bs.last())
    }
}

/// The uses of the receipts of a `for`: of each group, the inputs and the
/// channels; the patterns have none.
pub open spec fn uses_receipts(rs: Seq<Vec<Bind>>) -> Seq<Id>
    decreases rs, 0nat,
{
    if rs.len() == 0 {
        Seq::empty()
    } else {
        uses_receipts(rs.drop_last()) + uses_binds_inputs(rs.last()@) + uses_binds_names(
            rs.last()@,
        )
    }
}

/// The occurrence of `id` is recorded in the database under the symbol of
/// its name.
pub open spec fn recorded(v: DbView, id: Id) -> bool {
    exists|s: Symbol|
        s.0 < v.strings.len() && v.strings[s.0 as int] == id.name@ && (#[trigger] lookup_binding(
            v.bound,
            SymbolOccurrence { symbol: s, position: id.pos },
        )) is Some
}

/// An unbound variable is reported at the position of `id`.
pub open spec fn reported_unbound(v: DbView, id: Id) -> bool {
    exists|i: int|
        0 <= i < v.diags.len() && (#[trigger] v.diags[i]).kind == DiagnosticKind::Error(
            ErrorKind::UnboundVariable,
        ) && v.diags[i].exact_position == Some(id.pos)
}

/// The database accounts for the use `id`: the occurrence of its name at its
/// position is recorded, or an unbound variable is reported at its position.
pub open spec fn use_settled(v: DbView, id: Id) -> bool {
    recorded(v, id) || reported_unbound(v, id)
}

/// The database accounts for every use of `ids`.
pub open spec fn all_settled(v: DbView, ids: Seq<Id>) -> bool {
    forall|i: int| 0 <= i < ids.len() ==> use_settled(v, #[trigger] ids[i])
}

/// A resolution step keeps every use accounted for.
pub proof fn lemma_use_settled_grow(o: DbView, n: DbView, id: Id, lo: int, hi: int)
    requires
        use_settled(o, id),
        resolution_step(o, n, lo, hi),
    ensures
        use_settled(n, id),
{
    if recorded(o, id) {
        let s = choose|s: Symbol|
            s.0 < o.strings.len() && o.strings[s.0 as int] == id.name@ && (#[trigger] lookup_binding(
                o.bound,
                SymbolOccurrence { symbol: s, position: id.pos },
            )) is Some;
        assert(n.strings[s.0 as int] == o.strings[s.0 as int]);
        assert(lookup_binding(n.bound, SymbolOccurrence { symbol: s, position: id.pos }) is Some);
    } else {
        let i = choose|i: int|
            0 <= i < o.diags.len() && (#[trigger] o.diags[i]).kind == DiagnosticKind::Error(
                ErrorKind::UnboundVariable,
            ) && o.diags[i].exact_position == Some(id.pos);
        assert(n.diags[i] == o.diags[i]);
    }
}

/// A resolution step keeps all uses accounted for.
pub broadcast proof fn lemma_settled_grow(o: DbView, n: DbView, ids: Seq<Id>, lo: int, hi: int)
    requires
        #[trigger] all_settled(o, ids),
        #[trigger] resolution_step(o, n, lo, hi),
    ensures
        all_settled(n, ids),
{
    assert forall|i: int| 0 <= i < ids.len() implies use_settled(n, #[trigger] ids[i]) by {
        lemma_use_settled_grow(o, n, ids[i], lo, hi);
    }
}

/// The uses of a concatenation are accounted for when those of both parts are.
pub broadcast proof fn lemma_settled_concat(v: DbView, a: Seq<Id>, b: Seq<Id>)
    ensures
        #[trigger] all_settled(v, a + b) == (all_settled(v, a) && all_settled(v, b)),
{
    if all_settled(v, a + b) {
        assert forall|i: int| 0 <= i < a.len() implies use_settled(v, #[trigger] a[i]) by {
            assert((a + b)[i] == a[i]);
        }
        assert forall|i: int| 0 <= i < b.len() implies use_settled(v, #[trigger] b[i]) by {
            assert((a + b)[a.len() + i] == b[i]);
        }
    }
    if all_settled(v, a) && all_settled(v, b) {
        assert forall|i: int| 0 <= i < (a + b).len() implies use_settled(v, #[trigger] (a + b)[i]) by {
            if i < a.len() {
                assert((a + b)[i] == a[i]);
            } else {
                assert((a + b)[i] == b[i - a.len()]);
            }
        }
    }
}

/// There is nothing to account for in no uses.
pub broadcast proof fn lemma_settled_empty(v: DbView)
    ensures
        #[trigger] all_settled(v, Seq::<Id>::empty()),
{
}

/// The database has no room for another binder or another string.
pub open spec fn tables_full(v: DbView) -> bool {
    v.binders.len() >= MAX_BITS || v.strings.len() >= u32::MAX
}

/// The database accounts for the pattern variable `id`, or could not make
/// room for it.
pub open spec fn pattern_var_settled(v: DbView, id: Id) -> bool {
    use_settled(v, id) || tables_full(v)
}

/// The database accounts for every pattern variable of `ids`.
pub open spec fn all_pattern_vars_settled(v: DbView, ids: Seq<Id>) -> bool {
    forall|i: int| 0 <= i < ids.len() ==> pattern_var_settled(v, #[trigger] ids[i])
}

/// A resolution step keeps every pattern variable accounted for.
pub broadcast proof fn lemma_pattern_settled_grow(o: DbView, n: DbView, ids: Seq<Id>, lo: int, hi: int)
    requires
        #[trigger] all_pattern_vars_settled(o, ids),
        #[trigger] resolution_step(o, n, lo, hi),
    ensures
        all_pattern_vars_settled(n, ids),
{
    assert forall|i: int| 0 <= i < ids.len() implies pattern_var_settled(n, #[trigger] ids[i]) by {
        if use_settled(o, ids[i]) {
            lemma_use_settled_grow(o, n, ids[i], lo, hi);
        }
    }
}

/// The pattern variables of a concatenation are accounted for when those of
/// both parts are.
pub broadcast proof fn lemma_pattern_settled_concat(v: DbView, a: Seq<Id>, b: Seq<Id>)
    ensures
        #[trigger] all_pattern_vars_settled(v, a + b) == (all_pattern_vars_settled(v, a)
            && all_pattern_vars_settled(v, b)),
{
    if all_pattern_vars_settled(v, a + b) {
        assert forall|i: int| 0 <= i < a.len() implies pattern_var_settled(v, #[trigger] a[i]) by {
            assert((a + b)[i] == a[i]);
        }
        assert forall|i: int| 0 <= i < b.len() implies pattern_var_settled(v, #[trigger] b[i]) by {
            assert((a + b)[a.len() + i] == b[i]);
        }
    }
    if all_pattern_vars_settled(v, a) && all_pattern_vars_settled(v, b) {
        assert forall|i: int| 0 <= i < (a + b).len() implies pattern_var_settled(
            v,
            #[trigger] (a + b)[i],
        ) by {
            if i < a.len() {
                assert((a + b)[i] == a[i]);
            } else {
                assert((a + b)[i] == b[i - a.len()]);
            }
        }
    }
}

pub broadcast proof fn lemma_pattern_settled_empty(v: DbView)
    ensures
        #[trigger] all_pattern_vars_settled(v, Seq::<Id>::empty()),
{
}

/// The identifier of a remainder `...x`, if it names one.
pub open spec fn remainder_var(r: Option<Var>) -> Seq<Id> {
    match r {
        Some(Var::Id(id)) => seq![id],
        _ => Seq::empty(),
    }
}

/// The variables of the pattern `p`, left to right.
pub open spec fn pattern_vars(p: AnnProc) -> Seq<Id>
    decreases p, 0nat,
{
    match p.proc {
        Proc::ProcVar(Var::Id(id)) => seq![id],
        Proc::VarRef { var, .. } => seq![var],
        Proc::BinaryExp { left, right, .. } => pattern_vars(*left) + pattern_vars(*right),
        Proc::UnaryExp { arg, .. } => pattern_vars(*arg),
        Proc::Par { left, right } => pattern_vars(*left) + pattern_vars(*right),
        Proc::IfThenElse { condition, if_true, if_false } => pattern_vars(*condition)
            + pattern_vars(*if_true) + match if_false {
            Some(f) => pattern_vars(*f),
            None => Seq::empty(),
        },
        Proc::Method { receiver, args, .. } => pattern_vars(*receiver) + pattern_vars_seq(args@),
        Proc::Match { expression, cases } => pattern_vars(*expression) + pattern_vars_cases(
            cases@,
        ),
        Proc::Collection(c) => match c {
            Collection::List { elements, remainder } => pattern_vars_seq(elements@)
                + remainder_var(remainder),
            Collection::SetOf { elements, remainder } => pattern_vars_seq(elements@)
                + remainder_var(remainder),
            Collection::MapOf { elements, remainder } => pattern_vars_pairs(elements@)
                + remainder_var(remainder),
            Collection::Tuple(elements) => pattern_vars_seq(elements@),
        },
        Proc::Eval { name } => pattern_vars_name(name),
        Proc::Send { channel, inputs, .. } => pattern_vars_name(channel) + pattern_vars_seq(
            inputs@,
        ),
        Proc::SendSync { channel, inputs, cont } => pattern_vars_name(channel) + pattern_vars_seq(
            inputs@,
        ) + match cont {
            SyncSendCont::Empty => Seq::empty(),
            SyncSendCont::NonEmpty(k) => pattern_vars(*k),
        },
        Proc::ForComprehension { receipts, proc } => pattern_vars_receipts(receipts@)
            + pattern_vars(*proc),
        Proc::Contract { name, formals, body } => pattern_vars_name(name) + pattern_vars_names(
            formals,
        ) + pattern_vars(*body),
        Proc::Let { bindings, body, .. } => pattern_vars_lets(bindings@) + pattern_vars(*body),
        Proc::New { decls, proc } => pattern_vars_decls(decls@) + pattern_vars(*proc),
        _ => Seq::empty(),
    }
}

pub open spec fn pattern_vars_seq(ps: Seq<AnnProc>) -> Seq<Id>
    decreases ps, 0nat,
{
    if ps.len() == 0 {
        Seq::empty()
    } else {
        pattern_vars_seq(ps.drop_last()) + pattern_vars(ps.last())
    }
}

pub open spec fn pattern_vars_pairs(ps: Seq<KeyValue>) -> Seq<Id>
    decreases ps, 0nat,
{
    if ps.len() == 0 {
        Seq::empty()
    } else {
        pattern_vars_pairs(ps.drop_last()) + pattern_vars(ps.last().key) + pattern_vars(
            ps.last().value,
        )
    }
}

pub open spec fn pattern_vars_name(n: Name) -> Seq<Id>
    decreases n, 0nat,
{
    match n {
        Name::NameVar(Var::Id(id)) => seq![id],
        Name::NameVar(Var::Wildcard) => Seq::empty(),
        Name::Quote(p) => pattern_vars(*p),
    }
}

pub open spec fn pattern_vars_name_seq(ns: Seq<Name>) -> Seq<Id>
    decreases ns, 0nat,
{
    if ns.len() == 0 {
        Seq::empty()
    } else {
        pattern_vars_name_seq(ns.drop_last()) + pattern_vars_name(ns.last())
    }
}

pub open spec fn pattern_vars_names(ns: Names) -> Seq<Id>
    decreases ns, 0nat,
{
    pattern_vars_name_seq(ns.names@) + remainder_var(ns.remainder)
}

pub open spec fn pattern_vars_cases(cs: Seq<Case>) -> Seq<Id>
    decreases cs, 0nat,
{
    if cs.len() == 0 {
        Seq::empty()
    } else {
        pattern_vars_cases(cs.drop_last()) + pattern_vars(cs.last().pattern) + pattern_vars(
            cs.last().proc,
        )
    }
}

pub open spec fn pattern_vars_source(s: Source) -> Seq<Id>
    decreases s, 0nat,
{
    match s {
        Source::Simple { name } => pattern_vars_name(name),
        Source::ReceiveSend { name } => pattern_vars_name(name),
        Source::SendReceive { name, inputs } => pattern_vars_name(name) + pattern_vars_seq(
            inputs@,
        ),
    }
}

pub open spec fn pattern_vars_bind(b: Bind) -> Seq<Id>
    decreases b, 0nat,
{
    match b {
        Bind::Linear { lhs, rhs, .. } => pattern_vars_source(rhs) + pattern_vars_names(lhs),
        Bind::Repeated { lhs, rhs, .. } => pattern_vars_name(rhs) + pattern_vars_names(lhs),
        Bind::Peek { lhs, rhs, .. } => pattern_vars_name(rhs) + pattern_vars_names(lhs),
    }
}

pub open spec fn pattern_vars_binds(bs: Seq<Bind>) -> Seq<Id>
    decreases bs, 0nat,
{
    if bs.len() == 0 {
        Seq::empty()
    } else {
        pattern_vars_binds(bs.drop_last()) + pattern_vars_bind(bs.last())
    }
}

pub open spec fn pattern_vars_receipts(rs: Seq<Vec<Bind>>) -> Seq<Id>
    decreases rs, 0nat,
{
    if rs.len() == 0 {
        Seq::empty()
    } else {
        pattern_vars_receipts(rs.drop_last()) + pattern_vars_binds(rs.last()@)
    }
}

pub open spec fn pattern_vars_lets(ls: Seq<LetBinding>) -> Seq<Id>
    decreases ls, 0nat,
{
    if ls.len() == 0 {
        Seq::empty()
    } else {
        pattern_vars_lets(ls.drop_last()) + pattern_vars_seq(ls.last().rhs@) + pattern_vars_names(
            ls.last().lhs,
        )
    }
}

/// The names declared by `new` declarations.
pub open spec fn pattern_vars_decls(ds: Seq<NameDecl>) -> Seq<Id>
    decreases ds.len(),
{
    if ds.len() == 0 {
        Seq::empty()
    } else {
        pattern_vars_decls(ds.drop_last()) + seq![ds.last().id]
    }
}

/// The variables of the patterns inside the process `p`: of the right side
/// of `matches`, of case patterns, of the left sides of `for` binds, `let`
/// declarations and contract formals.
pub open spec fn patterns_vars(p: AnnProc) -> Seq<Id>
    decreases p, 0nat,
{
    match p.proc {
        Proc::Collection(c) => match c {
            Collection::List { elements, remainder } => if remainder is None {
                patterns_vars_seq(elements@)
            } else {
                Seq::empty()
            },
            Collection::SetOf { elements, remainder } => if remainder is None {
                patterns_vars_seq(elements@)
            } else {
                Seq::empty()
            },
            Collection::MapOf { elements, remainder } => if remainder is None {
                patterns_vars_pairs(elements@)
            } else {
                Seq::empty()
            },
            Collection::Tuple(elements) => patterns_vars_seq(elements@),
        },
        Proc::Par { left, right } => patterns_vars(*left) + patterns_vars(*right),
        Proc::BinaryExp { op, left, right } => if op == BinaryExpOp::Matches {
            patterns_vars(*left) + pattern_vars(*right)
        } else if op.spec_is_connective() {
            Seq::empty()
        } else {
            patterns_vars(*left) + patterns_vars(*right)
        },
        Proc::UnaryExp { op, arg } => if op == UnaryExpOp::Negation {
            Seq::empty()
        } else {
            patterns_vars(*arg)
        },
        Proc::IfThenElse { condition, if_true, if_false } => patterns_vars(*condition)
            + patterns_vars(*if_true) + match if_false {
            Some(f) => patterns_vars(*f),
            None => Seq::empty(),
        },
        Proc::Send { channel, inputs, .. } => patterns_vars_name(channel) + patterns_vars_seq(
            inputs@,
        ),
        Proc::SendSync { channel, inputs, cont } => patterns_vars_name(channel)
            + patterns_vars_seq(inputs@) + match cont {
            SyncSendCont::Empty => Seq::empty(),
            SyncSendCont::NonEmpty(k) => patterns_vars(*k),
        },
        Proc::ForComprehension { receipts, proc } => patterns_vars_receipts(receipts@)
            + patterns_vars(*proc),
        Proc::Match { expression, cases } => patterns_vars(*expression) + patterns_vars_cases(
            cases@,
        ),
        Proc::Bundle { proc, .. } => patterns_vars(*proc),
        Proc::Let { bindings, body, .. } => patterns_vars_lets_rhs(bindings@)
            + patterns_vars_lets_lhs(bindings@) + patterns_vars(*body),
        Proc::New { proc, .. } => patterns_vars(*proc),
        Proc::Contract { name, formals, body } => patterns_vars_name(name) + pattern_vars_names(
            formals,
        ) + patterns_vars(*body),
        Proc::Eval { name } => patterns_vars_name(name),
        Proc::Method { receiver, args, .. } => patterns_vars(*receiver) + patterns_vars_seq(args@),
        _ => Seq::empty(),
    }
}

pub open spec fn patterns_vars_seq(ps: Seq<AnnProc>) -> Seq<Id>
    decreases ps, 0nat,
{
    if ps.len() == 0 {
        Seq::empty()
    } else {
        patterns_vars_seq(ps.drop_last()) + patterns_vars(ps.last())
    }
}

pub open spec fn patterns_vars_pairs(ps: Seq<KeyValue>) -> Seq<Id>
    decreases ps, 0nat,
{
    if ps.len() == 0 {
        Seq::empty()
    } else {
        patterns_vars_pairs(ps.drop_last()) + patterns_vars(ps.last().key) + patterns_vars(
            ps.last().value,
        )
    }
}

pub open spec fn patterns_vars_name(n: Name) -> Seq<Id>
    decreases n, 0nat,
{
    match n {
        Name::Quote(p) => patterns_vars(*p),
        Name::NameVar(_) => Seq::empty(),
    }
}

pub open spec fn patterns_vars_cases(cs: Seq<Case>) -> Seq<Id>
    decreases cs, 0nat,
{
    if cs.len() == 0 {
        Seq::empty()
    } else {
        patterns_vars_cases(cs.drop_last()) + pattern_vars(cs.last().pattern) + patterns_vars(
            cs.last().proc,
        )
    }
}

pub open spec fn patterns_vars_lets_rhs(ls: Seq<LetBinding>) -> Seq<Id>
    decreases ls, 0nat,
{
    if ls.len() == 0 {
        Seq::empty()
    } else {
        patterns_vars_lets_rhs(ls.drop_last()) + patterns_vars_seq(ls.last().rhs@)
    }
}

pub open spec fn patterns_vars_lets_lhs(ls: Seq<LetBinding>) -> Seq<Id>
    decreases ls.len(),
{
    if ls.len() == 0 {
        Seq::empty()
    } else {
        patterns_vars_lets_lhs(ls.drop_last()) + pattern_vars_names(ls.last().lhs)
    }
}

pub open spec fn patterns_vars_source_inputs(s: Source) -> Seq<Id>
    decreases s, 0nat,
{
    match s {
        Source::SendReceive { inputs, .. } => patterns_vars_seq(inputs@),
        _ => Seq::empty(),
    }
}

pub open spec fn patterns_vars_source_name(s: Source) -> Seq<Id>
    decreases s, 0nat,
{
    match s {
        Source::Simple { name } => patterns_vars_name(name),
        Source::ReceiveSend { name } => patterns_vars_name(name),
        Source::SendReceive { name, .. } => patterns_vars_name(name),
    }
}

pub open spec fn patterns_vars_bind_inputs(b: Bind) -> Seq<Id>
    decreases b, 0nat,
{
    match b {
        Bind::Linear { rhs, .. } => patterns_vars_source_inputs(rhs),
        _ => Seq::empty(),
    }
}

pub open spec fn patterns_vars_bind_name(b: Bind) -> Seq<Id>
    decreases b, 0nat,
{
    match b {
        Bind::Linear { rhs, .. } => patterns_vars_source_name(rhs),
        Bind::Repeated { rhs, .. } => patterns_vars_name(rhs),
        Bind::Peek { rhs, .. } => patterns_vars_name(rhs),
    }
}

pub open spec fn patterns_vars_binds_inputs(bs: Seq<Bind>) -> Seq<Id>
    decreases bs, 0nat,
{
    if bs.len() == 0 {
        Seq::empty()
    } else {
        patterns_vars_binds_inputs(bs.drop_last()) + patterns_vars_bind_inputs(bs.last())
    }
}

pub open spec fn patterns_vars_binds_names(bs: Seq<Bind>) -> Seq<Id>
    decreases bs, 0nat,
{
    if bs.len() == 0 {
        Seq::empty()
    } else {
        patterns_vars_binds_names(bs.drop_last()) + patterns_vars_bind_name(bs.last())
    }
}

/// The variables of the left sides of the binds `bs`.
pub open spec fn patterns_vars_binds_lhs(bs: Seq<Bind>) -> Seq<Id>
    decreases bs.len(),
{
    if bs.len() == 0 {
        Seq::empty()
    } else {
        patterns_vars_binds_lhs(bs.drop_last()) + pattern_vars_names(*bs.last().spec_names())
    }
}

pub open spec fn patterns_vars_receipts(rs: Seq<Vec<Bind>>) -> Seq<Id>
    decreases rs, 0nat,
{
    if rs.len() == 0 {
        Seq::empty()
    } else {
        patterns_vars_receipts(rs.drop_last()) + patterns_vars_binds_inputs(rs.last()@)
            + patterns_vars_binds_names(rs.last()@) + patterns_vars_binds_lhs(rs.last()@)
    }
}

} // verus!
