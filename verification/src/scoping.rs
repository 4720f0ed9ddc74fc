//! Lexical scoping of variable uses: the names in scope at each use of a
//! process, and what resolution records for a use against them.
use crate::ast::{AnnProc, BinaryExpOp, Collection, Id, KeyValue, Name, NameDecl, Proc, SyncSendCont, UnaryExpOp, Var};
use crate::db::{lookup_binding, DbView};
use crate::resolution::symbol_index;
use crate::types::{BinderId, Symbol, SymbolOccurrence, VarBinding};
use crate::bits::MAX_BITS;
use crate::resolution::lemma_symbol_index_stable;
use crate::db::db_wf;
use crate::resolver::{env_lookup, interned_if_room, pushed_env, resolution_step, scope_locals, use_outcome};
use crate::types::Binder;
use crate::scope::ScopeInfo;
use crate::types::{Diagnostic, DiagnosticKind, ErrorKind, PID};
use crate::var_uses::reported_unbound;
use vstd::prelude::*;

verus! {

/// The names in scope, each with its binder, innermost last.
pub type NameEnv = Seq<(Seq<char>, BinderId)>;

/// The innermost binder of `name` in `env`.
pub open spec fn name_lookup(env: NameEnv, name: Seq<char>) -> Option<BinderId>
    decreases env.len(),
{
    if env.len() == 0 {
        None
    } else if env.last().0 == name {
        Some(env.last().1)
    } else {
        name_lookup(env.drop_last(), name)
    }
}

/// The environment `locals` of symbols read against the string table `strings`.
pub open spec fn name_env(strings: Seq<Seq<char>>, locals: Seq<(Symbol, BinderId)>) -> NameEnv {
    locals.map_values(|e: (Symbol, BinderId)| (strings[e.0.0 as int], e.1))
}

/// Every symbol of `locals` is below `n`.
pub open spec fn env_interned(locals: Seq<(Symbol, BinderId)>, n: nat) -> bool {
    forall|i: int| 0 <= i < locals.len() ==> (#[trigger] locals[i]).0.0 < n
}

/// A process whose only binding construct is `new`: no `for`, `match`,
/// `let`, contract or `matches` pattern, at any depth that resolution reaches.
pub open spec fn plain(p: AnnProc) -> bool
    decreases p, 0nat,
{
    match p.proc {
        Proc::ForComprehension { .. } | Proc::Match { .. } | Proc::Let { .. } | Proc::Contract { .. } => false,
        Proc::BinaryExp { op, left, right } => if op == BinaryExpOp::Matches {
            false
        } else if op.spec_is_connective() {
            true
        } else {
            plain(*left) && plain(*right)
        },
        Proc::UnaryExp { op, arg } => op == UnaryExpOp::Negation || plain(*arg),
        Proc::Par { left, right } => plain(*left) && plain(*right),
        Proc::IfThenElse { condition, if_true, if_false } => plain(*condition) && plain(*if_true) && match if_false {
            Some(f) => plain(*f),
            None => true,
        },
        Proc::Send { channel, inputs, .. } => plain_name(channel) && plain_seq(inputs@),
        Proc::SendSync { channel, inputs, cont } => plain_name(channel) && plain_seq(inputs@) && match cont {
            SyncSendCont::Empty => true,
            SyncSendCont::NonEmpty(k) => plain(*k),
        },
        Proc::Eval { name } => plain_name(name),
        Proc::Method { receiver, args, .. } => plain(*receiver) && plain_seq(args@),
        Proc::Collection(c) => match c {
            Collection::List { elements, remainder } => remainder is Some || plain_seq(elements@),
            Collection::SetOf { elements, remainder } => remainder is Some || plain_seq(elements@),
            Collection::MapOf { elements, remainder } => remainder is Some || plain_pairs(elements@),
            Collection::Tuple(elements) => plain_seq(elements@),
        },
        Proc::Bundle { proc, .. } => plain(*proc),
        Proc::New { proc, .. } => plain(*proc),
        _ => true,
    }
}

pub open spec fn plain_seq(ps: Seq<AnnProc>) -> bool
    decreases ps, 0nat,
{
    if ps.len() == 0 {
        true
    } else {
        plain_seq(ps.drop_last()) && plain(ps.last())
    }
}

pub open spec fn plain_pairs(ps: Seq<KeyValue>) -> bool
    decreases ps, 0nat,
{
    if ps.len() == 0 {
        true
    } else {
        plain_pairs(ps.drop_last()) && plain(ps.last().key) && plain(ps.last().value)
    }
}

pub open spec fn plain_name(n: Name) -> bool
    decreases n, 0nat,
{
    match n {
        Name::Quote(p) => plain(*p),
        _ => true,
    }
}

/// How many names the `new`s of a plain process declare.
pub open spec fn decls_made(p: AnnProc) -> nat
    decreases p, 0nat,
{
    match p.proc {
        Proc::BinaryExp { op, left, right } => if op == BinaryExpOp::Matches || op.spec_is_connective() {
            0
        } else {
            decls_made(*left) + decls_made(*right)
        },
        Proc::UnaryExp { op, arg } => if op == UnaryExpOp::Negation {
            0
        } else {
            decls_made(*arg)
        },
        Proc::Par { left, right } => decls_made(*left) + decls_made(*right),
        Proc::IfThenElse { condition, if_true, if_false } => decls_made(*condition) + decls_made(*if_true)
            + match if_false {
            Some(f) => decls_made(*f),
            None => 0,
        },
        Proc::Send { channel, inputs, .. } => decls_made_name(channel) + decls_made_seq(inputs@),
        Proc::SendSync { channel, inputs, cont } => decls_made_name(channel) + decls_made_seq(inputs@)
            + match cont {
            SyncSendCont::Empty => 0,
            SyncSendCont::NonEmpty(k) => decls_made(*k),
        },
        Proc::Eval { name } => decls_made_name(name),
        Proc::Method { receiver, args, .. } => decls_made(*receiver) + decls_made_seq(args@),
        Proc::Collection(c) => match c {
            Collection::List { elements, remainder } => if remainder is Some {
                0
            } else {
                decls_made_seq(elements@)
            },
            Collection::SetOf { elements, remainder } => if remainder is Some {
                0
            } else {
                decls_made_seq(elements@)
            },
            Collection::MapOf { elements, remainder } => if remainder is Some {
                0
            } else {
                decls_made_pairs(elements@)
            },
            Collection::Tuple(elements) => decls_made_seq(elements@),
        },
        Proc::Bundle { proc, .. } => decls_made(*proc),
        Proc::New { decls, proc } => decls@.len() + decls_made(*proc),
        _ => 0,
    }
}

pub open spec fn decls_made_seq(ps: Seq<AnnProc>) -> nat
    decreases ps, 0nat,
{
    if ps.len() == 0 {
        0
    } else {
        decls_made_seq(ps.drop_last()) + decls_made(ps.last())
    }
}

pub open spec fn decls_made_pairs(ps: Seq<KeyValue>) -> nat
    decreases ps, 0nat,
{
    if ps.len() == 0 {
        0
    } else {
        decls_made_pairs(ps.drop_last()) + decls_made(ps.last().key) + decls_made(ps.last().value)
    }
}

pub open spec fn decls_made_name(n: Name) -> nat
    decreases n, 0nat,
{
    match n {
        Name::Quote(p) => decls_made(*p),
        _ => 0,
    }
}

/// The names that a `new` declares, with the binders `next`, `next + 1`, ...
pub open spec fn decl_env(decls: Seq<NameDecl>, next: int) -> NameEnv {
    Seq::new(decls.len(), |i: int| (decls[i].id.name@, BinderId((next + i) as u32)))
}

/// The uses of the plain process `p`, in the order resolution meets them,
/// each with the names in scope there: `env` outside, extended by the names
/// of every `new` around the use.  The binders of the `new`s are numbered
/// from `next` on, in the same order.
pub open spec fn scoped_uses(p: AnnProc, env: NameEnv, next: int) -> Seq<(Id, NameEnv)>
    decreases p, 0nat,
{
    match p.proc {
        Proc::ProcVar(Var::Id(id)) => seq![(id, env)],
        Proc::BinaryExp { op, left, right } => if op == BinaryExpOp::Matches || op.spec_is_connective() {
            Seq::empty()
        } else {
            scoped_uses(*left, env, next) + scoped_uses(*right, env, next + decls_made(*left))
        },
        Proc::UnaryExp { op, arg } => if op == UnaryExpOp::Negation {
            Seq::empty()
        } else {
            scoped_uses(*arg, env, next)
        },
        Proc::Par { left, right } => scoped_uses(*left, env, next) + scoped_uses(*right, env, next + decls_made(*left)),
        Proc::IfThenElse { condition, if_true, if_false } => scoped_uses(*condition, env, next) + scoped_uses(
            *if_true,
            env,
            next + decls_made(*condition),
        ) + match if_false {
            Some(f) => scoped_uses(*f, env, next + decls_made(*condition) + decls_made(*if_true)),
            None => Seq::empty(),
        },
        Proc::Send { channel, inputs, .. } => scoped_uses_name(channel, env, next) + scoped_uses_seq(
            inputs@,
            env,
            next + decls_made_name(channel),
        ),
        Proc::SendSync { channel, inputs, cont } => scoped_uses_name(channel, env, next) + scoped_uses_seq(
            inputs@,
            env,
            next + decls_made_name(channel),
        ) + match cont {
            SyncSendCont::Empty => Seq::empty(),
            SyncSendCont::NonEmpty(k) => scoped_uses(
                *k,
                env,
                next + decls_made_name(channel) + decls_made_seq(inputs@),
            ),
        },
        Proc::Eval { name } => scoped_uses_name(name, env, next),
        Proc::Method { receiver, args, .. } => scoped_uses(*receiver, env, next) + scoped_uses_seq(
            args@,
            env,
            next + decls_made(*receiver),
        ),
        Proc::Collection(c) => match c {
            Collection::List { elements, remainder } => if remainder is Some {
                Seq::empty()
            } else {
                scoped_uses_seq(elements@, env, next)
            },
            Collection::SetOf { elements, remainder } => if remainder is Some {
                Seq::empty()
            } else {
                scoped_uses_seq(elements@, env, next)
            },
            Collection::MapOf { elements, remainder } => if remainder is Some {
                Seq::empty()
            } else {
                scoped_uses_pairs(elements@, env, next)
            },
            Collection::Tuple(elements) => scoped_uses_seq(elements@, env, next),
        },
        Proc::Bundle { proc, .. } => scoped_uses(*proc, env, next),
        Proc::New { decls, proc } => scoped_uses(*proc, env + decl_env(decls@, next), next + decls@.len()),
        _ => Seq::empty(),
    }
}

pub open spec fn scoped_uses_seq(ps: Seq<AnnProc>, env: NameEnv, next: int) -> Seq<(Id, NameEnv)>
    decreases ps, 0nat,
{
    if ps.len() == 0 {
        Seq::empty()
    } else {
        scoped_uses_seq(ps.drop_last(), env, next) + scoped_uses(
            ps.last(),
            env,
            next + decls_made_seq(ps.drop_last()),
        )
    }
}

pub open spec fn scoped_uses_pairs(ps: Seq<KeyValue>, env: NameEnv, next: int) -> Seq<(Id, NameEnv)>
    decreases ps, 0nat,
{
    if ps.len() == 0 {
        Seq::empty()
    } else {
        let at = next + decls_made_pairs(ps.drop_last());
        scoped_uses_pairs(ps.drop_last(), env, next) + scoped_uses(ps.last().key, env, at) + scoped_uses(
            ps.last().value,
            env,
            at + decls_made(ps.last().key),
        )
    }
}

pub open spec fn scoped_uses_name(n: Name, env: NameEnv, next: int) -> Seq<(Id, NameEnv)>
    decreases n, 0nat,
{
    match n {
        Name::NameVar(Var::Id(id)) => seq![(id, env)],
        Name::NameVar(Var::Wildcard) => Seq::empty(),
        Name::Quote(p) => scoped_uses(*p, env, next),
    }
}

/// What resolution records for the use `id` with the names `env` in scope:
/// a binding to the innermost binder of its name, or, when there is none,
/// an unbound variable reported at its position.
pub open spec fn use_ok(v: DbView, id: Id, env: NameEnv) -> bool {
    match name_lookup(env, id.name@) {
        Some(b) => v.strings.contains(id.name@) && lookup_binding(
            v.bound,
            SymbolOccurrence { symbol: symbol_index(v.strings, id.name@), position: id.pos },
        ) == Some(VarBinding::Bound(b)),
        None => reported_unbound(v, id),
    }
}

/// Every use of `us` is resolved against its names in scope.
pub open spec fn uses_ok(v: DbView, us: Seq<(Id, NameEnv)>) -> bool {
    forall|k: int| 0 <= k < us.len() ==> use_ok(v, (#[trigger] us[k]).0, us[k].1)
}

/// The bindings that changed from `o` to `n` are at positions of `us`.
pub open spec fn binds_only_at(o: DbView, n: DbView, us: Seq<(Id, NameEnv)>) -> bool {
    forall|occ: SymbolOccurrence|
        #[trigger] lookup_binding(n.bound, occ) != lookup_binding(o.bound, occ) ==> exists|k: int|
            0 <= k < us.len() && (#[trigger] us[k]).0.pos == occ.position
}

/// No two uses of `us` share a source position.
pub open spec fn distinct_positions(us: Seq<(Id, NameEnv)>) -> bool {
    forall|i: int, j: int| 0 <= i < us.len() && 0 <= j < us.len() && i != j ==> (#[trigger] us[i]).0.pos != (
    #[trigger] us[j]).0.pos
}


/// The database has room for what resolving uses `us` and declaring `decls`
/// names takes, and the environment `locals` holds interned symbols only.
pub open spec fn plain_fits(v: DbView, us: Seq<(Id, NameEnv)>, decls: nat, locals: Seq<(Symbol, BinderId)>) -> bool {
    &&& v.binders.len() + decls <= MAX_BITS
    &&& v.strings.len() + us.len() + 2 * decls < u32::MAX
    &&& env_interned(locals, v.strings.len())
}

/// What resolving a plain part with uses `us` that declares `decls` names
/// did from `o` to `n`: bindings changed only at those uses, one binder was
/// made per declared name, and, when the uses sit at distinct positions,
/// each is resolved against its names in scope.
pub open spec fn plain_post(o: DbView, n: DbView, us: Seq<(Id, NameEnv)>, decls: nat) -> bool {
    &&& binds_only_at(o, n, us)
    &&& n.binders.len() == o.binders.len() + decls
    &&& n.strings.len() <= o.strings.len() + us.len() + 2 * decls
    &&& distinct_positions(us) ==> uses_ok(n, us)
}

/// Resolving the plain process `p` from `o` to `n` with the environment
/// `locals` is as `plain_post` says.
pub open spec fn plain_walk(o: DbView, n: DbView, locals: Seq<(Symbol, BinderId)>, p: AnnProc) -> bool {
    let us = scoped_uses(p, name_env(o.strings, locals), o.binders.len() as int);
    plain(p) && plain_fits(o, us, decls_made(p), locals) ==> plain_post(o, n, us, decls_made(p))
}

pub open spec fn plain_walk_seq(o: DbView, n: DbView, locals: Seq<(Symbol, BinderId)>, ps: Seq<AnnProc>) -> bool {
    let us = scoped_uses_seq(ps, name_env(o.strings, locals), o.binders.len() as int);
    plain_seq(ps) && plain_fits(o, us, decls_made_seq(ps), locals) ==> plain_post(o, n, us, decls_made_seq(ps))
}

pub open spec fn plain_walk_pairs(o: DbView, n: DbView, locals: Seq<(Symbol, BinderId)>, ps: Seq<KeyValue>) -> bool {
    let us = scoped_uses_pairs(ps, name_env(o.strings, locals), o.binders.len() as int);
    plain_pairs(ps) && plain_fits(o, us, decls_made_pairs(ps), locals) ==> plain_post(o, n, us, decls_made_pairs(ps))
}

pub open spec fn plain_walk_name(o: DbView, n: DbView, locals: Seq<(Symbol, BinderId)>, nm: Name) -> bool {
    let us = scoped_uses_name(nm, name_env(o.strings, locals), o.binders.len() as int);
    plain_name(nm) && plain_fits(o, us, decls_made_name(nm), locals) ==> plain_post(o, n, us, decls_made_name(nm))
}

/// Reading an environment of interned symbols by names agrees with looking
/// the name's symbol up.
pub proof fn lemma_name_env_lookup(strings: Seq<Seq<char>>, locals: Seq<(Symbol, BinderId)>, name: Seq<char>)
    requires
        strings.no_duplicates(),
        strings.len() <= u32::MAX,
        env_interned(locals, strings.len()),
    ensures
        strings.contains(name) ==> env_lookup(locals, symbol_index(strings, name)) == name_lookup(
            name_env(strings, locals),
            name,
        ),
        !strings.contains(name) ==> name_lookup(name_env(strings, locals), name) is None,
    decreases locals.len(),
{
    if locals.len() > 0 {
        let init = locals.drop_last();
        assert(name_env(strings, locals).drop_last() =~= name_env(strings, init));
        assert(env_interned(init, strings.len())) by {
            assert forall|i: int| 0 <= i < init.len() implies (#[trigger] init[i]).0.0 < strings.len() by {
                assert(init[i] == locals[i]);
            }
        }
        lemma_name_env_lookup(strings, init, name);
        let last = locals.last();
        assert(locals[locals.len() - 1].0.0 < strings.len());
        assert(name_env(strings, locals).last() == (strings[last.0.0 as int], last.1));
        if strings.contains(name) {
            let i = choose|i: int| 0 <= i < strings.len() && strings[i] == name;
            assert(symbol_index(strings, name).0 == i) by {
                assert((i as u32) as int == i);
            }
            if strings[last.0.0 as int] == name {
                assert(last.0.0 == i);
                assert(last.0 == symbol_index(strings, name));
            } else {
                assert(last.0 != symbol_index(strings, name));
            }
        } else {
            assert(strings[last.0.0 as int] != name);
        }
    }
}

/// Reading interned symbols against a longer table gives the same names.
pub proof fn lemma_name_env_stable(s1: Seq<Seq<char>>, s2: Seq<Seq<char>>, locals: Seq<(Symbol, BinderId)>)
    requires
        s1.len() <= s2.len(),
        forall|i: int| 0 <= i < s1.len() ==> #[trigger] s2[i] == s1[i],
        env_interned(locals, s1.len()),
    ensures
        name_env(s1, locals) == name_env(s2, locals),
        env_interned(locals, s2.len()),
{
    assert(name_env(s1, locals) =~= name_env(s2, locals)) by {
        assert forall|i: int| 0 <= i < locals.len() implies name_env(s1, locals)[i] == name_env(s2, locals)[i] by {
            assert(locals[i].0.0 < s1.len());
        }
    }
}

/// No two of `a + b` share a position, so neither do two of `a`, nor of `b`.
pub proof fn lemma_distinct_split(a: Seq<(Id, NameEnv)>, b: Seq<(Id, NameEnv)>)
    requires
        distinct_positions(a + b),
    ensures
        distinct_positions(a),
        distinct_positions(b),
{
    assert forall|i: int, j: int| 0 <= i < a.len() && 0 <= j < a.len() && i != j implies (#[trigger] a[i]).0.pos
        != (#[trigger] a[j]).0.pos by {
        assert((a + b)[i] == a[i] && (a + b)[j] == a[j]);
    }
    assert forall|i: int, j: int| 0 <= i < b.len() && 0 <= j < b.len() && i != j implies (#[trigger] b[i]).0.pos
        != (#[trigger] b[j]).0.pos by {
        assert((a + b)[a.len() + i] == b[i] && (a + b)[a.len() + j] == b[j]);
    }
}

/// Two plain parts resolved in a row make one.
pub proof fn lemma_plain_compose(
    d0: DbView,
    d1: DbView,
    d2: DbView,
    a: Seq<(Id, NameEnv)>,
    b: Seq<(Id, NameEnv)>,
    da: nat,
    db: nat,
    lo: int,
    hi: int,
)
    requires
        plain_post(d0, d1, a, da),
        plain_post(d1, d2, b, db),
        resolution_step(d1, d2, lo, hi),
        d2.strings.no_duplicates(),
    ensures
        plain_post(d0, d2, a + b, da + db),
{
    assert forall|occ: SymbolOccurrence|
        #[trigger] lookup_binding(d2.bound, occ) != lookup_binding(d0.bound, occ) implies exists|k: int|
            0 <= k < (a + b).len() && (#[trigger] (a + b)[k]).0.pos == occ.position by {
        if lookup_binding(d2.bound, occ) != lookup_binding(d1.bound, occ) {
            let k = choose|k: int| 0 <= k < b.len() && (#[trigger] b[k]).0.pos == occ.position;
            assert((a + b)[a.len() + k] == b[k]);
        } else {
            let k = choose|k: int| 0 <= k < a.len() && (#[trigger] a[k]).0.pos == occ.position;
            assert((a + b)[k] == a[k]);
        }
    }
    if distinct_positions(a + b) {
        lemma_distinct_split(a, b);
        assert(d2.strings.take(d1.strings.len() as int) =~= d1.strings);
        assert forall|k: int| 0 <= k < (a + b).len() implies use_ok(d2, (#[trigger] (a + b)[k]).0, (a + b)[k].1) by {
            if k < a.len() {
                assert((a + b)[k] == a[k]);
                let id = a[k].0;
                assert(use_ok(d1, id, a[k].1));
                match name_lookup(a[k].1, id.name@) {
                    Some(bd) => {
                        lemma_symbol_index_stable(d1.strings, d2.strings, id.name@);
                        let occ = SymbolOccurrence { symbol: symbol_index(d1.strings, id.name@), position: id.pos };
                        if lookup_binding(d2.bound, occ) != lookup_binding(d1.bound, occ) {
                            let m = choose|m: int| 0 <= m < b.len() && (#[trigger] b[m]).0.pos == occ.position;
                            assert((a + b)[a.len() + m] == b[m]);
                        }
                        assert(d2.strings.contains(id.name@)) by {
                            let i = choose|i: int| 0 <= i < d1.strings.len() && d1.strings[i] == id.name@;
                            assert(d2.strings[i] == d1.strings[i]);
                        }
                    },
                    None => {
                        let i = choose|i: int|
                            0 <= i < d1.diags.len() && (#[trigger] d1.diags[i]).kind == crate::types::DiagnosticKind::Error(
                                crate::types::ErrorKind::UnboundVariable,
                            ) && d1.diags[i].exact_position == Some(id.pos);
                        assert(d2.diags[i] == d1.diags[i]);
                    },
                }
            } else {
                assert((a + b)[k] == b[k - a.len()]);
            }
        }
    }
}


/// Resolving one use as `use_outcome` says resolves it against its names in scope.
pub proof fn lemma_use_plain(
    o: DbView,
    n: DbView,
    locals: Seq<(Symbol, BinderId)>,
    os: Seq<ScopeInfo>,
    ns: Seq<ScopeInfo>,
    id: Id,
    expects_name: bool,
    site: PID,
)
    requires
        use_outcome(o, n, locals, os, ns, id, expects_name, site),
        env_interned(locals, o.strings.len()),
        db_wf(n),
    ensures
        plain_post(o, n, seq![(id, name_env(o.strings, locals))], 0),
{
    let us = seq![(id, name_env(o.strings, locals))];
    assert(us[0] == (id, name_env(o.strings, locals)));
    assert(forall|i: int| 0 <= i < o.strings.len() ==> #[trigger] n.strings[i] == o.strings[i]);
    lemma_name_env_stable(o.strings, n.strings, locals);
    lemma_name_env_lookup(n.strings, locals, id.name@);
    let sym = symbol_index(n.strings, id.name@);
    let occ = SymbolOccurrence { symbol: sym, position: id.pos };
    assert forall|x: SymbolOccurrence|
        #[trigger] lookup_binding(n.bound, x) != lookup_binding(o.bound, x) implies exists|k: int|
            0 <= k < us.len() && (#[trigger] us[k]).0.pos == x.position by {
        assert(x == occ);
    }
    if name_lookup(name_env(o.strings, locals), id.name@) is None {
        let i = o.diags.len() as int;
        assert(n.diags[i].kind == DiagnosticKind::Error(ErrorKind::UnboundVariable));
        assert(n.diags[i].exact_position == Some(id.pos));
        assert(reported_unbound(n, id));
    }
    assert(use_ok(n, us[0].0, us[0].1));
}


/// Nothing resolved, nothing changed.
pub proof fn lemma_plain_refl(o: DbView)
    ensures
        plain_post(o, o, Seq::empty(), 0),
{
}

/// The next part of a plain process, once the parts `done` are resolved from
/// `o` to `d`: its names in scope and binder numbers are as `o` saw them, and
/// the database still has room for it.
pub proof fn lemma_plain_step(
    o: DbView,
    d: DbView,
    locals: Seq<(Symbol, BinderId)>,
    done: Seq<(Id, NameEnv)>,
    kd: nat,
    part: Seq<(Id, NameEnv)>,
    kp: nat,
    total: Seq<(Id, NameEnv)>,
    kt: nat,
    lo: int,
    hi: int,
)
    requires
        plain_post(o, d, done, kd),
        resolution_step(o, d, lo, hi),
        plain_fits(o, total, kt, locals),
        done.len() + part.len() <= total.len(),
        kd + kp <= kt,
    ensures
        name_env(d.strings, locals) == name_env(o.strings, locals),
        d.binders.len() == o.binders.len() + kd,
        plain_fits(d, part, kp, locals),
{
    lemma_name_env_stable(o.strings, d.strings, locals);
}

/// Facts about the first `i` processes of a sequence and the next one.
pub proof fn lemma_seq_take(ps: Seq<AnnProc>, env: NameEnv, next: int, i: int)
    requires
        0 <= i < ps.len(),
    ensures
        scoped_uses_seq(ps.take(i + 1), env, next) == scoped_uses_seq(ps.take(i), env, next) + scoped_uses(
            ps[i],
            env,
            next + decls_made_seq(ps.take(i)),
        ),
        decls_made_seq(ps.take(i + 1)) == decls_made_seq(ps.take(i)) + decls_made(ps[i]),
        plain_seq(ps.take(i + 1)) == (plain_seq(ps.take(i)) && plain(ps[i])),
{
    assert(ps.take(i + 1).drop_last() =~= ps.take(i));
    assert(ps.take(i + 1).last() == ps[i]);
}

/// The first `i` processes of a sequence count at most what the whole does.
pub proof fn lemma_seq_prefix_bounds(ps: Seq<AnnProc>, env: NameEnv, next: int, i: int)
    requires
        0 <= i <= ps.len(),
    ensures
        scoped_uses_seq(ps.take(i), env, next).len() <= scoped_uses_seq(ps, env, next).len(),
        decls_made_seq(ps.take(i)) <= decls_made_seq(ps),
        plain_seq(ps) ==> plain_seq(ps.take(i)),
    decreases ps.len(),
{
    if i == ps.len() {
        assert(ps.take(i) =~= ps);
    } else {
        assert(ps.take(i) =~= ps.drop_last().take(i));
        lemma_seq_prefix_bounds(ps.drop_last(), env, next, i);
    }
}

/// Facts about the first `i` pairs of a sequence and the next one.
pub proof fn lemma_pairs_take(ps: Seq<KeyValue>, env: NameEnv, next: int, i: int)
    requires
        0 <= i < ps.len(),
    ensures
        scoped_uses_pairs(ps.take(i + 1), env, next) == scoped_uses_pairs(ps.take(i), env, next) + scoped_uses(
            ps[i].key,
            env,
            next + decls_made_pairs(ps.take(i)),
        ) + scoped_uses(ps[i].value, env, next + decls_made_pairs(ps.take(i)) + decls_made(ps[i].key)),
        decls_made_pairs(ps.take(i + 1)) == decls_made_pairs(ps.take(i)) + decls_made(ps[i].key) + decls_made(
            ps[i].value,
        ),
        plain_pairs(ps.take(i + 1)) == (plain_pairs(ps.take(i)) && plain(ps[i].key) && plain(ps[i].value)),
{
    assert(ps.take(i + 1).drop_last() =~= ps.take(i));
    assert(ps.take(i + 1).last() == ps[i]);
}

/// The first `i` pairs of a sequence count at most what the whole does.
pub proof fn lemma_pairs_prefix_bounds(ps: Seq<KeyValue>, env: NameEnv, next: int, i: int)
    requires
        0 <= i <= ps.len(),
    ensures
        scoped_uses_pairs(ps.take(i), env, next).len() <= scoped_uses_pairs(ps, env, next).len(),
        decls_made_pairs(ps.take(i)) <= decls_made_pairs(ps),
        plain_pairs(ps) ==> plain_pairs(ps.take(i)),
    decreases ps.len(),
{
    if i == ps.len() {
        assert(ps.take(i) =~= ps);
    } else {
        assert(ps.take(i) =~= ps.drop_last().take(i));
        lemma_pairs_prefix_bounds(ps.drop_last(), env, next, i);
    }
}


/// The environment after a `new` brings in its binders `start..`, read by
/// names: the names of its declarations, numbered from `start`.
pub proof fn lemma_new_env(
    strings: Seq<Seq<char>>,
    binders: Seq<Binder>,
    locals: Seq<(Symbol, BinderId)>,
    decls: Seq<NameDecl>,
    start: int,
)
    requires
        env_interned(locals, strings.len()),
        0 <= start,
        start + decls.len() <= binders.len(),
        forall|k: int|
            0 <= k < decls.len() ==> #[trigger] binders[start + k].name.0 < strings.len() && strings[binders[start
                + k].name.0 as int] == decls[k].id.name@,
    ensures
        name_env(strings, pushed_env(locals, scope_locals(binders, start, decls.len() as int))) == name_env(
            strings,
            locals,
        ) + decl_env(decls, start),
        env_interned(pushed_env(locals, scope_locals(binders, start, decls.len() as int)), strings.len()),
{
    let pe = pushed_env(locals, scope_locals(binders, start, decls.len() as int));
    assert forall|i: int| 0 <= i < pe.len() implies (#[trigger] pe[i]).0.0 < strings.len() by {
        if i >= locals.len() {
            let k = i - locals.len();
            assert(binders[start + k].name.0 < strings.len());
        }
    }
    assert(name_env(strings, pe) =~= name_env(strings, locals) + decl_env(decls, start)) by {
        assert forall|i: int| 0 <= i < pe.len() implies name_env(strings, pe)[i] == (name_env(strings, locals)
            + decl_env(decls, start))[i] by {
            if i >= locals.len() {
                let k = i - locals.len();
                assert(binders[start + k].name.0 < strings.len());
            }
        }
    }
}

} // verus!
