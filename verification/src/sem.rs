//! The mathematical model of one checking pass.
//!
//! A pass state is a stack of open scope records, the diagnostics collected so
//! far, and a fault flag. The fault flag models the internal-invariant
//! violations of the pass (a binding consumed although it was never
//! registered, a definition with no open scope): once raised it absorbs every
//! later step, which is how the executable checker's "abort immediately" is
//! reflected in a total function.
//!
//! `sem_expr` is the meaning of checking one expression: it is the reference
//! against which the executable checker is verified, and the laws of the pass
//! are proved about it.

use vstd::prelude::*;

use crate::hir::ArgsOwnership;
use crate::hir::Call;
use crate::hir::Def;
use crate::hir::Expr;
use crate::hir::HIR;
use crate::hir::Location;
use crate::hir::OwnershipError;
use crate::hir::Ownership;
use crate::hir::Signature;
use crate::hir::VarPattern;
use crate::hir::VarRef;
use crate::hir::Visibility;

verus! {

/// One open scope: its path segment, the bindings alive in it, and for each
/// binding consumed in it the location of the move.
#[verifier::ext_equal]
pub ghost struct ScopeModel {
    pub name: Seq<char>,
    pub vis: Visibility,
    pub alive: Set<Seq<char>>,
    pub moved: Map<Seq<char>, Location>,
}

/// One collected diagnostic: the binding, the re-use site, the original move
/// site, and the serialized scope path at which the violation was found.
#[verifier::ext_equal]
pub ghost struct ErrModel {
    pub name: Seq<char>,
    pub loc: Location,
    pub moved_loc: Location,
    pub path: Seq<char>,
}

/// The whole pass state. `scopes` is the stack of open scopes, outermost
/// first; `errs` the diagnostics in discovery order.
#[verifier::ext_equal]
pub ghost struct St {
    pub scopes: Seq<ScopeModel>,
    pub errs: Seq<ErrModel>,
    pub fault: bool,
}

/// The state a fresh checker starts from.
pub open spec fn st_init() -> St {
    St { scopes: Seq::empty(), errs: Seq::empty(), fault: false }
}

/// The separator a scope segment contributes to the serialized path: `.` for
/// a public segment, `::` for a private one.
pub open spec fn sep_of(vis: Visibility) -> Seq<char> {
    match vis {
        Visibility::Public => seq!['.'],
        Visibility::Private => seq![':', ':'],
    }
}

/// The canonical serialization of a scope stack: every segment prefixed by
/// the separator of its own visibility.
pub open spec fn path_of(scopes: Seq<ScopeModel>) -> Seq<char>
    decreases scopes.len(),
{
    if scopes.len() == 0 {
        Seq::empty()
    } else {
        path_of(scopes.drop_last()) + sep_of(scopes.last().vis) + scopes.last().name
    }
}

/// The model of one diagnostic value.
pub open spec fn err_model(e: OwnershipError) -> ErrModel {
    ErrModel { name: e.name@, loc: e.loc, moved_loc: e.moved_loc, path: e.scope_path@ }
}

/// The index of the innermost open scope holding `n` alive, or -1 when no
/// open scope does.
pub open spec fn innermost_alive(scopes: Seq<ScopeModel>, n: Seq<char>) -> int
    decreases scopes.len(),
{
    if scopes.len() == 0 {
        -1
    } else if scopes.last().alive.contains(n) {
        scopes.len() - 1
    } else {
        innermost_alive(scopes.drop_last(), n)
    }
}

/// Whether some open scope records `n` as moved.
pub open spec fn moved_somewhere(scopes: Seq<ScopeModel>, n: Seq<char>) -> bool {
    exists|k: int| 0 <= k < scopes.len() && scopes[k].moved.contains_key(n)
}

/// Entering a scope: push a fresh, empty record.
pub open spec fn st_push(st: St, name: Seq<char>, vis: Visibility) -> St {
    St {
        scopes: st.scopes.push(
            ScopeModel { name, vis, alive: Set::empty(), moved: Map::empty() },
        ),
        ..st
    }
}

/// Leaving a scope: the innermost record is discarded.
pub open spec fn st_pop(st: St) -> St {
    St { scopes: st.scopes.drop_last(), ..st }
}

/// The names a definition's signature binds: every name of a destructuring
/// variable pattern, or the subroutine's own name.
pub open spec fn sig_names(sig: Signature) -> Seq<Seq<char>> {
    match sig {
        Signature::Var { pat, vis } => match pat {
            VarPattern::Ident(n) => seq![n@],
            VarPattern::Tuple(ns) => ns@.map_values(|s: String| s@),
        },
        Signature::Subr { name, vis } => seq![name@],
    }
}

/// The name under which a definition's body scope is entered: the single
/// bound name, or the synthetic segment for a pattern with no single name.
pub open spec fn instant_name() -> Seq<char> {
    seq![':', ':', '<', 'i', 'n', 's', 't', 'a', 'n', 't', '>']
}

pub open spec fn sig_scope_name(sig: Signature) -> Seq<char> {
    match sig {
        Signature::Var { pat, vis } => match pat {
            VarPattern::Ident(n) => n@,
            VarPattern::Tuple(ns) => instant_name(),
        },
        Signature::Subr { name, vis } => name@,
    }
}

pub open spec fn sig_vis(sig: Signature) -> Visibility {
    match sig {
        Signature::Var { pat, vis } => vis,
        Signature::Subr { name, vis } => vis,
    }
}

/// The decimal digits of `n`, most significant first.
pub open spec fn digit_char(d: nat) -> char {
    if d == 0 { '0' }
    else if d == 1 { '1' }
    else if d == 2 { '2' }
    else if d == 3 { '3' }
    else if d == 4 { '4' }
    else if d == 5 { '5' }
    else if d == 6 { '6' }
    else if d == 7 { '7' }
    else if d == 8 { '8' }
    else { '9' }
}

pub open spec fn dec_rep(n: nat) -> Seq<char>
    decreases n,
{
    if n < 10 {
        seq![digit_char(n)]
    } else {
        dec_rep(n / 10).push(digit_char(n % 10))
    }
}

/// The synthetic, unique, private scope name of an anonymous closure.
pub open spec fn lambda_name(id: nat) -> Seq<char> {
    seq!['<', 'l', 'a', 'm', 'b', 'd', 'a', '_'] + dec_rep(id) + seq!['>']
}

/// Registering a sequence of names in a set of alive bindings.
pub open spec fn insert_names(alive: Set<Seq<char>>, ns: Seq<Seq<char>>) -> Set<Seq<char>>
    decreases ns.len(),
{
    if ns.len() == 0 {
        alive
    } else {
        insert_names(alive, ns.drop_last()).insert(ns.last())
    }
}

/// Registering a definition's names in the innermost open scope. A definition
/// with no open scope is a traversal fault.
pub open spec fn sem_define(st: St, sig: Signature) -> St {
    if st.fault {
        st
    } else if st.scopes.len() == 0 {
        St { fault: true, ..st }
    } else {
        let inner = st.scopes.last();
        let inner2 = ScopeModel { alive: insert_names(inner.alive, sig_names(sig)), ..inner };
        St { scopes: st.scopes.update(st.scopes.len() - 1, inner2), ..st }
    }
}

/// Consuming `n`: the innermost scope holding it alive records the move. A
/// name alive nowhere but moved somewhere was already reported by the
/// check-if-dropped step and is left as it is; a name known nowhere at all
/// was never registered, which is a traversal fault.
pub open spec fn sem_drop(st: St, n: Seq<char>, moved_loc: Location) -> St {
    if st.fault {
        st
    } else {
        let i = innermost_alive(st.scopes, n);
        if i >= 0 {
            let sc = st.scopes[i];
            let sc2 = ScopeModel {
                alive: sc.alive.remove(n),
                moved: sc.moved.insert(n, moved_loc),
                ..sc
            };
            St { scopes: st.scopes.update(i, sc2), ..st }
        } else if moved_somewhere(st.scopes, n) {
            st
        } else {
            St { fault: true, ..st }
        }
    }
}

/// The diagnostics produced by examining the `k` innermost open scopes for a
/// recorded move of `n`, in examination order (innermost first). Every scope
/// whose moved map holds `n` contributes one diagnostic.
pub open spec fn cid_errs(
    scopes: Seq<ScopeModel>,
    n: Seq<char>,
    loc: Location,
    path: Seq<char>,
    k: int,
) -> Seq<ErrModel>
    decreases k,
{
    if k <= 0 || k > scopes.len() {
        Seq::empty()
    } else {
        let prev = cid_errs(scopes, n, loc, path, k - 1);
        let sc = scopes[scopes.len() - k];
        if sc.moved.contains_key(n) {
            prev.push(ErrModel { name: n, loc, moved_loc: sc.moved[n], path })
        } else {
            prev
        }
    }
}

/// Checking a reference against every open scope, innermost to outermost: one
/// diagnostic per scope that records `n` as moved.
pub open spec fn sem_check_if_dropped(st: St, n: Seq<char>, loc: Location) -> St {
    if st.fault {
        st
    } else {
        St {
            errs: st.errs + cid_errs(st.scopes, n, loc, path_of(st.scopes), st.scopes.len() as int),
            ..st
        }
    }
}

/// The meaning of a variable reference: report every recorded move of the
/// name, then, if the binding's type is move-only and the context consumes
/// the value, perform the move.
pub open spec fn sem_ref(st: St, v: VarRef, own: Ownership) -> St {
    let st1 = sem_check_if_dropped(st, v.name@, v.loc);
    if v.is_mut && own == Ownership::Owned {
        sem_drop(st1, v.name@, v.loc)
    } else {
        st1
    }
}

/// The meaning of checking one expression under an ownership context.
pub open spec fn sem_expr(st: St, e: Expr, own: Ownership) -> St
    decreases e, 0nat,
{
    if st.fault {
        st
    } else {
        match e {
            Expr::Def(def) => {
                let st1 = sem_define(st, def.sig);
                let st2 = st_push(st1, sig_scope_name(def.sig), sig_vis(def.sig));
                let st3 = sem_exprs(st2, def.body@, Ownership::Owned, 0);
                st_pop(st3)
            },
            Expr::Local(v) => sem_ref(st, v, own),
            Expr::Public(v) => sem_ref(st, v, own),
            Expr::Attr(obj) => sem_expr(st, *obj, own),
            Expr::Call(c) => sem_call(st, c),
            Expr::BinOp(lhs, rhs) => sem_expr(sem_expr(st, *lhs, own), *rhs, own),
            Expr::UnaryOp(operand) => sem_expr(st, *operand, own),
            Expr::Array(elems) => sem_exprs(st, elems@, own, 0),
            Expr::Tuple(elems) => sem_exprs(st, elems@, own, 0),
            Expr::Dict(values) => sem_exprs(st, values@, own, 0),
            Expr::Record(defs) => sem_record(st, defs@, own, 0),
            Expr::Lambda(lam) => {
                let st1 = st_push(st, lambda_name(lam.id as nat), Visibility::Private);
                let st2 = sem_exprs(st1, lam.body@, Ownership::Owned, 0);
                st_pop(st2)
            },
            Expr::Lit => st,
        }
    }
}

/// The meaning of checking a call: the receiver under the receiver ownership
/// where the signature has one, then the supplied arguments, each under the
/// ownership of the parameter position it is paired with. For a structured
/// signature the required-parameter ownerships are split at the number of
/// supplied positional arguments, and the remainder is chained in front of
/// the defaulted-parameter ownerships before pairing with the keyword
/// arguments. For a variadic signature one ownership covers every argument.
pub open spec fn sem_call(st: St, c: Call) -> St
    decreases c, 2nat,
{
    if st.fault {
        st
    } else {
        match c.args_ownership {
            ArgsOwnership::Args { self_, non_defaults, defaults } => {
                let st1 = match self_ {
                    Some(o) => sem_expr(st, *c.obj, o),
                    None => st,
                };
                let cut = if c.pos_args@.len() <= non_defaults@.len() {
                    c.pos_args@.len() as int
                } else {
                    non_defaults@.len() as int
                };
                let st2 = sem_args(st1, c.pos_args@, non_defaults@, 0);
                let leftover = non_defaults@.skip(cut) + defaults@;
                sem_args(st2, c.kw_args@, leftover, 0)
            },
            ArgsOwnership::VarArgs(o) => {
                let st1 = sem_exprs(st, c.pos_args@, o, 0);
                sem_exprs(st1, c.kw_args@, o, 0)
            },
        }
    }
}

/// Checking the statements `es[i..]` in order, each under the same context.
pub open spec fn sem_exprs(st: St, es: Seq<Expr>, own: Ownership, i: int) -> St
    decreases es, es.len() - i,
{
    if i < 0 || i >= es.len() {
        st
    } else {
        sem_exprs(sem_expr(st, es[i], own), es, own, i + 1)
    }
}

/// Checking supplied arguments against the ownership of their parameter
/// positions, pairing by position; supplied arguments beyond the classified
/// positions (and positions beyond the supplied arguments) contribute
/// nothing.
pub open spec fn sem_args(st: St, args: Seq<Expr>, owns: Seq<Ownership>, i: int) -> St
    decreases args, args.len() - i,
{
    if i < 0 || i >= args.len() || i >= owns.len() {
        st
    } else {
        sem_args(sem_expr(st, args[i], owns[i]), args, owns, i + 1)
    }
}

/// Checking the field definitions `defs[i..]` of a record literal: each
/// statement of each field body is checked in the current scope, under the
/// record's own surrounding context.
pub open spec fn sem_record(st: St, defs: Seq<Def>, own: Ownership, i: int) -> St
    decreases defs, defs.len() - i,
{
    if i < 0 || i >= defs.len() {
        st
    } else {
        sem_record(sem_exprs(st, defs[i].body@, own, 0), defs, own, i + 1)
    }
}

/// The meaning of one whole pass: enter the module's own private scope, then
/// check every top-level statement as a consumed value.
pub open spec fn sem_hir(st: St, hir: HIR) -> St {
    sem_exprs(st_push(st, hir.name@, Visibility::Private), hir.module@, Ownership::Owned, 0)
}

/// The model of a collected diagnostics vector.
pub open spec fn errs_model(es: Seq<OwnershipError>) -> Seq<ErrModel> {
    es.map_values(|e: OwnershipError| err_model(e))
}

/// A faulted state absorbs a statement sequence unchanged.
pub proof fn lemma_exprs_fault(st: St, es: Seq<Expr>, own: Ownership, i: int)
    requires
        st.fault,
    ensures
        sem_exprs(st, es, own, i) == st,
    decreases es, es.len() - i,
{
    if 0 <= i < es.len() {
        assert(sem_expr(st, es[i], own) == st);
        lemma_exprs_fault(st, es, own, i + 1);
    }
}

/// A faulted state absorbs an argument sequence unchanged.
pub proof fn lemma_args_fault(st: St, args: Seq<Expr>, owns: Seq<Ownership>, i: int)
    requires
        st.fault,
    ensures
        sem_args(st, args, owns, i) == st,
    decreases args, args.len() - i,
{
    if 0 <= i < args.len() && i < owns.len() {
        assert(sem_expr(st, args[i], owns[i]) == st);
        lemma_args_fault(st, args, owns, i + 1);
    }
}

/// A faulted state absorbs a record's field definitions unchanged.
pub proof fn lemma_record_fault(st: St, defs: Seq<Def>, own: Ownership, i: int)
    requires
        st.fault,
    ensures
        sem_record(st, defs, own, i) == st,
    decreases defs, defs.len() - i,
{
    if 0 <= i < defs.len() {
        lemma_exprs_fault(st, defs[i].body@, own, 0);
        lemma_record_fault(st, defs, own, i + 1);
    }
}

/// Where the innermost-alive search lands: either nowhere (-1), or on an open
/// scope that holds the name alive, with no scope inside it doing so.
pub proof fn lemma_innermost_bounds(scopes: Seq<ScopeModel>, n: Seq<char>)
    ensures
        innermost_alive(scopes, n) == -1 || (0 <= innermost_alive(scopes, n) < scopes.len()),
        innermost_alive(scopes, n) >= 0 ==> scopes[innermost_alive(scopes, n)].alive.contains(n),
        forall|k: int|
            innermost_alive(scopes, n) < k < scopes.len() ==> !(#[trigger] scopes[k]).alive.contains(
                n,
            ),
    decreases scopes.len(),
{
    if scopes.len() > 0 && !scopes.last().alive.contains(n) {
        lemma_innermost_bounds(scopes.drop_last(), n);
        assert forall|k: int|
            innermost_alive(scopes, n) < k < scopes.len() implies !(#[trigger] scopes[k]).alive.contains(
            n,
        ) by {
            if k < scopes.len() - 1 {
                assert(scopes.drop_last()[k] == scopes[k]);
            }
        }
    }
}

/// The search succeeds exactly on the innermost scope holding the name alive.
pub proof fn lemma_innermost_at(scopes: Seq<ScopeModel>, n: Seq<char>, idx: int)
    requires
        0 <= idx < scopes.len(),
        scopes[idx].alive.contains(n),
        forall|k: int| idx < k < scopes.len() ==> !(#[trigger] scopes[k]).alive.contains(n),
    ensures
        innermost_alive(scopes, n) == idx,
{
    lemma_innermost_bounds(scopes, n);
}

/// When no open scope holds the name alive, the search fails.
pub proof fn lemma_innermost_none(scopes: Seq<ScopeModel>, n: Seq<char>)
    requires
        forall|k: int| 0 <= k < scopes.len() ==> !(#[trigger] scopes[k]).alive.contains(n),
    ensures
        innermost_alive(scopes, n) == -1,
{
    lemma_innermost_bounds(scopes, n);
}

/// Checking one expression opens exactly as many scopes as it closes: the
/// stack regains its depth.
pub proof fn lemma_expr_len(st: St, e: Expr, own: Ownership)
    ensures
        sem_expr(st, e, own).scopes.len() == st.scopes.len(),
    decreases e, 0nat,
{
    if !st.fault {
        match e {
            Expr::Def(def) => {
                let st1 = sem_define(st, def.sig);
                let st2 = st_push(st1, sig_scope_name(def.sig), sig_vis(def.sig));
                lemma_exprs_len(st2, def.body@, Ownership::Owned, 0);
            },
            Expr::Local(v) => {
                lemma_innermost_bounds(st.scopes, v.name@);
            },
            Expr::Public(v) => {
                lemma_innermost_bounds(st.scopes, v.name@);
            },
            Expr::Attr(obj) => {
                lemma_expr_len(st, *obj, own);
            },
            Expr::Call(c) => {
                lemma_call_len(st, c);
            },
            Expr::BinOp(lhs, rhs) => {
                lemma_expr_len(st, *lhs, own);
                lemma_expr_len(sem_expr(st, *lhs, own), *rhs, own);
            },
            Expr::UnaryOp(operand) => {
                lemma_expr_len(st, *operand, own);
            },
            Expr::Array(elems) => {
                lemma_exprs_len(st, elems@, own, 0);
            },
            Expr::Tuple(elems) => {
                lemma_exprs_len(st, elems@, own, 0);
            },
            Expr::Dict(values) => {
                lemma_exprs_len(st, values@, own, 0);
            },
            Expr::Record(defs) => {
                lemma_record_len(st, defs@, own, 0);
            },
            Expr::Lambda(lam) => {
                let st1 = st_push(st, lambda_name(lam.id as nat), Visibility::Private);
                lemma_exprs_len(st1, lam.body@, Ownership::Owned, 0);
            },
            Expr::Lit => {},
        }
    }
}

/// Checking a call keeps the stack's depth.
pub proof fn lemma_call_len(st: St, c: Call)
    ensures
        sem_call(st, c).scopes.len() == st.scopes.len(),
    decreases c, 2nat,
{
    if !st.fault {
        match c.args_ownership {
            ArgsOwnership::Args { self_, non_defaults, defaults } => {
                let st1 = match self_ {
                    Some(o) => sem_expr(st, *c.obj, o),
                    None => st,
                };
                if self_ is Some {
                    lemma_expr_len(st, *c.obj, self_->0);
                }
                let cut = if c.pos_args@.len() <= non_defaults@.len() {
                    c.pos_args@.len() as int
                } else {
                    non_defaults@.len() as int
                };
                let st2 = sem_args(st1, c.pos_args@, non_defaults@, 0);
                lemma_args_len(st1, c.pos_args@, non_defaults@, 0);
                lemma_args_len(st2, c.kw_args@, non_defaults@.skip(cut) + defaults@, 0);
            },
            ArgsOwnership::VarArgs(o) => {
                let st1 = sem_exprs(st, c.pos_args@, o, 0);
                lemma_exprs_len(st, c.pos_args@, o, 0);
                lemma_exprs_len(st1, c.kw_args@, o, 0);
            },
        }
    }
}

/// Checking a statement sequence keeps the stack's depth.
pub proof fn lemma_exprs_len(st: St, es: Seq<Expr>, own: Ownership, i: int)
    ensures
        sem_exprs(st, es, own, i).scopes.len() == st.scopes.len(),
    decreases es, es.len() - i,
{
    if 0 <= i < es.len() {
        lemma_expr_len(st, es[i], own);
        lemma_exprs_len(sem_expr(st, es[i], own), es, own, i + 1);
    }
}

/// Checking an argument sequence keeps the stack's depth.
pub proof fn lemma_args_len(st: St, args: Seq<Expr>, owns: Seq<Ownership>, i: int)
    ensures
        sem_args(st, args, owns, i).scopes.len() == st.scopes.len(),
    decreases args, args.len() - i,
{
    if 0 <= i < args.len() && i < owns.len() {
        lemma_expr_len(st, args[i], owns[i]);
        lemma_args_len(sem_expr(st, args[i], owns[i]), args, owns, i + 1);
    }
}

/// Checking a record's field definitions keeps the stack's depth.
pub proof fn lemma_record_len(st: St, defs: Seq<Def>, own: Ownership, i: int)
    ensures
        sem_record(st, defs, own, i).scopes.len() == st.scopes.len(),
    decreases defs, defs.len() - i,
{
    if 0 <= i < defs.len() {
        lemma_exprs_len(st, defs[i].body@, own, 0);
        lemma_record_len(sem_exprs(st, defs[i].body@, own, 0), defs, own, i + 1);
    }
}

} // verus!
