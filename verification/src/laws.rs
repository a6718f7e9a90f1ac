//! Laws of the pass, proved about the model in `sem`.
//!
//! The executable checker's contracts state that it computes exactly what the
//! model computes, so each law proved here holds of the executable pass.

use vstd::prelude::*;

use crate::hir::Call;
use crate::hir::Def;
use crate::hir::Expr;
use crate::hir::HIR;
use crate::hir::Location;
use crate::hir::Ownership;
use crate::hir::VarRef;
use crate::sem::cid_errs;
use crate::sem::innermost_alive;
use crate::sem::lemma_innermost_bounds;
use crate::sem::moved_somewhere;
use crate::sem::sem_call;
use crate::sem::sem_check_if_dropped;
use crate::sem::sem_drop;
use crate::sem::sem_expr;
use crate::sem::sem_exprs;
use crate::sem::sem_args;
use crate::sem::sem_hir;
use crate::sem::sem_record;
use crate::sem::sem_ref;
use crate::sem::sem_define;
use crate::sem::st_init;
use crate::sem::st_push;
use crate::sem::ScopeModel;
use crate::sem::ErrModel;
use crate::sem::St;

verus! {

/// `a` is a prefix of `b`: earlier diagnostics survive, in their order.
pub open spec fn errs_prefix(a: Seq<ErrModel>, b: Seq<ErrModel>) -> bool {
    a.len() <= b.len() && b.take(a.len() as int) == a
}

proof fn lemma_prefix_trans(a: Seq<ErrModel>, b: Seq<ErrModel>, c: Seq<ErrModel>)
    requires
        errs_prefix(a, b),
        errs_prefix(b, c),
    ensures
        errs_prefix(a, c),
{
    assert forall|i: int| 0 <= i < a.len() implies c.take(a.len() as int)[i] == a[i] by {
        assert(b.take(a.len() as int)[i] == a[i]);
        assert(c.take(b.len() as int)[i] == b[i]);
    }
    assert(c.take(a.len() as int) =~= a);
}

proof fn lemma_prefix_concat(a: Seq<ErrModel>, x: Seq<ErrModel>)
    ensures
        errs_prefix(a, a + x),
{
    assert((a + x).take(a.len() as int) =~= a);
}

proof fn lemma_prefix_refl(a: Seq<ErrModel>)
    ensures
        errs_prefix(a, a),
{
    assert(a.take(a.len() as int) =~= a);
}

/// Error ordering: checking an expression only appends diagnostics; what was
/// already collected stays, in place and in order. Discovery order is thus
/// exactly the order of the collected sequence.
pub proof fn lemma_expr_errs_prefix(st: St, e: Expr, own: Ownership)
    ensures
        errs_prefix(st.errs, sem_expr(st, e, own).errs),
    decreases e, 0nat,
{
    lemma_prefix_refl(st.errs);
    if !st.fault {
        match e {
            Expr::Def(def) => {
                let st1 = crate::sem::sem_define(st, def.sig);
                let st2 = crate::sem::st_push(
                    st1,
                    crate::sem::sig_scope_name(def.sig),
                    crate::sem::sig_vis(def.sig),
                );
                lemma_exprs_errs_prefix(st2, def.body@, Ownership::Owned, 0);
                assert(errs_prefix(st.errs, st2.errs));
                lemma_prefix_trans(
                    st.errs,
                    st2.errs,
                    sem_exprs(st2, def.body@, Ownership::Owned, 0).errs,
                );
            },
            Expr::Local(v) => {
                lemma_ref_errs_prefix(st, v, own);
            },
            Expr::Public(v) => {
                lemma_ref_errs_prefix(st, v, own);
            },
            Expr::Attr(obj) => {
                lemma_expr_errs_prefix(st, *obj, own);
            },
            Expr::Call(c) => {
                lemma_call_errs_prefix(st, c);
            },
            Expr::BinOp(lhs, rhs) => {
                lemma_expr_errs_prefix(st, *lhs, own);
                lemma_expr_errs_prefix(sem_expr(st, *lhs, own), *rhs, own);
                lemma_prefix_trans(
                    st.errs,
                    sem_expr(st, *lhs, own).errs,
                    sem_expr(sem_expr(st, *lhs, own), *rhs, own).errs,
                );
            },
            Expr::UnaryOp(operand) => {
                lemma_expr_errs_prefix(st, *operand, own);
            },
            Expr::Array(elems) => {
                lemma_exprs_errs_prefix(st, elems@, own, 0);
            },
            Expr::Tuple(elems) => {
                lemma_exprs_errs_prefix(st, elems@, own, 0);
            },
            Expr::Dict(values) => {
                lemma_exprs_errs_prefix(st, values@, own, 0);
            },
            Expr::Record(defs) => {
                lemma_record_errs_prefix(st, defs@, own, 0);
            },
            Expr::Lambda(lam) => {
                let st1 = crate::sem::st_push(
                    st,
                    crate::sem::lambda_name(lam.id as nat),
                    crate::hir::Visibility::Private,
                );
                lemma_exprs_errs_prefix(st1, lam.body@, Ownership::Owned, 0);
            },
            Expr::Lit => {},
        }
    }
}

/// One reference only appends diagnostics.
proof fn lemma_ref_errs_prefix(st: St, v: VarRef, own: Ownership)
    ensures
        errs_prefix(st.errs, sem_ref(st, v, own).errs),
{
    lemma_prefix_refl(st.errs);
    if !st.fault {
        lemma_prefix_concat(
            st.errs,
            cid_errs(
                st.scopes,
                v.name@,
                v.loc,
                crate::sem::path_of(st.scopes),
                st.scopes.len() as int,
            ),
        );
    }
}

/// A call only appends diagnostics.
pub proof fn lemma_call_errs_prefix(st: St, c: Call)
    ensures
        errs_prefix(st.errs, sem_call(st, c).errs),
    decreases c, 2nat,
{
    lemma_prefix_refl(st.errs);
    if !st.fault {
        match c.args_ownership {
            crate::hir::ArgsOwnership::Args { self_, non_defaults, defaults } => {
                let st1 = match self_ {
                    Some(o) => sem_expr(st, *c.obj, o),
                    None => st,
                };
                if self_ is Some {
                    lemma_expr_errs_prefix(st, *c.obj, self_->0);
                }
                let cut = if c.pos_args@.len() <= non_defaults@.len() {
                    c.pos_args@.len() as int
                } else {
                    non_defaults@.len() as int
                };
                let st2 = sem_args(st1, c.pos_args@, non_defaults@, 0);
                lemma_args_errs_prefix(st1, c.pos_args@, non_defaults@, 0);
                let leftover = non_defaults@.skip(cut) + defaults@;
                lemma_args_errs_prefix(st2, c.kw_args@, leftover, 0);
                lemma_prefix_trans(st.errs, st1.errs, st2.errs);
                lemma_prefix_trans(st.errs, st2.errs, sem_args(st2, c.kw_args@, leftover, 0).errs);
            },
            crate::hir::ArgsOwnership::VarArgs(o) => {
                let st1 = sem_exprs(st, c.pos_args@, o, 0);
                lemma_exprs_errs_prefix(st, c.pos_args@, o, 0);
                lemma_exprs_errs_prefix(st1, c.kw_args@, o, 0);
                lemma_prefix_trans(st.errs, st1.errs, sem_exprs(st1, c.kw_args@, o, 0).errs);
            },
        }
    }
}

/// A statement sequence only appends diagnostics.
pub proof fn lemma_exprs_errs_prefix(st: St, es: Seq<Expr>, own: Ownership, i: int)
    ensures
        errs_prefix(st.errs, sem_exprs(st, es, own, i).errs),
    decreases es, es.len() - i,
{
    if 0 <= i < es.len() {
        lemma_expr_errs_prefix(st, es[i], own);
        let st1 = sem_expr(st, es[i], own);
        lemma_exprs_errs_prefix(st1, es, own, i + 1);
        lemma_prefix_trans(st.errs, st1.errs, sem_exprs(st1, es, own, i + 1).errs);
    } else {
        assert(sem_exprs(st, es, own, i).errs.take(st.errs.len() as int) =~= st.errs);
    }
}

/// An argument sequence only appends diagnostics.
pub proof fn lemma_args_errs_prefix(st: St, args: Seq<Expr>, owns: Seq<Ownership>, i: int)
    ensures
        errs_prefix(st.errs, sem_args(st, args, owns, i).errs),
    decreases args, args.len() - i,
{
    if 0 <= i < args.len() && i < owns.len() {
        lemma_expr_errs_prefix(st, args[i], owns[i]);
        let st1 = sem_expr(st, args[i], owns[i]);
        lemma_args_errs_prefix(st1, args, owns, i + 1);
        lemma_prefix_trans(st.errs, st1.errs, sem_args(st1, args, owns, i + 1).errs);
    } else {
        assert(sem_args(st, args, owns, i).errs.take(st.errs.len() as int) =~= st.errs);
    }
}

/// A record literal only appends diagnostics.
pub proof fn lemma_record_errs_prefix(st: St, defs: Seq<Def>, own: Ownership, i: int)
    ensures
        errs_prefix(st.errs, sem_record(st, defs, own, i).errs),
    decreases defs, defs.len() - i,
{
    if 0 <= i < defs.len() {
        lemma_exprs_errs_prefix(st, defs[i].body@, own, 0);
        let st1 = sem_exprs(st, defs[i].body@, own, 0);
        lemma_record_errs_prefix(st1, defs, own, i + 1);
        lemma_prefix_trans(st.errs, st1.errs, sem_record(st1, defs, own, i + 1).errs);
    } else {
        assert(sem_record(st, defs, own, i).errs.take(st.errs.len() as int) =~= st.errs);
    }
}

/// Every diagnostic the check-if-dropped scan produces names the scanned
/// binding at the scanned reference site.
proof fn lemma_cid_named(scopes: Seq<crate::sem::ScopeModel>, n: Seq<char>, loc: Location, path: Seq<char>, k: int)
    ensures
        forall|x: int|
            0 <= x < cid_errs(scopes, n, loc, path, k).len() ==> (#[trigger] cid_errs(
                scopes,
                n,
                loc,
                path,
                k,
            )[x]).name == n && cid_errs(scopes, n, loc, path, k)[x].loc == loc,
    decreases k,
{
    if 0 < k <= scopes.len() {
        lemma_cid_named(scopes, n, loc, path, k - 1);
        let prev = cid_errs(scopes, n, loc, path, k - 1);
        let cur = cid_errs(scopes, n, loc, path, k);
        assert forall|x: int| 0 <= x < cur.len() implies (#[trigger] cur[x]).name == n
            && cur[x].loc == loc by {
            if x < prev.len() {
                assert(cur[x] == prev[x]);
            }
        }
    }
}

/// The check-if-dropped scan reports something exactly when some scanned
/// scope records the name as moved.
proof fn lemma_cid_nonempty(scopes: Seq<crate::sem::ScopeModel>, n: Seq<char>, loc: Location, path: Seq<char>, k: int)
    requires
        0 <= k <= scopes.len(),
    ensures
        cid_errs(scopes, n, loc, path, k).len() > 0 <==> exists|j: int|
            scopes.len() - k <= j < scopes.len() && (#[trigger] scopes[j]).moved.contains_key(n),
    decreases k,
{
    if k > 0 {
        lemma_cid_nonempty(scopes, n, loc, path, k - 1);
        if scopes[scopes.len() - k].moved.contains_key(n) {
            assert(scopes.len() - k <= scopes.len() - k < scopes.len());
        }
    }
}

/// No false success, one reference: a reference to a binding that some open
/// scope records as moved adds at least one diagnostic, and every added
/// diagnostic names that binding at that reference.
pub proof fn lemma_reference_reports(st: St, v: VarRef, own: Ownership)
    requires
        !st.fault,
        moved_somewhere(st.scopes, v.name@),
    ensures
        sem_ref(st, v, own).errs.len() > st.errs.len(),
        forall|x: int|
            st.errs.len() <= x < sem_ref(st, v, own).errs.len() ==> (#[trigger] sem_ref(
                st,
                v,
                own,
            ).errs[x]).name == v.name@ && sem_ref(st, v, own).errs[x].loc == v.loc,
{
    let path = crate::sem::path_of(st.scopes);
    let k = st.scopes.len() as int;
    lemma_cid_nonempty(st.scopes, v.name@, v.loc, path, k);
    lemma_cid_named(st.scopes, v.name@, v.loc, path, k);
    let cids = cid_errs(st.scopes, v.name@, v.loc, path, k);
    let st1 = sem_check_if_dropped(st, v.name@, v.loc);
    assert(st1.errs == st.errs + cids);
    assert forall|x: int| st.errs.len() <= x < st1.errs.len() implies (#[trigger] st1.errs[x]).name
        == v.name@ && st1.errs[x].loc == v.loc by {
        assert(st1.errs[x] == cids[x - st.errs.len()]);
    }
}

/// No false success, composed over a statement sequence: when statement `j`
/// is reached in a state that records the binding as moved in some open
/// scope, and that statement is a reference to the binding, the finished pass
/// carries a diagnostic naming the binding at that reference.
pub proof fn lemma_no_false_success(st: St, es: Seq<Expr>, own: Ownership, j: int, v: VarRef)
    requires
        !st.fault,
        0 <= j < es.len(),
        es[j] == Expr::Local(v) || es[j] == Expr::Public(v),
        moved_somewhere(st.scopes, v.name@),
    ensures
        exists|x: int|
            st.errs.len() <= x < sem_exprs(st, es, own, j).errs.len() && (#[trigger] sem_exprs(
                st,
                es,
                own,
                j,
            ).errs[x]).name == v.name@ && sem_exprs(st, es, own, j).errs[x].loc == v.loc,
{
    let st1 = sem_expr(st, es[j], own);
    assert(st1 == sem_ref(st, v, own));
    lemma_reference_reports(st, v, own);
    let x = st.errs.len() as int;
    let fin = sem_exprs(st1, es, own, j + 1);
    lemma_exprs_errs_prefix(st1, es, own, j + 1);
    assert(fin.errs.take(st1.errs.len() as int) == st1.errs);
    assert(fin.errs[x] == st1.errs[x]);
    assert(sem_exprs(st, es, own, j) == fin);
}

/// Shadowing, and where a move lands: consuming a reference moves the
/// binding in the innermost open scope that holds it alive, records this
/// reference's location there, and leaves every other open scope exactly as
/// it was. A same-named binding of an outer scope (or an inner shadow of a
/// moved outer binding) is never marked by it.
pub proof fn lemma_move_targets_innermost(st: St, v: VarRef, own: Ownership)
    requires
        !st.fault,
        v.is_mut,
        own == Ownership::Owned,
        innermost_alive(st.scopes, v.name@) >= 0,
    ensures
        ({
            let i = innermost_alive(st.scopes, v.name@);
            let r = sem_ref(st, v, own);
            &&& !r.fault
            &&& r.scopes.len() == st.scopes.len()
            &&& r.scopes[i].moved.contains_key(v.name@)
            &&& r.scopes[i].moved[v.name@] == v.loc
            &&& r.scopes[i].alive == st.scopes[i].alive.remove(v.name@)
            &&& forall|k: int| 0 <= k < st.scopes.len() && k != i ==> r.scopes[k] == st.scopes[k]
            &&& moved_somewhere(r.scopes, v.name@)
        }),
{
    lemma_innermost_bounds(st.scopes, v.name@);
    let i = innermost_alive(st.scopes, v.name@);
    let st1 = sem_check_if_dropped(st, v.name@, v.loc);
    assert(st1.scopes == st.scopes);
    let r = sem_drop(st1, v.name@, v.loc);
    assert(r.scopes[i].moved.contains_key(v.name@));
}

/// Idempotence of success: the pass neither changes the tree nor keeps any
/// state between runs, so a fresh checker on the tree a successful run
/// returned (the input itself) succeeds again with the same, empty, outcome.
pub proof fn lemma_success_idempotent(hir: HIR)
    requires
        sem_hir(st_init(), hir).errs.len() == 0,
    ensures
        sem_hir(st_init(), hir).errs.len() == 0,
{
}

/// No reference in the expression is to a move-only binding.
pub open spec fn no_mut_refs(e: Expr) -> bool
    decreases e, 0nat,
{
    match e {
        Expr::Def(def) => no_mut_refs_list(def.body@, 0),
        Expr::Local(v) => !v.is_mut,
        Expr::Public(v) => !v.is_mut,
        Expr::Attr(obj) => no_mut_refs(*obj),
        Expr::Call(c) => no_mut_refs_call(c),
        Expr::BinOp(lhs, rhs) => no_mut_refs(*lhs) && no_mut_refs(*rhs),
        Expr::UnaryOp(operand) => no_mut_refs(*operand),
        Expr::Array(elems) => no_mut_refs_list(elems@, 0),
        Expr::Tuple(elems) => no_mut_refs_list(elems@, 0),
        Expr::Dict(values) => no_mut_refs_list(values@, 0),
        Expr::Record(defs) => no_mut_refs_defs(defs@, 0),
        Expr::Lambda(lam) => no_mut_refs_list(lam.body@, 0),
        Expr::Lit => true,
    }
}

pub open spec fn no_mut_refs_call(c: Call) -> bool
    decreases c, 2nat,
{
    no_mut_refs(*c.obj) && no_mut_refs_list(c.pos_args@, 0) && no_mut_refs_list(c.kw_args@, 0)
}

pub open spec fn no_mut_refs_list(es: Seq<Expr>, i: int) -> bool
    decreases es, es.len() - i,
{
    if i < 0 || i >= es.len() {
        true
    } else {
        no_mut_refs(es[i]) && no_mut_refs_list(es, i + 1)
    }
}

pub open spec fn no_mut_refs_defs(defs: Seq<Def>, i: int) -> bool
    decreases defs, defs.len() - i,
{
    if i < 0 || i >= defs.len() {
        true
    } else {
        no_mut_refs_list(defs[i].body@, 0) && no_mut_refs_defs(defs, i + 1)
    }
}

/// No open scope records any move.
pub open spec fn all_moved_empty(scopes: Seq<ScopeModel>) -> bool {
    forall|k: int|
        0 <= k < scopes.len() ==> (#[trigger] scopes[k]).moved == Map::<Seq<char>, Location>::empty()
}

/// With no recorded move anywhere, a reference reports nothing.
proof fn lemma_cid_empty(scopes: Seq<crate::sem::ScopeModel>, n: Seq<char>, loc: Location, path: Seq<char>)
    requires
        all_moved_empty(scopes),
    ensures
        cid_errs(scopes, n, loc, path, scopes.len() as int) == Seq::<ErrModel>::empty(),
{
    lemma_cid_nonempty(scopes, n, loc, path, scopes.len() as int);
    assert(cid_errs(scopes, n, loc, path, scopes.len() as int) =~= Seq::<ErrModel>::empty());
}

/// Checking an expression with no move-only reference, in a state with no
/// recorded move, reports nothing, faults nowhere, and records no move.
pub proof fn lemma_copyable_expr(st: St, e: Expr, own: Ownership)
    requires
        !st.fault,
        st.scopes.len() >= 1,
        all_moved_empty(st.scopes),
        no_mut_refs(e),
    ensures
        !sem_expr(st, e, own).fault,
        sem_expr(st, e, own).errs == st.errs,
        sem_expr(st, e, own).scopes.len() == st.scopes.len(),
        all_moved_empty(sem_expr(st, e, own).scopes),
    decreases e, 0nat,
{
    match e {
        Expr::Def(def) => {
            let st1 = sem_define(st, def.sig);
            assert forall|k: int| 0 <= k < st1.scopes.len() implies (#[trigger] st1.scopes[k]).moved
                == Map::<Seq<char>, Location>::empty() by {
                assert(st1.scopes[k].moved == st.scopes[k].moved);
            }
            let st2 = st_push(
                st1,
                crate::sem::sig_scope_name(def.sig),
                crate::sem::sig_vis(def.sig),
            );
            assert forall|k: int| 0 <= k < st2.scopes.len() implies (#[trigger] st2.scopes[k]).moved
                == Map::<Seq<char>, Location>::empty() by {
                if k < st1.scopes.len() {
                    assert(st2.scopes[k] == st1.scopes[k]);
                }
            }
            lemma_copyable_list(st2, def.body@, Ownership::Owned, 0);
            let st3 = sem_exprs(st2, def.body@, Ownership::Owned, 0);
            assert forall|k: int| 0 <= k < st3.scopes.drop_last().len() implies (
            #[trigger] st3.scopes.drop_last()[k]).moved == Map::<Seq<char>, Location>::empty() by {
                assert(st3.scopes.drop_last()[k] == st3.scopes[k]);
            }
        },
        Expr::Local(v) => {
            lemma_cid_empty(st.scopes, v.name@, v.loc, crate::sem::path_of(st.scopes));
            assert(st.errs + Seq::<ErrModel>::empty() =~= st.errs);
        },
        Expr::Public(v) => {
            lemma_cid_empty(st.scopes, v.name@, v.loc, crate::sem::path_of(st.scopes));
            assert(st.errs + Seq::<ErrModel>::empty() =~= st.errs);
        },
        Expr::Attr(obj) => {
            lemma_copyable_expr(st, *obj, own);
        },
        Expr::Call(c) => {
            lemma_copyable_call(st, c);
        },
        Expr::BinOp(lhs, rhs) => {
            lemma_copyable_expr(st, *lhs, own);
            lemma_copyable_expr(sem_expr(st, *lhs, own), *rhs, own);
        },
        Expr::UnaryOp(operand) => {
            lemma_copyable_expr(st, *operand, own);
        },
        Expr::Array(elems) => {
            lemma_copyable_list(st, elems@, own, 0);
        },
        Expr::Tuple(elems) => {
            lemma_copyable_list(st, elems@, own, 0);
        },
        Expr::Dict(values) => {
            lemma_copyable_list(st, values@, own, 0);
        },
        Expr::Record(defs) => {
            lemma_copyable_defs(st, defs@, own, 0);
        },
        Expr::Lambda(lam) => {
            let st1 = st_push(st, crate::sem::lambda_name(lam.id as nat), crate::hir::Visibility::Private);
            assert forall|k: int| 0 <= k < st1.scopes.len() implies (#[trigger] st1.scopes[k]).moved
                == Map::<Seq<char>, Location>::empty() by {
                if k < st.scopes.len() {
                    assert(st1.scopes[k] == st.scopes[k]);
                }
            }
            lemma_copyable_list(st1, lam.body@, Ownership::Owned, 0);
            let st2 = sem_exprs(st1, lam.body@, Ownership::Owned, 0);
            assert forall|k: int| 0 <= k < st2.scopes.drop_last().len() implies (
            #[trigger] st2.scopes.drop_last()[k]).moved == Map::<Seq<char>, Location>::empty() by {
                assert(st2.scopes.drop_last()[k] == st2.scopes[k]);
            }
        },
        Expr::Lit => {},
    }
}

proof fn lemma_copyable_call(st: St, c: Call)
    requires
        !st.fault,
        st.scopes.len() >= 1,
        all_moved_empty(st.scopes),
        no_mut_refs_call(c),
    ensures
        !sem_call(st, c).fault,
        sem_call(st, c).errs == st.errs,
        sem_call(st, c).scopes.len() == st.scopes.len(),
        all_moved_empty(sem_call(st, c).scopes),
    decreases c, 2nat,
{
    match c.args_ownership {
        crate::hir::ArgsOwnership::Args { self_, non_defaults, defaults } => {
            let st1 = match self_ {
                Some(o) => sem_expr(st, *c.obj, o),
                None => st,
            };
            if self_ is Some {
                lemma_copyable_expr(st, *c.obj, self_->0);
            }
            let cut = if c.pos_args@.len() <= non_defaults@.len() {
                c.pos_args@.len() as int
            } else {
                non_defaults@.len() as int
            };
            let st2 = sem_args(st1, c.pos_args@, non_defaults@, 0);
            lemma_copyable_args(st1, c.pos_args@, non_defaults@, 0);
            lemma_copyable_args(st2, c.kw_args@, non_defaults@.skip(cut) + defaults@, 0);
        },
        crate::hir::ArgsOwnership::VarArgs(o) => {
            let st1 = sem_exprs(st, c.pos_args@, o, 0);
            lemma_copyable_list(st, c.pos_args@, o, 0);
            lemma_copyable_list(st1, c.kw_args@, o, 0);
        },
    }
}

proof fn lemma_copyable_list(st: St, es: Seq<Expr>, own: Ownership, i: int)
    requires
        !st.fault,
        st.scopes.len() >= 1,
        all_moved_empty(st.scopes),
        no_mut_refs_list(es, i),
    ensures
        !sem_exprs(st, es, own, i).fault,
        sem_exprs(st, es, own, i).errs == st.errs,
        sem_exprs(st, es, own, i).scopes.len() == st.scopes.len(),
        all_moved_empty(sem_exprs(st, es, own, i).scopes),
    decreases es, es.len() - i,
{
    if 0 <= i < es.len() {
        lemma_copyable_expr(st, es[i], own);
        lemma_copyable_list(sem_expr(st, es[i], own), es, own, i + 1);
    }
}

proof fn lemma_copyable_args(st: St, args: Seq<Expr>, owns: Seq<Ownership>, i: int)
    requires
        !st.fault,
        st.scopes.len() >= 1,
        all_moved_empty(st.scopes),
        no_mut_refs_list(args, i),
    ensures
        !sem_args(st, args, owns, i).fault,
        sem_args(st, args, owns, i).errs == st.errs,
        sem_args(st, args, owns, i).scopes.len() == st.scopes.len(),
        all_moved_empty(sem_args(st, args, owns, i).scopes),
    decreases args, args.len() - i,
{
    if 0 <= i < args.len() && i < owns.len() {
        lemma_copyable_expr(st, args[i], owns[i]);
        lemma_copyable_args(sem_expr(st, args[i], owns[i]), args, owns, i + 1);
    }
}

proof fn lemma_copyable_defs(st: St, defs: Seq<Def>, own: Ownership, i: int)
    requires
        !st.fault,
        st.scopes.len() >= 1,
        all_moved_empty(st.scopes),
        no_mut_refs_defs(defs, i),
    ensures
        !sem_record(st, defs, own, i).fault,
        sem_record(st, defs, own, i).errs == st.errs,
        sem_record(st, defs, own, i).scopes.len() == st.scopes.len(),
        all_moved_empty(sem_record(st, defs, own, i).scopes),
    decreases defs, defs.len() - i,
{
    if 0 <= i < defs.len() {
        lemma_copyable_list(st, defs[i].body@, own, 0);
        lemma_copyable_defs(sem_exprs(st, defs[i].body@, own, 0), defs, own, i + 1);
    }
}

/// No false failure, the copyable clause: a program in which no reference is
/// to a move-only binding passes with zero diagnostics, however often each
/// binding is referenced.
pub proof fn lemma_no_false_failure_copyable(hir: HIR)
    requires
        no_mut_refs_list(hir.module@, 0),
    ensures
        !sem_hir(st_init(), hir).fault,
        sem_hir(st_init(), hir).errs.len() == 0,
{
    let st1 = st_push(st_init(), hir.name@, crate::hir::Visibility::Private);
    assert(all_moved_empty(st1.scopes));
    lemma_copyable_list(st1, hir.module@, Ownership::Owned, 0);
}

/// Recorded moves persist: checking an expression never removes a name from
/// the moved map of a scope that was already open, so a move stays visible
/// to every later reference while its scope is open.
pub proof fn lemma_expr_moved_persists(st: St, e: Expr, own: Ownership)
    ensures
        sem_expr(st, e, own).scopes.len() == st.scopes.len(),
        forall|k: int|
            0 <= k < st.scopes.len() ==> (#[trigger] st.scopes[k]).moved.dom().subset_of(
                sem_expr(st, e, own).scopes[k].moved.dom(),
            ),
    decreases e, 0nat,
{
    crate::sem::lemma_expr_len(st, e, own);
    if !st.fault {
        match e {
            Expr::Def(def) => {
                let st1 = sem_define(st, def.sig);
                let st2 = st_push(
                    st1,
                    crate::sem::sig_scope_name(def.sig),
                    crate::sem::sig_vis(def.sig),
                );
                crate::sem::lemma_exprs_len(st2, def.body@, Ownership::Owned, 0);
                lemma_exprs_moved_persists(st2, def.body@, Ownership::Owned, 0);
                let st3 = sem_exprs(st2, def.body@, Ownership::Owned, 0);
                assert forall|k: int| 0 <= k < st.scopes.len() implies (
                #[trigger] st.scopes[k]).moved.dom().subset_of(
                    st3.scopes.drop_last()[k].moved.dom(),
                ) by {
                    assert(st2.scopes[k].moved == st.scopes[k].moved);
                    assert(st3.scopes.drop_last()[k] == st3.scopes[k]);
                }
            },
            Expr::Local(v) => {
                lemma_ref_moved_persists(st, v, own);
            },
            Expr::Public(v) => {
                lemma_ref_moved_persists(st, v, own);
            },
            Expr::Attr(obj) => {
                lemma_expr_moved_persists(st, *obj, own);
            },
            Expr::Call(c) => {
                lemma_call_moved_persists(st, c);
            },
            Expr::BinOp(lhs, rhs) => {
                lemma_expr_moved_persists(st, *lhs, own);
                lemma_expr_moved_persists(sem_expr(st, *lhs, own), *rhs, own);
            },
            Expr::UnaryOp(operand) => {
                lemma_expr_moved_persists(st, *operand, own);
            },
            Expr::Array(elems) => {
                lemma_exprs_moved_persists(st, elems@, own, 0);
            },
            Expr::Tuple(elems) => {
                lemma_exprs_moved_persists(st, elems@, own, 0);
            },
            Expr::Dict(values) => {
                lemma_exprs_moved_persists(st, values@, own, 0);
            },
            Expr::Record(defs) => {
                lemma_defs_moved_persists(st, defs@, own, 0);
            },
            Expr::Lambda(lam) => {
                let st1 = st_push(
                    st,
                    crate::sem::lambda_name(lam.id as nat),
                    crate::hir::Visibility::Private,
                );
                crate::sem::lemma_exprs_len(st1, lam.body@, Ownership::Owned, 0);
                lemma_exprs_moved_persists(st1, lam.body@, Ownership::Owned, 0);
                let st2 = sem_exprs(st1, lam.body@, Ownership::Owned, 0);
                assert forall|k: int| 0 <= k < st.scopes.len() implies (
                #[trigger] st.scopes[k]).moved.dom().subset_of(
                    st2.scopes.drop_last()[k].moved.dom(),
                ) by {
                    assert(st1.scopes[k].moved == st.scopes[k].moved);
                    assert(st2.scopes.drop_last()[k] == st2.scopes[k]);
                }
            },
            Expr::Lit => {},
        }
    }
}

proof fn lemma_ref_moved_persists(st: St, v: VarRef, own: Ownership)
    ensures
        sem_ref(st, v, own).scopes.len() == st.scopes.len(),
        forall|k: int|
            0 <= k < st.scopes.len() ==> (#[trigger] st.scopes[k]).moved.dom().subset_of(
                sem_ref(st, v, own).scopes[k].moved.dom(),
            ),
{
    if !st.fault {
        lemma_innermost_bounds(st.scopes, v.name@);
    }
}

proof fn lemma_call_moved_persists(st: St, c: Call)
    ensures
        sem_call(st, c).scopes.len() == st.scopes.len(),
        forall|k: int|
            0 <= k < st.scopes.len() ==> (#[trigger] st.scopes[k]).moved.dom().subset_of(
                sem_call(st, c).scopes[k].moved.dom(),
            ),
    decreases c, 2nat,
{
    crate::sem::lemma_call_len(st, c);
    if !st.fault {
        match c.args_ownership {
            crate::hir::ArgsOwnership::Args { self_, non_defaults, defaults } => {
                let st1 = match self_ {
                    Some(o) => sem_expr(st, *c.obj, o),
                    None => st,
                };
                if self_ is Some {
                    lemma_expr_moved_persists(st, *c.obj, self_->0);
                }
                let cut = if c.pos_args@.len() <= non_defaults@.len() {
                    c.pos_args@.len() as int
                } else {
                    non_defaults@.len() as int
                };
                let st2 = sem_args(st1, c.pos_args@, non_defaults@, 0);
                lemma_args_moved_persists(st1, c.pos_args@, non_defaults@, 0);
                lemma_args_moved_persists(st2, c.kw_args@, non_defaults@.skip(cut) + defaults@, 0);
            },
            crate::hir::ArgsOwnership::VarArgs(o) => {
                let st1 = sem_exprs(st, c.pos_args@, o, 0);
                lemma_exprs_moved_persists(st, c.pos_args@, o, 0);
                lemma_exprs_moved_persists(st1, c.kw_args@, o, 0);
            },
        }
    }
}

proof fn lemma_exprs_moved_persists(st: St, es: Seq<Expr>, own: Ownership, i: int)
    ensures
        sem_exprs(st, es, own, i).scopes.len() == st.scopes.len(),
        forall|k: int|
            0 <= k < st.scopes.len() ==> (#[trigger] st.scopes[k]).moved.dom().subset_of(
                sem_exprs(st, es, own, i).scopes[k].moved.dom(),
            ),
    decreases es, es.len() - i,
{
    crate::sem::lemma_exprs_len(st, es, own, i);
    if 0 <= i < es.len() {
        lemma_expr_moved_persists(st, es[i], own);
        lemma_exprs_moved_persists(sem_expr(st, es[i], own), es, own, i + 1);
    }
}

proof fn lemma_args_moved_persists(st: St, args: Seq<Expr>, owns: Seq<Ownership>, i: int)
    ensures
        sem_args(st, args, owns, i).scopes.len() == st.scopes.len(),
        forall|k: int|
            0 <= k < st.scopes.len() ==> (#[trigger] st.scopes[k]).moved.dom().subset_of(
                sem_args(st, args, owns, i).scopes[k].moved.dom(),
            ),
    decreases args, args.len() - i,
{
    crate::sem::lemma_args_len(st, args, owns, i);
    if 0 <= i < args.len() && i < owns.len() {
        lemma_expr_moved_persists(st, args[i], owns[i]);
        lemma_args_moved_persists(sem_expr(st, args[i], owns[i]), args, owns, i + 1);
    }
}

proof fn lemma_defs_moved_persists(st: St, defs: Seq<Def>, own: Ownership, i: int)
    ensures
        sem_record(st, defs, own, i).scopes.len() == st.scopes.len(),
        forall|k: int|
            0 <= k < st.scopes.len() ==> (#[trigger] st.scopes[k]).moved.dom().subset_of(
                sem_record(st, defs, own, i).scopes[k].moved.dom(),
            ),
    decreases defs, defs.len() - i,
{
    crate::sem::lemma_record_len(st, defs, own, i);
    if 0 <= i < defs.len() {
        lemma_exprs_moved_persists(st, defs[i].body@, own, 0);
        lemma_defs_moved_persists(sem_exprs(st, defs[i].body@, own, 0), defs, own, i + 1);
    }
}

/// A recorded move stays visible across any run of further statements: if
/// some open scope records the name as moved, it still does after they are
/// checked.
pub proof fn lemma_moved_somewhere_persists(st: St, es: Seq<Expr>, own: Ownership, i: int, n: Seq<char>)
    requires
        moved_somewhere(st.scopes, n),
    ensures
        moved_somewhere(sem_exprs(st, es, own, i).scopes, n),
{
    lemma_exprs_moved_persists(st, es, own, i);
    let k = choose|k: int| 0 <= k < st.scopes.len() && (#[trigger] st.scopes[k]).moved.contains_key(n);
    assert(sem_exprs(st, es, own, i).scopes[k].moved.dom().contains(n));
}

} // verus!
