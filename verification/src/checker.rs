//! The executable ownership checker, verified against the model in `sem`.
//!
//! `OwnershipChecker::check` walks a program tree once, depth first and in
//! statement order, and either returns the tree untouched or every collected
//! use-after-move diagnostic. Each executable step is proved equal to the
//! corresponding step of the model, so every law proved in `laws` holds of
//! this code.

use vstd::prelude::*;
use vstd::seq_lib::lemma_update_is_remove_insert;
use vstd::string::StringExecFns;

use crate::hir::ArgsOwnership;
use crate::hir::Call;
use crate::hir::Def;
use crate::hir::Expr;
use crate::hir::HIR;
use crate::hir::Location;
use crate::hir::OwnershipError;
use crate::hir::Ownership;
use crate::hir::Signature;
use crate::hir::VarPattern;
use crate::hir::Visibility;
use crate::sem::cid_errs;
use crate::sem::dec_rep;
use crate::sem::digit_char;
use crate::sem::err_model;
use crate::sem::errs_model;
use crate::sem::insert_names;
use crate::sem::instant_name;
use crate::sem::lambda_name;
use crate::sem::lemma_args_fault;
use crate::sem::lemma_exprs_fault;
use crate::sem::lemma_exprs_len;
use crate::sem::lemma_innermost_at;
use crate::sem::lemma_innermost_none;
use crate::sem::lemma_record_fault;
use crate::sem::path_of;
use crate::sem::ScopeModel;
use crate::sem::sem_call;
use crate::sem::sem_check_if_dropped;
use crate::sem::sem_define;
use crate::sem::sem_drop;
use crate::sem::sem_expr;
use crate::sem::sem_exprs;
use crate::sem::sem_args;
use crate::sem::sem_hir;
use crate::sem::sem_record;
use crate::sem::sem_ref;
use crate::sem::sep_of;
use crate::sem::sig_names;
use crate::sem::sig_scope_name;
use crate::sem::sig_vis;
use crate::sem::St;
use crate::sem::st_init;
use crate::sem::st_pop;
use crate::sem::st_push;

verus! {

/// The bindings of one open scope: the names still alive, and for each
/// consumed name the location of its move.
pub struct LocalVars {
    pub alive_vars: Vec<String>,
    pub dropped_vars: Vec<(String, Location)>,
}

/// One open scope: its path segment and its bindings.
pub struct ScopeFrame {
    pub name: String,
    pub vis: Visibility,
    pub vars: LocalVars,
}

/// The set of names a vector of alive bindings stands for.
pub open spec fn alive_set(s: Seq<String>) -> Set<Seq<char>>
    decreases s.len(),
{
    if s.len() == 0 {
        Set::empty()
    } else {
        alive_set(s.drop_last()).insert(s.last()@)
    }
}

/// The map a vector of (name, move location) pairs stands for; a later pair
/// overrides an earlier one with the same name.
pub open spec fn moved_map(ps: Seq<(String, Location)>) -> Map<Seq<char>, Location>
    decreases ps.len(),
{
    if ps.len() == 0 {
        Map::empty()
    } else {
        moved_map(ps.drop_last()).insert(ps.last().0@, ps.last().1)
    }
}

impl View for ScopeFrame {
    type V = ScopeModel;

    open spec fn view(&self) -> ScopeModel {
        ScopeModel {
            name: self.name@,
            vis: self.vis,
            alive: alive_set(self.vars.alive_vars@),
            moved: moved_map(self.vars.dropped_vars@),
        }
    }
}

/// The scope models a stack of frames stands for.
pub open spec fn frames_view(s: Seq<ScopeFrame>) -> Seq<ScopeModel> {
    s.map_values(|f: ScopeFrame| f@)
}

/// No two entries of `s` view to the same name.
pub open spec fn nodup(s: Seq<String>) -> bool {
    forall|i: int, j: int| 0 <= i < j < s.len() ==> s[i]@ != s[j]@
}

/// A name is in the set a vector stands for exactly when some entry views to
/// it.
proof fn lemma_alive_contains(s: Seq<String>, n: Seq<char>)
    ensures
        alive_set(s).contains(n) <==> exists|i: int| 0 <= i < s.len() && s[i]@ == n,
    decreases s.len(),
{
    if s.len() > 0 {
        lemma_alive_contains(s.drop_last(), n);
        if s.last()@ == n {
            assert(s[s.len() - 1]@ == n);
        }
        if alive_set(s.drop_last()).contains(n) {
            let i = choose|i: int| 0 <= i < s.drop_last().len() && s.drop_last()[i]@ == n;
            assert(s[i]@ == n);
        }
        if exists|i: int| 0 <= i < s.len() && s[i]@ == n {
            let i = choose|i: int| 0 <= i < s.len() && s[i]@ == n;
            if i < s.len() - 1 {
                assert(s.drop_last()[i]@ == n);
            }
        }
    }
}

/// Removing the entry of `n` from a duplicate-free vector removes exactly `n`
/// from the set it stands for.
proof fn lemma_alive_remove(s: Seq<String>, idx: int, n: Seq<char>)
    requires
        0 <= idx < s.len(),
        s[idx]@ == n,
        nodup(s),
    ensures
        alive_set(s.remove(idx)) == alive_set(s).remove(n),
        nodup(s.remove(idx)),
{
    s.remove_ensures(idx);
    let r = s.remove(idx);
    assert forall|m: Seq<char>| alive_set(r).contains(m) implies alive_set(s).remove(n).contains(
        m,
    ) by {
        lemma_alive_contains(r, m);
        lemma_alive_contains(s, m);
        let j = choose|j: int| 0 <= j < r.len() && r[j]@ == m;
        if j < idx {
            assert(s[j]@ == m);
            assert(m != n);
        } else {
            assert(s[j + 1]@ == m);
            assert(m != n);
        }
    }
    assert forall|m: Seq<char>| alive_set(s).remove(n).contains(m) implies alive_set(r).contains(
        m,
    ) by {
        lemma_alive_contains(r, m);
        lemma_alive_contains(s, m);
        let j = choose|j: int| 0 <= j < s.len() && s[j]@ == m;
        assert(j != idx);
        if j < idx {
            assert(r[j]@ == m);
        } else {
            assert(r[j - 1]@ == m);
        }
    }
    assert(alive_set(s.remove(idx)) =~= alive_set(s).remove(n));
}

/// A duplicate-free vector of alive names.
#[verifier::loop_isolation(false)]
fn vec_contains_name(v: &Vec<String>, name: &String) -> (r: bool)
    ensures
        r == alive_set(v@).contains(name@),
{
    proof {
        lemma_alive_contains(v@, name@);
    }
    let mut i: usize = 0;
    while i < v.len()
        invariant
            i <= v@.len(),
            forall|j: int| 0 <= j < i ==> v@[j]@ != name@,
        decreases v@.len() - i,
    {
        if v[i] == *name {
            return true;
        }
        i = i + 1;
    }
    false
}

/// Register one name: a set insertion on the names the vector stands for.
fn insert_alive(v: &mut Vec<String>, name: &String)
    requires
        nodup(old(v)@),
    ensures
        nodup(final(v)@),
        alive_set(final(v)@) == alive_set(old(v)@).insert(name@),
{
    if !vec_contains_name(v, name) {
        proof {
            lemma_alive_contains(v@, name@);
        }
        v.push(name.clone());
        proof {
            assert(v@.drop_last() =~= old(v)@);
        }
    } else {
        proof {
            assert(alive_set(v@) =~= alive_set(v@).insert(name@));
        }
    }
}

/// Unregister one name: a set removal on the names the vector stands for.
#[verifier::loop_isolation(false)]
fn remove_alive(v: &mut Vec<String>, name: &String)
    requires
        nodup(old(v)@),
        alive_set(old(v)@).contains(name@),
    ensures
        nodup(final(v)@),
        alive_set(final(v)@) == alive_set(old(v)@).remove(name@),
{
    proof {
        lemma_alive_contains(v@, name@);
    }
    let mut i: usize = 0;
    while i < v.len()
        invariant
            i <= v@.len(),
            forall|j: int| 0 <= j < i ==> v@[j]@ != name@,
            v == old(v),
            exists|j: int| 0 <= j < v@.len() && v@[j]@ == name@,
        decreases v@.len() - i,
    {
        if v[i] == *name {
            proof {
                lemma_alive_remove(v@, i as int, name@);
            }
            v.remove(i);
            return;
        }
        i = i + 1;
    }
    proof {
        assert(false);
    }
}

/// Looking a name up in the map a vector of pairs stands for agrees with a
/// backward scan: pairs behind the scan point do not carry the name.
proof fn lemma_moved_map_agree(ps: Seq<(String, Location)>, n: Seq<char>, m: int)
    requires
        0 <= m <= ps.len(),
        forall|j: int| m <= j < ps.len() ==> (#[trigger] ps[j]).0@ != n,
    ensures
        moved_map(ps).contains_key(n) == moved_map(ps.take(m)).contains_key(n),
        moved_map(ps).contains_key(n) ==> moved_map(ps)[n] == moved_map(ps.take(m))[n],
    decreases ps.len() - m,
{
    if m == ps.len() {
        assert(ps.take(m) =~= ps);
    } else {
        lemma_moved_map_agree(ps, n, m + 1);
        assert(ps.take(m + 1).drop_last() =~= ps.take(m));
        assert(ps.take(m + 1).last() == ps[m]);
    }
}

/// The recorded move location of a name, if any: the latest pair with that
/// name.
#[verifier::loop_isolation(false)]
fn moved_lookup(ps: &Vec<(String, Location)>, name: &String) -> (r: Option<Location>)
    ensures
        r matches Some(l) ==> moved_map(ps@).contains_key(name@) && moved_map(ps@)[name@] == l,
        r is None ==> !moved_map(ps@).contains_key(name@),
{
    let mut i: usize = ps.len();
    while i > 0
        invariant
            i <= ps@.len(),
            forall|j: int| i <= j < ps@.len() ==> (#[trigger] ps@[j]).0@ != name@,
        decreases i,
    {
        i = i - 1;
        if ps[i].0 == *name {
            proof {
                lemma_moved_map_agree(ps@, name@, i + 1);
                assert(ps@.take(i + 1).drop_last() =~= ps@.take(i as int));
                assert(ps@.take(i + 1).last() == ps@[i as int]);
            }
            return Some(ps[i].1);
        }
    }
    proof {
        lemma_moved_map_agree(ps@, name@, 0);
        assert(ps@.take(0) =~= Seq::<(String, Location)>::empty());
    }
    None
}

/// Append one decimal digit to a string.
fn push_digit(s: &mut String, d: usize)
    requires
        d < 10,
    ensures
        final(s)@ == old(s)@.push(digit_char(d as nat)),
{
    if d == 0 {
        s.append("0");
        proof {
            reveal_strlit("0");
            assert(s@ =~= old(s)@.push('0'));
        }
    } else if d == 1 {
        s.append("1");
        proof {
            reveal_strlit("1");
            assert(s@ =~= old(s)@.push('1'));
        }
    } else if d == 2 {
        s.append("2");
        proof {
            reveal_strlit("2");
            assert(s@ =~= old(s)@.push('2'));
        }
    } else if d == 3 {
        s.append("3");
        proof {
            reveal_strlit("3");
            assert(s@ =~= old(s)@.push('3'));
        }
    } else if d == 4 {
        s.append("4");
        proof {
            reveal_strlit("4");
            assert(s@ =~= old(s)@.push('4'));
        }
    } else if d == 5 {
        s.append("5");
        proof {
            reveal_strlit("5");
            assert(s@ =~= old(s)@.push('5'));
        }
    } else if d == 6 {
        s.append("6");
        proof {
            reveal_strlit("6");
            assert(s@ =~= old(s)@.push('6'));
        }
    } else if d == 7 {
        s.append("7");
        proof {
            reveal_strlit("7");
            assert(s@ =~= old(s)@.push('7'));
        }
    } else if d == 8 {
        s.append("8");
        proof {
            reveal_strlit("8");
            assert(s@ =~= old(s)@.push('8'));
        }
    } else {
        s.append("9");
        proof {
            reveal_strlit("9");
            assert(s@ =~= old(s)@.push('9'));
        }
    }
}

/// Append the decimal representation of `n` to a string.
fn push_dec(s: &mut String, n: usize)
    ensures
        final(s)@ == old(s)@ + dec_rep(n as nat),
    decreases n,
{
    if n >= 10 {
        proof {
            assert(n / 10 < n) by (nonlinear_arith)
                requires
                    n >= 10,
            ;
        }
        push_dec(s, n / 10);
        push_digit(s, n % 10);
        proof {
            assert(s@ =~= old(s)@ + dec_rep(n as nat));
        }
    } else {
        push_digit(s, n);
        proof {
            assert(s@ =~= old(s)@ + dec_rep(n as nat));
        }
    }
}

/// The synthetic scope name of a closure with identifier `id`.
fn lambda_scope_name(id: usize) -> (r: String)
    ensures
        r@ == lambda_name(id as nat),
{
    let mut s = String::new();
    s.append("<lambda_");
    push_dec(&mut s, id);
    s.append(">");
    proof {
        reveal_strlit("<lambda_");
        reveal_strlit(">");
        assert(s@ =~= lambda_name(id as nat));
    }
    s
}

/// The move/ownership checker: one instance checks one program tree, walking
/// it depth first while keeping a stack of open scopes and collecting every
/// use-after-move diagnostic.
pub struct OwnershipChecker {
    scopes: Vec<ScopeFrame>,
    errs: Vec<OwnershipError>,
}

impl View for OwnershipChecker {
    type V = St;

    closed spec fn view(&self) -> St {
        St { scopes: frames_view(self.scopes@), errs: errs_model(self.errs@), fault: false }
    }
}

impl OwnershipChecker {
    /// No vector of alive bindings holds the same name twice.
    pub closed spec fn wf(&self) -> bool {
        forall|k: int|
            0 <= k < self.scopes@.len() ==> nodup(
                (#[trigger] self.scopes@[k]).vars.alive_vars@,
            )
    }

    /// A fresh checker: no open scope, no diagnostics.
    pub fn new() -> (r: Self)
        ensures
            r@ == st_init(),
            r.wf(),
    {
        let r = OwnershipChecker { scopes: Vec::new(), errs: Vec::new() };
        proof {
            assert(r@.scopes =~= st_init().scopes);
            assert(r@.errs =~= st_init().errs);
        }
        r
    }

    /// The serialized path of the open scope stack, the key identity of the
    /// current scope: segments outermost first, each prefixed by `.` when
    /// public and by `::` when private.
    #[verifier::loop_isolation(false)]
    fn full_path(&self) -> (r: String)
        ensures
            r@ == path_of(self@.scopes),
    {
        let mut acc = String::new();
        let n = self.scopes.len();
        let mut i: usize = 0;
        while i < n
            invariant
                n == self.scopes@.len(),
                i <= n,
                acc@ == path_of(frames_view(self.scopes@).take(i as int)),
            decreases n - i,
        {
            match self.scopes[i].vis {
                Visibility::Public => {
                    acc.append(".");
                    proof {
                        reveal_strlit(".");
                        assert("."@ =~= sep_of(Visibility::Public));
                    }
                },
                Visibility::Private => {
                    acc.append("::");
                    proof {
                        reveal_strlit("::");
                        assert("::"@ =~= sep_of(Visibility::Private));
                    }
                },
            }
            acc.append(self.scopes[i].name.as_str());
            proof {
                let fv = frames_view(self.scopes@);
                assert(fv.take(i + 1).drop_last() =~= fv.take(i as int));
                assert(fv.take(i + 1).last() == fv[i as int]);
                assert(acc@ =~= path_of(fv.take(i + 1)));
            }
            i = i + 1;
        }
        proof {
            assert(frames_view(self.scopes@).take(n as int) =~= frames_view(self.scopes@));
        }
        acc
    }

    /// Check a reference against every open scope, innermost to outermost,
    /// and record one diagnostic per scope in which the name was moved.
    #[verifier::loop_isolation(false)]
    fn check_if_dropped(&mut self, name: &String, loc: Location)
        requires
            old(self).wf(),
        ensures
            final(self).wf(),
            final(self)@ == sem_check_if_dropped(old(self)@, name@, loc),
    {
        let ghost st0 = self@;
        let path = self.full_path();
        let n = self.scopes.len();
        let mut k: usize = 0;
        while k < n
            invariant
                n == self.scopes@.len(),
                k <= n,
                self.scopes == old(self).scopes,
                self.wf(),
                st0 == old(self)@,
                path@ == path_of(st0.scopes),
                errs_model(self.errs@) == st0.errs + cid_errs(
                    st0.scopes,
                    name@,
                    loc,
                    path@,
                    k as int,
                ),
            decreases n - k,
        {
            let idx = n - 1 - k;
            let ghost before = errs_model(self.errs@);
            match moved_lookup(&self.scopes[idx].vars.dropped_vars, name) {
                Some(moved_loc) => {
                    let err = OwnershipError {
                        name: name.clone(),
                        loc,
                        moved_loc,
                        scope_path: path.clone(),
                    };
                    proof {
                        assert(st0.scopes[idx as int] == self.scopes@[idx as int]@);
                    }
                    self.errs.push(err);
                    proof {
                        assert(errs_model(self.errs@) =~= before.push(err_model(err)));
                        assert(errs_model(self.errs@) =~= st0.errs + cid_errs(
                            st0.scopes,
                            name@,
                            loc,
                            path@,
                            k + 1,
                        ));
                    }
                },
                None => {
                    proof {
                        assert(st0.scopes[idx as int] == self.scopes@[idx as int]@);
                        assert(errs_model(self.errs@) =~= st0.errs + cid_errs(
                            st0.scopes,
                            name@,
                            loc,
                            path@,
                            k + 1,
                        ));
                    }
                },
            }
            k = k + 1;
        }
    }

    /// Consume a name: move it in the innermost open scope holding it alive.
    #[verifier::loop_isolation(false)]
    fn drop(&mut self, name: &String, moved_loc: Location)
        requires
            old(self).wf(),
            !sem_drop(old(self)@, name@, moved_loc).fault,
        ensures
            final(self).wf(),
            final(self)@ == sem_drop(old(self)@, name@, moved_loc),
    {
        let ghost st0 = self@;
        let n = self.scopes.len();
        let mut k: usize = 0;
        while k < n
            invariant
                n == self.scopes@.len(),
                k <= n,
                self == old(self),
                st0 == old(self)@,
                forall|j: int|
                    n - k <= j < n ==> !(#[trigger] st0.scopes[j]).alive.contains(name@),
            decreases n - k,
        {
            let idx = n - 1 - k;
            proof {
                assert(st0.scopes[idx as int] == self.scopes@[idx as int]@);
            }
            if vec_contains_name(&self.scopes[idx].vars.alive_vars, name) {
                proof {
                    lemma_innermost_at(st0.scopes, name@, idx as int);
                }
                let mut frame = self.scopes.remove(idx);
                remove_alive(&mut frame.vars.alive_vars, name);
                let ghost before_moved = frame.vars.dropped_vars@;
                frame.vars.dropped_vars.push((name.clone(), moved_loc));
                proof {
                    assert(frame.vars.dropped_vars@.drop_last() =~= before_moved);
                }
                let ghost fm = frame@;
                self.scopes.insert(idx, frame);
                proof {
                    lemma_update_is_remove_insert(old(self).scopes@, idx as int, frame);
                    assert(self.scopes@ =~= old(self).scopes@.update(idx as int, frame));
                    assert(frames_view(self.scopes@) =~= st0.scopes.update(idx as int, fm));
                    assert(self@ =~= sem_drop(st0, name@, moved_loc));
                    assert forall|k: int|
                        0 <= k < self.scopes@.len() implies nodup(
                        (#[trigger] self.scopes@[k]).vars.alive_vars@,
                    ) by {
                        if k != idx as int {
                            assert(self.scopes@[k] == old(self).scopes@[k]);
                        }
                    }
                }
                return;
            }
            k = k + 1;
        }
        proof {
            assert forall|j: int| 0 <= j < st0.scopes.len() implies !(
            #[trigger] st0.scopes[j]).alive.contains(name@) by {}
            lemma_innermost_none(st0.scopes, name@);
        }
    }

    /// Register the names a definition binds in the innermost open scope.
    #[verifier::loop_isolation(false)]
    fn define(&mut self, sig: &Signature)
        requires
            old(self).wf(),
            !sem_define(old(self)@, *sig).fault,
        ensures
            final(self).wf(),
            final(self)@ == sem_define(old(self)@, *sig),
    {
        let ghost st0 = self@;
        let mut frame = self.scopes.pop().unwrap();
        let ghost a0 = alive_set(frame.vars.alive_vars@);
        match sig {
            Signature::Var { pat, .. } => match pat {
                VarPattern::Ident(n) => {
                    insert_alive(&mut frame.vars.alive_vars, n);
                    proof {
                        assert(sig_names(*sig) =~= seq![n@]);
                        assert(seq![n@].drop_last() =~= Seq::<Seq<char>>::empty());
                        assert(insert_names(a0, Seq::<Seq<char>>::empty()) == a0);
                        assert(insert_names(a0, seq![n@]) == a0.insert(n@));
                        assert(alive_set(frame.vars.alive_vars@) == insert_names(
                            a0,
                            sig_names(*sig),
                        ));
                    }
                },
                VarPattern::Tuple(ns) => {
                    let ghost names = ns@.map_values(|s: String| s@);
                    let ghost f0 = frame;
                    let mut i: usize = 0;
                    while i < ns.len()
                        invariant
                            i <= ns@.len(),
                            names == ns@.map_values(|s: String| s@),
                            frame.name == f0.name,
                            frame.vis == f0.vis,
                            frame.vars.dropped_vars == f0.vars.dropped_vars,
                            nodup(frame.vars.alive_vars@),
                            alive_set(frame.vars.alive_vars@) == insert_names(
                                a0,
                                names.take(i as int),
                            ),
                        decreases ns@.len() - i,
                    {
                        insert_alive(&mut frame.vars.alive_vars, &ns[i]);
                        proof {
                            assert(names.take(i + 1).drop_last() =~= names.take(i as int));
                            assert(names.take(i + 1).last() == names[i as int]);
                        }
                        i = i + 1;
                    }
                    proof {
                        assert(names.take(ns@.len() as int) =~= names);
                        assert(sig_names(*sig) == names);
                    }
                },
            },
            Signature::Subr { name, .. } => {
                insert_alive(&mut frame.vars.alive_vars, name);
                proof {
                    assert(sig_names(*sig) =~= seq![name@]);
                    assert(seq![name@].drop_last() =~= Seq::<Seq<char>>::empty());
                    assert(insert_names(a0, Seq::<Seq<char>>::empty()) == a0);
                    assert(insert_names(a0, seq![name@]) == a0.insert(name@));
                }
            },
        }
        let ghost fm = frame@;
        self.scopes.push(frame);
        proof {
            assert(old(self).scopes@.drop_last().push(frame) =~= old(self).scopes@.update(
                old(self).scopes@.len() - 1,
                frame,
            ));
            assert(frames_view(self.scopes@) =~= st0.scopes.update(st0.scopes.len() - 1, fm));
            assert(st0.scopes.last() == old(self).scopes@.last()@);
            assert(a0 == st0.scopes.last().alive);
            assert(fm.name == st0.scopes.last().name);
            assert(fm.vis == st0.scopes.last().vis);
            assert(fm.moved == st0.scopes.last().moved);
            assert(fm.alive == insert_names(st0.scopes.last().alive, sig_names(*sig)));
            assert(fm =~~= sem_define(st0, *sig).scopes[st0.scopes.len() - 1]);
            assert(self@ =~~= sem_define(st0, *sig));
            assert forall|k: int|
                0 <= k < self.scopes@.len() implies nodup(
                (#[trigger] self.scopes@[k]).vars.alive_vars@,
            ) by {
                if k < self.scopes@.len() - 1 {
                    assert(self.scopes@[k] == old(self).scopes@[k]);
                }
            }
        }
    }

    /// Check every statement of a block in order, each as a consumed value.
    #[verifier::loop_isolation(false)]
    fn check_block(&mut self, block: &Vec<Expr>)
        requires
            old(self).wf(),
            !sem_exprs(old(self)@, block@, Ownership::Owned, 0).fault,
        ensures
            final(self).wf(),
            final(self)@ == sem_exprs(old(self)@, block@, Ownership::Owned, 0),
        decreases block, 1nat,
    {
        let ghost st0 = self@;
        let n = block.len();
        let mut i: usize = 0;
        while i < n
            invariant
                n == block@.len(),
                i <= n,
                self.wf(),
                sem_exprs(st0, block@, Ownership::Owned, 0) == sem_exprs(
                    self@,
                    block@,
                    Ownership::Owned,
                    i as int,
                ),
                !sem_exprs(self@, block@, Ownership::Owned, i as int).fault,
            decreases n - i,
        {
            proof {
                if sem_expr(self@, block@[i as int], Ownership::Owned).fault {
                    lemma_exprs_fault(
                        sem_expr(self@, block@[i as int], Ownership::Owned),
                        block@,
                        Ownership::Owned,
                        i + 1,
                    );
                }
            }
            self.check_expr(&block[i], Ownership::Owned);
            i = i + 1;
        }
    }


    /// Check a call: the receiver where the signature classifies one, then
    /// every supplied argument under the ownership of the position it is
    /// paired with.
    #[verifier::loop_isolation(false)]
    #[verifier::rlimit(100)]
    fn check_call(&mut self, c: &Call)
        requires
            old(self).wf(),
            !sem_call(old(self)@, *c).fault,
        ensures
            final(self).wf(),
            final(self)@ == sem_call(old(self)@, *c),
        decreases c, 2nat,
    {
        let ghost st0 = self@;
        match &c.args_ownership {
                ArgsOwnership::Args { self_, non_defaults, defaults } => {
                    let ghost st1 = match c.args_ownership {
                        ArgsOwnership::Args { self_, .. } => match self_ {
                            Some(o) => sem_expr(st0, *c.obj, o),
                            None => st0,
                        },
                        ArgsOwnership::VarArgs(o) => st0,
                    };
                    let ghost cut: int = if c.pos_args@.len() <= non_defaults@.len() {
                        c.pos_args@.len() as int
                    } else {
                        non_defaults@.len() as int
                    };
                    let ghost leftover = non_defaults@.skip(cut) + defaults@;
                    let ghost st2 = sem_args(st1, c.pos_args@, non_defaults@, 0);
                    proof {
                        assert(sem_call(st0, *c) == sem_args(
                            st2,
                            c.kw_args@,
                            leftover,
                            0,
                        ));
                        if st1.fault {
                            lemma_args_fault(st1, c.pos_args@, non_defaults@, 0);
                            lemma_args_fault(st1, c.kw_args@, leftover, 0);
                            assert(false);
                        }
                        if st2.fault {
                            lemma_args_fault(st2, c.kw_args@, leftover, 0);
                            assert(false);
                        }
                    }
                    if let Some(o) = self_ {
                        self.check_expr(&c.obj, *o);
                    }
                    proof {
                        assert(self@ == st1);
                    }
                    let np = c.pos_args.len();
                    let mut j: usize = 0;
                    while j < np && j < non_defaults.len()
                        invariant
                            np == c.pos_args@.len(),
                            j <= np,
                            self.wf(),
                            sem_args(st1, c.pos_args@, non_defaults@, 0) == sem_args(
                                self@,
                                c.pos_args@,
                                non_defaults@,
                                j as int,
                            ),
                            !sem_args(self@, c.pos_args@, non_defaults@, j as int).fault,
                        decreases np - j,
                    {
                        proof {
                            if sem_expr(self@, c.pos_args@[j as int], non_defaults@[j as int]).fault {
                                lemma_args_fault(
                                    sem_expr(
                                        self@,
                                        c.pos_args@[j as int],
                                        non_defaults@[j as int],
                                    ),
                                    c.pos_args@,
                                    non_defaults@,
                                    j + 1,
                                );
                            }
                        }
                        self.check_expr(&c.pos_args[j], non_defaults[j]);
                        j = j + 1;
                    }
                    proof {
                        assert(self@ == st2);
                    }
                    // the ownerships the keyword arguments are paired
                    // with: the required-parameter ownerships left over
                    // after the positional pairing, then the defaulted
                    // ones
                    let cut_e = if c.pos_args.len() <= non_defaults.len() {
                        c.pos_args.len()
                    } else {
                        non_defaults.len()
                    };
                    let mut rest: Vec<Ownership> = Vec::new();
                    let mut t: usize = cut_e;
                    while t < non_defaults.len()
                        invariant
                            cut_e <= t <= non_defaults@.len(),
                            cut_e == cut,
                            rest@ == non_defaults@.subrange(cut, t as int),
                        decreases non_defaults@.len() - t,
                    {
                        rest.push(non_defaults[t]);
                        proof {
                            assert(rest@ =~= non_defaults@.subrange(cut, t + 1));
                        }
                        t = t + 1;
                    }
                    let mut u: usize = 0;
                    while u < defaults.len()
                        invariant
                            u <= defaults@.len(),
                            rest@ == non_defaults@.skip(cut) + defaults@.take(u as int),
                        decreases defaults@.len() - u,
                    {
                        rest.push(defaults[u]);
                        proof {
                            assert(rest@ =~= non_defaults@.skip(cut) + defaults@.take(u + 1));
                        }
                        u = u + 1;
                    }
                    proof {
                        assert(defaults@.take(defaults@.len() as int) =~= defaults@);
                        assert(rest@ == leftover);
                    }
                    let nk = c.kw_args.len();
                    let mut j2: usize = 0;
                    while j2 < nk && j2 < rest.len()
                        invariant
                            nk == c.kw_args@.len(),
                            j2 <= nk,
                            self.wf(),
                            rest@ == leftover,
                            sem_args(st2, c.kw_args@, leftover, 0) == sem_args(
                                self@,
                                c.kw_args@,
                                leftover,
                                j2 as int,
                            ),
                            !sem_args(self@, c.kw_args@, leftover, j2 as int).fault,
                        decreases nk - j2,
                    {
                        proof {
                            if sem_expr(self@, c.kw_args@[j2 as int], leftover[j2 as int]).fault {
                                lemma_args_fault(
                                    sem_expr(self@, c.kw_args@[j2 as int], leftover[j2 as int]),
                                    c.kw_args@,
                                    leftover,
                                    j2 + 1,
                                );
                            }
                        }
                        self.check_expr(&c.kw_args[j2], rest[j2]);
                        j2 = j2 + 1;
                    }
                    proof {
                        assert(self@ == sem_args(st2, c.kw_args@, leftover, 0));
                    }
                },
                ArgsOwnership::VarArgs(o) => {
                    let ghost st1 = sem_exprs(st0, c.pos_args@, *o, 0);
                    proof {
                        assert(sem_call(st0, *c) == sem_exprs(
                            st1,
                            c.kw_args@,
                            *o,
                            0,
                        ));
                        if st1.fault {
                            lemma_exprs_fault(st1, c.kw_args@, *o, 0);
                            assert(false);
                        }
                    }
                    let np = c.pos_args.len();
                    let mut j: usize = 0;
                    while j < np
                        invariant
                            np == c.pos_args@.len(),
                            j <= np,
                            self.wf(),
                            sem_exprs(st0, c.pos_args@, *o, 0) == sem_exprs(
                                self@,
                                c.pos_args@,
                                *o,
                                j as int,
                            ),
                            !sem_exprs(self@, c.pos_args@, *o, j as int).fault,
                        decreases np - j,
                    {
                        proof {
                            if sem_expr(self@, c.pos_args@[j as int], *o).fault {
                                lemma_exprs_fault(
                                    sem_expr(self@, c.pos_args@[j as int], *o),
                                    c.pos_args@,
                                    *o,
                                    j + 1,
                                );
                            }
                        }
                        self.check_expr(&c.pos_args[j], *o);
                        j = j + 1;
                    }
                    let nk = c.kw_args.len();
                    let mut j2: usize = 0;
                    while j2 < nk
                        invariant
                            nk == c.kw_args@.len(),
                            j2 <= nk,
                            self.wf(),
                            sem_exprs(st1, c.kw_args@, *o, 0) == sem_exprs(
                                self@,
                                c.kw_args@,
                                *o,
                                j2 as int,
                            ),
                            !sem_exprs(self@, c.kw_args@, *o, j2 as int).fault,
                        decreases nk - j2,
                    {
                        proof {
                            if sem_expr(self@, c.kw_args@[j2 as int], *o).fault {
                                lemma_exprs_fault(
                                    sem_expr(self@, c.kw_args@[j2 as int], *o),
                                    c.kw_args@,
                                    *o,
                                    j2 + 1,
                                );
                            }
                        }
                        self.check_expr(&c.kw_args[j2], *o);
                        j2 = j2 + 1;
                    }
                },
            }
    }


    /// Check the field definitions of a record literal: each statement of
    /// each field body, in the current scope, under the record's own context.
    #[verifier::loop_isolation(false)]
    fn check_record(&mut self, defs: &Vec<Def>, ownership: Ownership)
        requires
            old(self).wf(),
            !sem_record(old(self)@, defs@, ownership, 0).fault,
        ensures
            final(self).wf(),
            final(self)@ == sem_record(old(self)@, defs@, ownership, 0),
        decreases defs, 1nat,
    {
        let ghost st0 = self@;
        let ghost sdefs = defs@;
            let nd = defs.len();
            let mut i: usize = 0;
            while i < nd
                invariant
                    nd == sdefs.len(),
                    sdefs == defs@,
                    i <= nd,
                    self.wf(),
                    sem_record(st0, sdefs, ownership, 0) == sem_record(
                        self@,
                        sdefs,
                        ownership,
                        i as int,
                    ),
                    !sem_record(self@, sdefs, ownership, i as int).fault,
                decreases nd - i,
            {
                let ghost sti = self@;
                let ghost stb = sem_exprs(sti, sdefs[i as int].body@, ownership, 0);
                proof {
                    if stb.fault {
                        lemma_record_fault(stb, sdefs, ownership, i + 1);
                        assert(false);
                    }
                }
                let body = &defs[i].body;
                let nb = body.len();
                let mut j: usize = 0;
                while j < nb
                    invariant
                        nb == sdefs[i as int].body@.len(),
                        body == &defs[i as int].body,
                        sdefs == defs@,
                        i < sdefs.len(),
                        j <= nb,
                        self.wf(),
                        sem_exprs(sti, sdefs[i as int].body@, ownership, 0) == sem_exprs(
                            self@,
                            sdefs[i as int].body@,
                            ownership,
                            j as int,
                        ),
                        !sem_exprs(self@, sdefs[i as int].body@, ownership, j as int).fault,
                    decreases nb - j,
                {
                    proof {
                        if sem_expr(self@, sdefs[i as int].body@[j as int], ownership).fault {
                            lemma_exprs_fault(
                                sem_expr(self@, sdefs[i as int].body@[j as int], ownership),
                                sdefs[i as int].body@,
                                ownership,
                                j + 1,
                            );
                        }
                    }
                    self.check_expr(&body[j], ownership);
                    j = j + 1;
                }
                i = i + 1;
            }
    }

    /// Check one expression under an ownership context: dispatch on its kind
    /// exactly as the model does.
    #[verifier::loop_isolation(false)]
    #[verifier::rlimit(100)]
    fn check_expr(&mut self, expr: &Expr, ownership: Ownership)
        requires
            old(self).wf(),
            !sem_expr(old(self)@, *expr, ownership).fault,
        ensures
            final(self).wf(),
            final(self)@ == sem_expr(old(self)@, *expr, ownership),
        decreases expr, 0nat,
    {
        let ghost st0 = self@;
        match expr {
            Expr::Def(def) => {
                let ghost st1 = sem_define(st0, def.sig);
                let ghost st2 = st_push(st1, sig_scope_name(def.sig), sig_vis(def.sig));
                let ghost st3 = sem_exprs(st2, def.body@, Ownership::Owned, 0);
                proof {
                    if st1.fault {
                        lemma_exprs_fault(st2, def.body@, Ownership::Owned, 0);
                        assert(false);
                    }
                    if st2.fault {
                        lemma_exprs_fault(st2, def.body@, Ownership::Owned, 0);
                        assert(false);
                    }
                }
                self.define(&def.sig);
                let frame = match &def.sig {
                    Signature::Var { pat, vis } => match pat {
                        VarPattern::Ident(n) => ScopeFrame {
                            name: n.clone(),
                            vis: *vis,
                            vars: LocalVars { alive_vars: Vec::new(), dropped_vars: Vec::new() },
                        },
                        VarPattern::Tuple(_) => {
                            let frame = ScopeFrame {
                                name: String::from_str("::<instant>"),
                                vis: *vis,
                                vars: LocalVars {
                                    alive_vars: Vec::new(),
                                    dropped_vars: Vec::new(),
                                },
                            };
                            proof {
                                reveal_strlit("::<instant>");
                                assert(frame.name@ =~= instant_name());
                            }
                            frame
                        },
                    },
                    Signature::Subr { name, vis } => ScopeFrame {
                        name: name.clone(),
                        vis: *vis,
                        vars: LocalVars { alive_vars: Vec::new(), dropped_vars: Vec::new() },
                    },
                };
                let ghost fm = frame@;
                self.scopes.push(frame);
                proof {
                    assert(fm.alive =~= Set::<Seq<char>>::empty());
                    assert(fm.moved =~= Map::<Seq<char>, Location>::empty());
                    assert(frames_view(self.scopes@) =~= st1.scopes.push(fm));
                    assert(self@ =~= st2);
                }
                self.check_block(&def.body);
                let ghost pre_pop = self.scopes@;
                self.scopes.pop();
                proof {
                    lemma_exprs_len(st2, def.body@, Ownership::Owned, 0);
                    assert(frames_view(pre_pop) == st3.scopes);
                    assert(self.scopes@ =~= pre_pop.drop_last());
                    assert(frames_view(self.scopes@) =~= st3.scopes.drop_last());
                    assert(self@ =~= st_pop(st3));
                    assert forall|k: int|
                        0 <= k < self.scopes@.len() implies nodup(
                        (#[trigger] self.scopes@[k]).vars.alive_vars@,
                    ) by {
                        assert(self.scopes@[k] == pre_pop[k]);
                    }
                }
            },
            Expr::Local(v) => {
                self.check_if_dropped(&v.name, v.loc);
                if v.is_mut && matches!(ownership, Ownership::Owned) {
                    self.drop(&v.name, v.loc);
                }
                proof {
                    assert(self@ == sem_ref(st0, *v, ownership));
                }
            },
            Expr::Public(v) => {
                self.check_if_dropped(&v.name, v.loc);
                if v.is_mut && matches!(ownership, Ownership::Owned) {
                    self.drop(&v.name, v.loc);
                }
                proof {
                    assert(self@ == sem_ref(st0, *v, ownership));
                }
            },
            Expr::Attr(obj) => {
                self.check_expr(obj, ownership);
            },
            Expr::Call(c) => {
                self.check_call(c);
            },
            Expr::BinOp(lhs, rhs) => {
                proof {
                    assert(sem_expr(st0, *expr, ownership) == sem_expr(
                        sem_expr(st0, **lhs, ownership),
                        **rhs,
                        ownership,
                    ));
                    if sem_expr(st0, **lhs, ownership).fault {
                        assert(sem_expr(st0, *expr, ownership) == sem_expr(st0, **lhs, ownership));
                        assert(false);
                    }
                }
                self.check_expr(lhs, ownership);
                self.check_expr(rhs, ownership);
            },
            Expr::UnaryOp(operand) => {
                self.check_expr(operand, ownership);
            },
            Expr::Array(elems) => {
                self.check_elems(elems, ownership);
            },
            Expr::Tuple(elems) => {
                self.check_elems(elems, ownership);
            },
            Expr::Dict(values) => {
                self.check_elems(values, ownership);
            },
            Expr::Record(defs) => {
                self.check_record(defs, ownership);
            },
            Expr::Lambda(lam) => {
                let ghost st1 = st_push(st0, lambda_name(lam.id as nat), Visibility::Private);
                let ghost st2 = sem_exprs(st1, lam.body@, Ownership::Owned, 0);
                let name = lambda_scope_name(lam.id);
                let frame = ScopeFrame {
                    name,
                    vis: Visibility::Private,
                    vars: LocalVars { alive_vars: Vec::new(), dropped_vars: Vec::new() },
                };
                let ghost fm = frame@;
                self.scopes.push(frame);
                proof {
                    assert(fm.alive =~= Set::<Seq<char>>::empty());
                    assert(fm.moved =~= Map::<Seq<char>, Location>::empty());
                    assert(frames_view(self.scopes@) =~= st0.scopes.push(fm));
                    assert(self@ =~= st1);
                }
                self.check_block(&lam.body);
                let ghost pre_pop = self.scopes@;
                self.scopes.pop();
                proof {
                    lemma_exprs_len(st1, lam.body@, Ownership::Owned, 0);
                    assert(frames_view(pre_pop) == st2.scopes);
                    assert(self.scopes@ =~= pre_pop.drop_last());
                    assert(frames_view(self.scopes@) =~= st2.scopes.drop_last());
                    assert(self@ =~= st_pop(st2));
                    assert forall|k: int|
                        0 <= k < self.scopes@.len() implies nodup(
                        (#[trigger] self.scopes@[k]).vars.alive_vars@,
                    ) by {
                        assert(self.scopes@[k] == pre_pop[k]);
                    }
                }
            },
            Expr::Lit => {},
        }
    }

    /// Check the elements of a plain sequence, tuple or mapping literal, each
    /// under the literal's own surrounding context.
    #[verifier::loop_isolation(false)]
    fn check_elems(&mut self, elems: &Vec<Expr>, ownership: Ownership)
        requires
            old(self).wf(),
            !sem_exprs(old(self)@, elems@, ownership, 0).fault,
        ensures
            final(self).wf(),
            final(self)@ == sem_exprs(old(self)@, elems@, ownership, 0),
        decreases elems, 1nat,
    {
        let ghost st0 = self@;
        let n = elems.len();
        let mut i: usize = 0;
        while i < n
            invariant
                n == elems@.len(),
                i <= n,
                self.wf(),
                sem_exprs(st0, elems@, ownership, 0) == sem_exprs(
                    self@,
                    elems@,
                    ownership,
                    i as int,
                ),
                !sem_exprs(self@, elems@, ownership, i as int).fault,
            decreases n - i,
        {
            proof {
                if sem_expr(self@, elems@[i as int], ownership).fault {
                    lemma_exprs_fault(
                        sem_expr(self@, elems@[i as int], ownership),
                        elems@,
                        ownership,
                        i + 1,
                    );
                }
            }
            self.check_expr(&elems[i], ownership);
            i = i + 1;
        }
    }

    /// Run the pass over a whole program: on success the tree is returned
    /// unchanged, on failure every collected diagnostic, in discovery order.
    /// A tree on which the traversal would hit an internal-invariant
    /// violation (a consumed binding that no visited definition registered)
    /// is outside this contract.
    pub fn check(self, hir: HIR) -> (r: Result<HIR, Vec<OwnershipError>>)
        requires
            self.wf(),
            !sem_hir(self@, hir).fault,
        ensures
            r is Ok <==> sem_hir(self@, hir).errs.len() == 0,
            (r matches Ok(h) ==> h == hir),
            (r matches Err(es) ==> errs_model(es@) == sem_hir(self@, hir).errs && es@.len() > 0),
    {
        let mut this = self;
        let ghost st0 = this@;
        let name = hir.name.clone();
        let frame = ScopeFrame {
            name,
            vis: Visibility::Private,
            vars: LocalVars { alive_vars: Vec::new(), dropped_vars: Vec::new() },
        };
        let ghost fm = frame@;
        this.scopes.push(frame);
        proof {
            assert(fm.alive =~= Set::<Seq<char>>::empty());
            assert(fm.moved =~= Map::<Seq<char>, Location>::empty());
            assert(frames_view(this.scopes@) =~= st0.scopes.push(fm));
            assert(this@ =~= st_push(st0, hir.name@, Visibility::Private));
        }
        this.check_block(&hir.module);
        if this.errs.len() == 0 {
            proof {
                assert(errs_model(this.errs@).len() == 0);
            }
            Ok(hir)
        } else {
            proof {
                assert(errs_model(this.errs@).len() == this.errs@.len());
            }
            Err(this.errs)
        }
    }
}

impl Default for OwnershipChecker {
    /// The same fresh checker `new` builds.
    fn default() -> (r: Self)
        ensures
            r@ == st_init(),
            r.wf(),
    {
        Self::new()
    }
}

} // verus!
