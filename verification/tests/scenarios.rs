use ownercheck::checker::OwnershipChecker;
use ownercheck::hir::ArgsOwnership;
use ownercheck::hir::Call;
use ownercheck::hir::Def;
use ownercheck::hir::Expr;
use ownercheck::hir::Lambda;
use ownercheck::hir::Location;
use ownercheck::hir::Ownership;
use ownercheck::hir::Signature;
use ownercheck::hir::VarPattern;
use ownercheck::hir::VarRef;
use ownercheck::hir::WrapperKind;
use ownercheck::hir::Visibility;
use ownercheck::hir::HIR;

fn loc(line: u32, col: u32) -> Location {
    Location { line, col }
}

/// A reference to a move-only binding: consuming it is a move.
fn owned_ref(name: &str, at: Location) -> Expr {
    Expr::Local(VarRef { name: name.to_string(), loc: at, is_mut: true })
}

/// A reference to a binding whose type is not move-only.
fn plain_ref(name: &str, at: Location) -> Expr {
    Expr::Local(VarRef { name: name.to_string(), loc: at, is_mut: false })
}

/// A private variable definition `name = <body...>`.
fn def_var(name: &str, body: Vec<Expr>) -> Expr {
    Expr::Def(Def {
        sig: Signature::Var { pat: VarPattern::Ident(name.to_string()), vis: Visibility::Private },
        body,
    })
}

/// A nullary constructor call producing an owned value.
fn some_owned(at: Location) -> Expr {
    Expr::Call(Call {
        obj: Box::new(plain_ref("SomeOwned", at)),
        args_ownership: ArgsOwnership::Args { self_: None, non_defaults: vec![], defaults: vec![] },
        pos_args: vec![],
        kw_args: vec![],
    })
}

/// A call `f(arg)` whose one required parameter consumes its argument.
fn consuming_call(f: &str, arg: Expr, at: Location) -> Expr {
    Expr::Call(Call {
        obj: Box::new(plain_ref(f, at)),
        args_ownership: ArgsOwnership::Args {
            self_: None,
            non_defaults: vec![Ownership::Owned],
            defaults: vec![],
        },
        pos_args: vec![arg],
        kw_args: vec![],
    })
}

fn module(stmts: Vec<Expr>) -> HIR {
    HIR { name: "test".to_string(), module: stmts }
}

fn check(hir: HIR) -> Result<HIR, Vec<ownercheck::hir::OwnershipError>> {
    OwnershipChecker::new().check(hir)
}

#[test]
fn scenario_single_move_then_reuse() {
    // f = x -> x; y = SomeOwned(); z = f(y); w = y
    let hir = module(vec![
        def_var(
            "f",
            vec![Expr::Lambda(Lambda { id: 0, body: vec![plain_ref("x", loc(1, 5))] })],
        ),
        def_var("y", vec![some_owned(loc(2, 5))]),
        def_var("z", vec![consuming_call("f", owned_ref("y", loc(3, 7)), loc(3, 5))]),
        def_var("w", vec![owned_ref("y", loc(4, 5))]),
    ]);
    let errs = check(hir).err().expect("one violation expected");
    assert_eq!(errs.len(), 1);
    assert_eq!(errs[0].name, "y");
    assert_eq!(errs[0].loc, loc(4, 5));
    assert_eq!(errs[0].moved_loc, loc(3, 7));
    assert_eq!(errs[0].scope_path, "::test::w");
}

#[test]
fn scenario_two_branches_move_the_same_binding() {
    // y = SomeOwned(); if cond: a = y else: b = y
    // No control-flow join analysis: the second textual branch is flagged.
    let then_branch = Expr::Lambda(Lambda {
        id: 1,
        body: vec![def_var("a", vec![owned_ref("y", loc(3, 10))])],
    });
    let else_branch = Expr::Lambda(Lambda {
        id: 2,
        body: vec![def_var("b", vec![owned_ref("y", loc(4, 10))])],
    });
    let if_call = Expr::Call(Call {
        obj: Box::new(plain_ref("if", loc(3, 1))),
        args_ownership: ArgsOwnership::Args {
            self_: None,
            non_defaults: vec![Ownership::Referenced, Ownership::Owned, Ownership::Owned],
            defaults: vec![],
        },
        pos_args: vec![plain_ref("cond", loc(3, 4)), then_branch, else_branch],
        kw_args: vec![],
    });
    let hir = module(vec![def_var("y", vec![some_owned(loc(2, 5))]), if_call]);
    let errs = check(hir).err().expect("the second branch must be flagged");
    assert_eq!(errs.len(), 1);
    assert_eq!(errs[0].name, "y");
    assert_eq!(errs[0].loc, loc(4, 10));
    assert_eq!(errs[0].moved_loc, loc(3, 10));
    assert_eq!(errs[0].scope_path, "::test::<lambda_2>::b");
}

#[test]
fn scenario_closure_consumes_outer_binding() {
    // y = SomeOwned(); g = (... closure consuming y ...); w = y
    // The move is recorded against the outer scope, found by ancestor search
    // from inside the closure, so the later use at module level is flagged.
    let hir = module(vec![
        def_var("y", vec![some_owned(loc(2, 5))]),
        def_var(
            "g",
            vec![Expr::Lambda(Lambda { id: 5, body: vec![owned_ref("y", loc(3, 3))] })],
        ),
        def_var("w", vec![owned_ref("y", loc(4, 5))]),
    ]);
    let errs = check(hir).err().expect("use after a move inside a closure");
    assert_eq!(errs.len(), 1);
    assert_eq!(errs[0].name, "y");
    assert_eq!(errs[0].loc, loc(4, 5));
    assert_eq!(errs[0].moved_loc, loc(3, 3));
}

#[test]
fn scenario_record_fields_share_move_state() {
    // y = SomeOwned(); r = { x1 = y; x2 = y }
    // Record field bodies run in the current scope: no scope boundary
    // isolates the second field from the first field's move.
    let field = |n: &str, e: Expr| Def {
        sig: Signature::Var { pat: VarPattern::Ident(n.to_string()), vis: Visibility::Private },
        body: vec![e],
    };
    let hir = module(vec![
        def_var("y", vec![some_owned(loc(2, 5))]),
        def_var(
            "r",
            vec![Expr::Record(vec![
                field("x1", owned_ref("y", loc(3, 9))),
                field("x2", owned_ref("y", loc(3, 20))),
            ])],
        ),
    ]);
    let errs = check(hir).err().expect("second field reuses the moved binding");
    assert_eq!(errs.len(), 1);
    assert_eq!(errs[0].name, "y");
    assert_eq!(errs[0].loc, loc(3, 20));
    assert_eq!(errs[0].moved_loc, loc(3, 9));
    assert_eq!(errs[0].scope_path, "::test::r");
}

#[test]
fn no_false_failure_single_move() {
    // A move-only binding moved exactly once and never referenced again.
    let hir = module(vec![
        def_var("y", vec![some_owned(loc(2, 5))]),
        def_var("z", vec![consuming_call("f", owned_ref("y", loc(3, 7)), loc(3, 5))]),
    ]);
    assert!(check(hir).is_ok());
}

#[test]
fn no_false_failure_copyable_many_uses() {
    // A binding whose type is not move-only may be referenced any number of
    // times.
    let hir = module(vec![
        def_var("n", vec![some_owned(loc(2, 5))]),
        def_var("a", vec![plain_ref("n", loc(3, 5))]),
        def_var("b", vec![plain_ref("n", loc(4, 5))]),
        def_var("c", vec![Expr::BinOp(
            Box::new(plain_ref("n", loc(5, 5))),
            Box::new(plain_ref("n", loc(5, 9))),
        )]),
    ]);
    assert!(check(hir).is_ok());
}

#[test]
fn shadowing_keeps_scopes_apart() {
    // y = SomeOwned(); g = (y = SomeOwned(); z = y); w = y
    // Moving the inner shadow must not mark the outer binding as moved.
    let hir = module(vec![
        def_var("y", vec![some_owned(loc(2, 5))]),
        def_var(
            "g",
            vec![
                def_var("y", vec![some_owned(loc(3, 9))]),
                def_var("z", vec![owned_ref("y", loc(4, 9))]),
            ],
        ),
        def_var("w", vec![owned_ref("y", loc(5, 5))]),
    ]);
    assert!(check(hir).is_ok());
}

#[test]
fn success_is_idempotent() {
    // A tree that passed once passes again: the pass returns it unchanged
    // and a fresh checker keeps no state.
    let build = || {
        module(vec![
            def_var("y", vec![some_owned(loc(2, 5))]),
            def_var("z", vec![owned_ref("y", loc(3, 5))]),
        ])
    };
    let first = check(build()).expect("first run passes");
    let second = check(first).expect("second run passes on the returned tree");
    assert_eq!(second.name, "test");
    assert_eq!(second.module.len(), 2);
}

#[test]
fn errors_come_in_discovery_order() {
    // Two later uses of a moved binding: one diagnostic each, in statement
    // order.
    let hir = module(vec![
        def_var("y", vec![some_owned(loc(2, 5))]),
        def_var("z", vec![owned_ref("y", loc(3, 5))]),
        def_var("w", vec![owned_ref("y", loc(4, 5))]),
        def_var("u", vec![owned_ref("y", loc(5, 5))]),
    ]);
    let errs = check(hir).err().expect("two violations expected");
    assert_eq!(errs.len(), 2);
    assert_eq!(errs[0].loc, loc(4, 5));
    assert_eq!(errs[1].loc, loc(5, 5));
    assert_eq!(errs[0].moved_loc, loc(3, 5));
    assert_eq!(errs[1].moved_loc, loc(3, 5));
}

#[test]
fn variadic_call_consumes_every_argument() {
    let hir = module(vec![
        def_var("y", vec![some_owned(loc(2, 5))]),
        def_var(
            "z",
            vec![Expr::Call(Call {
                obj: Box::new(plain_ref("print", loc(3, 1))),
                args_ownership: ArgsOwnership::VarArgs(Ownership::Owned),
                pos_args: vec![owned_ref("y", loc(3, 7)), owned_ref("y", loc(3, 10))],
                kw_args: vec![],
            })],
        ),
    ]);
    let errs = check(hir).err().expect("second variadic argument reuses y");
    assert_eq!(errs.len(), 1);
    assert_eq!(errs[0].loc, loc(3, 10));
    assert_eq!(errs[0].moved_loc, loc(3, 7));
}

#[test]
fn keyword_argument_takes_leftover_required_ownership() {
    // A required parameter supplied as a keyword argument: the required
    // ownerships are split at the number of positional arguments (none), and
    // the remainder is chained in front of the defaulted ones.
    let hir = module(vec![
        def_var("y", vec![some_owned(loc(2, 5))]),
        def_var(
            "z",
            vec![Expr::Call(Call {
                obj: Box::new(plain_ref("f", loc(3, 1))),
                args_ownership: ArgsOwnership::Args {
                    self_: None,
                    non_defaults: vec![Ownership::Owned],
                    defaults: vec![],
                },
                pos_args: vec![],
                kw_args: vec![owned_ref("y", loc(3, 9))],
            })],
        ),
        def_var("w", vec![owned_ref("y", loc(4, 5))]),
    ]);
    let errs = check(hir).err().expect("keyword argument consumed y");
    assert_eq!(errs.len(), 1);
    assert_eq!(errs[0].moved_loc, loc(3, 9));
}

#[test]
fn receiver_of_a_method_call_is_checked() {
    let hir = module(vec![
        def_var("y", vec![some_owned(loc(2, 5))]),
        def_var(
            "z",
            vec![Expr::Call(Call {
                obj: Box::new(owned_ref("y", loc(3, 5))),
                args_ownership: ArgsOwnership::Args {
                    self_: Some(Ownership::Owned),
                    non_defaults: vec![],
                    defaults: vec![],
                },
                pos_args: vec![],
                kw_args: vec![],
            })],
        ),
        def_var("w", vec![owned_ref("y", loc(4, 5))]),
    ]);
    let errs = check(hir).err().expect("receiver consumed y");
    assert_eq!(errs.len(), 1);
    assert_eq!(errs[0].moved_loc, loc(3, 5));
}

#[test]
fn destructuring_registers_every_name() {
    let hir = module(vec![
        Expr::Def(Def {
            sig: Signature::Var {
                pat: VarPattern::Tuple(vec!["a".to_string(), "b".to_string()]),
                vis: Visibility::Private,
            },
            body: vec![some_owned(loc(2, 10))],
        }),
        def_var("z", vec![owned_ref("a", loc(3, 5))]),
        def_var("w", vec![owned_ref("a", loc(4, 5))]),
        def_var("u", vec![owned_ref("b", loc(5, 5))]),
    ]);
    let errs = check(hir).err().expect("a reused after its move");
    assert_eq!(errs.len(), 1);
    assert_eq!(errs[0].name, "a");
    assert_eq!(errs[0].loc, loc(4, 5));
}

#[test]
fn public_segment_serializes_with_a_dot() {
    let hir = module(vec![
        def_var("y", vec![some_owned(loc(2, 5))]),
        def_var("z", vec![owned_ref("y", loc(3, 5))]),
        Expr::Def(Def {
            sig: Signature::Subr { name: "p".to_string(), vis: Visibility::Public },
            body: vec![owned_ref("y", loc(4, 9))],
        }),
    ]);
    let errs = check(hir).err().expect("use after move inside the public subroutine");
    assert_eq!(errs.len(), 1);
    assert_eq!(errs[0].scope_path, "::test.p");
}

#[test]
fn referenced_context_does_not_move() {
    // An argument position classified as referenced consumes nothing.
    let hir = module(vec![
        def_var("y", vec![some_owned(loc(2, 5))]),
        def_var(
            "a",
            vec![Expr::Call(Call {
                obj: Box::new(plain_ref("peek", loc(3, 1))),
                args_ownership: ArgsOwnership::Args {
                    self_: None,
                    non_defaults: vec![Ownership::Referenced],
                    defaults: vec![],
                },
                pos_args: vec![owned_ref("y", loc(3, 6))],
                kw_args: vec![],
            })],
        ),
        def_var("b", vec![owned_ref("y", loc(4, 5))]),
    ]);
    assert!(check(hir).is_ok());
}

#[test]
fn collection_literals_propagate_ownership() {
    let hir = module(vec![
        def_var("y", vec![some_owned(loc(2, 5))]),
        def_var(
            "t",
            vec![Expr::Tuple(vec![owned_ref("y", loc(3, 6)), owned_ref("y", loc(3, 9))])],
        ),
    ]);
    let errs = check(hir).err().expect("second tuple element reuses y");
    assert_eq!(errs.len(), 1);
    assert_eq!(errs[0].loc, loc(3, 9));
}

#[test]
fn empty_module_passes() {
    let hir = module(vec![]);
    let out = OwnershipChecker::default().check(hir).expect("nothing to flag");
    assert_eq!(out.name, "test");
    assert!(out.module.is_empty());
}

#[test]
fn lambda_scope_names_carry_the_identifier() {
    // Error inside a closure with a multi-digit identifier: its synthetic
    // private scope segment appears in the diagnostic's path.
    let hir = module(vec![
        def_var("y", vec![some_owned(loc(2, 5))]),
        def_var("z", vec![owned_ref("y", loc(3, 5))]),
        Expr::Lambda(Lambda { id: 307, body: vec![owned_ref("y", loc(4, 3))] }),
    ]);
    let errs = check(hir).err().expect("use after move inside the closure");
    assert_eq!(errs.len(), 1);
    assert_eq!(errs[0].scope_path, "::test::<lambda_307>");
}

#[test]
fn wrapper_kinds_are_distinct() {
    assert_eq!(WrapperKind::Ref, WrapperKind::Ref);
    assert_ne!(WrapperKind::Rc, WrapperKind::Box);
}
