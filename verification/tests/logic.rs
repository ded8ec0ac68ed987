use formal_systems_toolbox::logic::FormalSystem;
use formal_systems_toolbox::{constant, var, Judgement, Rule};

fn op(name: &str, subjects: Vec<Judgement>) -> Judgement {
    Judgement::operator(name, subjects)
}

fn zero() -> Judgement {
    constant("zero")
}

fn succ(n: Judgement) -> Judgement {
    op("succ", vec![n])
}

fn empty() -> Judgement {
    constant("empty")
}

fn node(t1: Judgement, t2: Judgement) -> Judgement {
    op("node", vec![t1, t2])
}

#[test]
fn var_unification() {
    let x = var("x");
    let y = var("y");

    let unification = x.unify(&y);
    assert!(unification.is_ok());
    let unification = unification.unwrap();

    let unified_left = x.apply_substitution(&unification);
    let unified_right = y.apply_substitution(&unification);

    assert_eq!(unified_left, unified_right);
    assert_eq!(unified_left, var("x"));
    assert_eq!(unified_right, var("x"));
}

#[test]
fn operator_unification() {
    let left = op("succ", vec![var("n")]);
    let right = op("succ", vec![op("succ", vec![var("m")])]);

    let unification = left.unify(&right);
    assert!(unification.is_ok());
    let unification = unification.unwrap();

    let unified_left = left.apply_substitution(&unification);
    let unified_right = right.apply_substitution(&unification);

    assert_eq!(unified_left, unified_right);

    let n_substitution = unification.get("n".into());
    assert!(n_substitution.is_some());

    let n_substitution = n_substitution.unwrap();
    assert_eq!(n_substitution.clone(), op("succ", vec![var("m")]));
}

#[test]
fn infinite_unification() {
    let left = var("n");
    let right = op("succ", vec![var("n")]);

    let unification = left.unify(&right);
    assert!(unification.is_err());
}

fn nat_system() -> FormalSystem {
    FormalSystem::new(
        vec![
            Rule::new(
                "succ",
                vec![op("nat", vec![var("n")])],
                op("nat", vec![succ(var("n"))]),
            ),
            Rule::taut("zero", op("nat", vec![zero()])),
            Rule::new(
                "tree",
                vec![op("tree", vec![var("a1")]), op("tree", vec![var("a2")])],
                op("tree", vec![op("node", vec![var("a1"), var("a2")])]),
            ),
            Rule::taut("empty", op("tree", vec![constant("empty")])),
            Rule::taut("s1", op("sum", vec![var("n"), zero(), var("n")])),
            Rule::new(
                "s2",
                vec![op("sum", vec![var("n"), var("m"), var("p")])],
                op("sum", vec![var("n"), succ(var("m")), succ(var("p"))]),
            ),
            Rule::taut("max1", op("max", vec![var("n"), zero(), var("n")])),
            Rule::taut("max2", op("max", vec![zero(), var("n"), var("n")])),
            Rule::new(
                "max3",
                vec![op("max", vec![var("n"), var("m"), var("p")])],
                op("max", vec![succ(var("n")), succ(var("m")), succ(var("p"))]),
            ),
            Rule::taut("h1", op("hgt", vec![constant("empty"), zero()])),
            Rule::new(
                "h2",
                vec![
                    op("hgt", vec![var("t1"), var("n1")]),
                    op("hgt", vec![var("t2"), var("n2")]),
                    op("max", vec![var("n1"), var("n2"), var("n")]),
                ],
                op("hgt", vec![node(var("t1"), var("t2")), succ(var("n"))]),
            ),
        ],
        8,
    )
}

#[test]
fn nat_formal_system() {
    let nat = nat_system();

    assert!(nat.verify(&op("nat", vec![constant("zero")])).is_some());
    assert!(nat.verify(&op("sum", vec![zero(), zero(), zero()])).is_some());
    assert!(!nat
        .verify(&op("sum", vec![zero(), succ(zero()), zero()]))
        .is_some());
    assert!(nat
        .verify(&op(
            "max",
            vec![succ(zero()), succ(succ(zero())), succ(succ(zero()))]
        ))
        .is_some());
    assert!(nat
        .verify(&op(
            "max",
            vec![succ(zero()), succ(succ(zero())), succ(succ(zero()))]
        ))
        .is_some());
    assert!(nat
        .verify(&op("hgt", vec![node(empty(), empty()), succ(zero())]))
        .is_some());
    assert!(nat
        .verify(&op(
            "hgt",
            vec![node(empty(), node(empty(), empty())), succ(succ(zero()))]
        ))
        .is_some());
    assert!(!nat
        .verify(&op(
            "hgt",
            vec![node(empty(), node(empty(), empty())), succ(zero())]
        ))
        .is_some());
    assert!(nat
        .verify(&op("hgt", vec![node(empty(), node(empty(), empty())), var("x")]))
        .is_some());
}

#[test]
fn nat_zero_derivable() {
    let nat = nat_system();
    assert!(nat.verify(&op("nat", vec![constant("zero")])).is_some());
}

#[test]
fn nat_succ_derivable() {
    let nat = nat_system();
    assert!(nat
        .verify(&op("nat", vec![succ(constant("zero"))]))
        .is_some());
}

#[test]
fn sum_binds_free_variable() {
    let nat = nat_system();
    assert!(nat
        .verify(&op(
            "sum",
            vec![succ(zero()), var("x"), succ(succ(succ(zero())))]
        ))
        .is_some());
}

#[test]
fn height_of_lopsided_tree() {
    let nat = nat_system();
    assert!(!nat
        .verify(&op(
            "hgt",
            vec![node(empty(), node(empty(), empty())), succ(zero())]
        ))
        .is_some());
    assert!(nat
        .verify(&op(
            "hgt",
            vec![node(empty(), node(empty(), empty())), succ(succ(zero()))]
        ))
        .is_some());
}

#[test]
fn unify_is_symmetric_on_variables() {
    let a = op("succ", vec![constant("zero")]);

    let left = a.unify(&var("x"));
    assert!(left.is_ok());
    let left = left.unwrap();
    let right = var("x").unify(&a);
    assert!(right.is_ok());
    let right = right.unwrap();

    assert_eq!(var("x").apply_substitution(&left), a.clone());
    assert_eq!(var("x").apply_substitution(&right), a.clone());
    assert_eq!(a.apply_substitution(&left), a.apply_substitution(&right));
}

#[test]
fn unify_rejects_predicate_mismatch() {
    let a = op("succ", vec![constant("zero")]);
    let b = op("pred", vec![constant("zero")]);
    let r = a.unify(&b);
    assert!(r.is_err());
    assert_eq!(r.unwrap_err(), "Different predicates: succ != pred");
}

#[test]
fn unify_rejects_arity_mismatch() {
    let a = op("sum", vec![zero(), zero()]);
    let b = op("sum", vec![zero(), zero(), zero()]);
    let r = a.unify(&b);
    assert!(r.is_err());
    assert_eq!(r.unwrap_err(), "Predicates with different arieties: 2 and 3");
}

#[test]
fn occurs_check_names_recursion() {
    let r = var("n").unify(&op("succ", vec![var("n")]));
    assert_eq!(r.unwrap_err(), "Recursive unification!");
}

#[test]
fn premise_order_is_searched() {
    // With premises taken left to right, `pick` binds x to zero through the
    // first `loop` axiom and then fails on `anchor(zero)`; only the other
    // premise ordering, where `anchor` constrains x to one first, succeeds.
    let system = FormalSystem::new(
        vec![
            Rule::new(
                "pick",
                vec![op("loop", vec![var("x")]), op("anchor", vec![var("x")])],
                op("r", vec![constant("c")]),
            ),
            Rule::taut("loop0", op("loop", vec![constant("zero")])),
            Rule::taut("loop1", op("loop", vec![constant("one")])),
            Rule::taut("anchor1", op("anchor", vec![constant("one")])),
        ],
        4,
    );
    assert!(system.verify(&op("r", vec![constant("c")])).is_some());
}

#[test]
fn apply_is_idempotent() {
    let left = op("succ", vec![var("n")]);
    let right = op("succ", vec![op("succ", vec![var("m")])]);
    let unification = left.unify(&right).unwrap();

    let once = left.apply_substitution(&unification);
    let twice = once.apply_substitution(&unification);
    assert_eq!(once, twice);
}
