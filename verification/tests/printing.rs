use formal_systems_toolbox::logic::FormalSystem;
use formal_systems_toolbox::{constant, var, Judgement, Rule};

fn op(name: &str, subjects: Vec<Judgement>) -> Judgement {
    Judgement::operator(name, subjects)
}

fn zero() -> Judgement {
    constant("zero")
}

fn succ(n: Judgement) -> Judgement {
    op("succ", vec![n])
}

fn nat_system() -> FormalSystem {
    FormalSystem::new(
        vec![
            Rule::new(
                "succ",
                vec![op("nat", vec![var("n")])],
                op("nat", vec![succ(var("n"))]),
            ),
            Rule::taut("zero", op("nat", vec![zero()])),
            Rule::taut("s1", op("sum", vec![var("n"), zero(), var("n")])),
            Rule::new(
                "s2",
                vec![op("sum", vec![var("n"), var("m"), var("p")])],
                op("sum", vec![var("n"), succ(var("m")), succ(var("p"))]),
            ),
        ],
        8,
    )
}

#[test]
fn judgement_text_form() {
    let j = op("max", vec![succ(zero()), var("x")]);
    assert_eq!(j.to_text(), "max(succ(zero()), x)");
    assert_eq!(var("n").to_text(), "n");
    assert_eq!(constant("zero").to_text(), "zero()");
}

#[test]
fn rule_text_form() {
    let rule = Rule::new(
        "s2",
        vec![op("sum", vec![var("n"), var("m"), var("p")])],
        op("sum", vec![var("n"), succ(var("m")), succ(var("p"))]),
    );
    assert_eq!(
        rule.to_text(),
        "(sum(n, m, p))->sum(n, succ(m), succ(p))"
    );
    let axiom_rule = Rule::taut("zero", op("nat", vec![zero()]));
    assert_eq!(axiom_rule.to_text(), "()->nat(zero())");
}

#[test]
fn tree_of_axiom_application() {
    let nat = nat_system();
    let proof = nat.verify(&op("nat", vec![zero()])).unwrap();
    assert_eq!(
        proof.to_string_tree(),
        "\nzero---------------\n      nat(zero())  \n"
    );
}

#[test]
fn tree_roots_and_children() {
    let nat = nat_system();
    let proof = nat.verify(&op("nat", vec![succ(zero())])).unwrap();
    let tree = proof.to_string_tree();
    // Rooted at `succ`, with one `zero` child above it.
    assert!(tree.contains("succ-"));
    assert!(tree.contains("zero-"));
    let succ_bar = tree.find("succ-").unwrap();
    let zero_bar = tree.find("zero-").unwrap();
    assert!(zero_bar < succ_bar);
    // The conclusion line sits at the bottom.
    assert!(tree.trim_end().ends_with("nat(succ(zero()))"));
}

#[test]
fn tree_shows_bound_variable() {
    let nat = nat_system();
    // sum(succ(zero), x, succ(succ(succ(zero)))) binds x to succ(succ(zero)).
    let proof = nat
        .verify(&op(
            "sum",
            vec![succ(zero()), var("x"), succ(succ(succ(zero())))],
        ))
        .unwrap();
    let tree = proof.to_string_tree();
    assert!(tree.contains("sum(succ(zero()), succ(succ(zero())), succ(succ(succ(zero()))))"));
}

#[test]
fn rendered_widths_fit() {
    let nat = nat_system();
    let proof = nat.verify(&op("nat", vec![succ(succ(zero()))])).unwrap();
    assert!(proof.fits_width());
    assert!(!proof.to_string_tree().is_empty());
}

#[test]
fn verify_is_deterministic() {
    let first = {
        let nat = nat_system();
        nat.verify(&op("sum", vec![succ(zero()), var("x"), succ(succ(zero()))]))
            .unwrap()
            .to_string_tree()
    };
    let second = {
        let nat = nat_system();
        nat.verify(&op("sum", vec![succ(zero()), var("x"), succ(succ(zero()))]))
            .unwrap()
            .to_string_tree()
    };
    assert_eq!(first, second);
}
