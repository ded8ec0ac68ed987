use formal_systems_toolbox::naming::next_name;

#[test]
fn next_name_appends_when_no_suffix() {
    assert_eq!(next_name("x"), "x1");
    assert_eq!(next_name(""), "1");
}

#[test]
fn next_name_counts_a_digit_suffix_up() {
    assert_eq!(next_name("x1"), "x2");
    assert_eq!(next_name("x9"), "x10");
    assert_eq!(next_name("n41"), "n42");
}

#[test]
fn next_name_appends_when_digits_are_interrupted() {
    assert_eq!(next_name("ab1c"), "ab1c1");
}

#[test]
fn next_name_escapes_a_forbidden_set() {
    let forbidden = ["n", "n1", "n2", "n3"];
    let mut name = String::from("n");
    while forbidden.contains(&name.as_str()) {
        name = next_name(name.as_str());
    }
    assert_eq!(name, "n4");
}
