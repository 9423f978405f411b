use winnow_sm::Env;

#[test]
fn get_unbound_variable_yields_its_own_name() {
    let env = Env::default();
    assert_eq!(env.get_variable("X"), "X".to_string());
}

#[test]
fn set_then_get_yields_value_and_overwrites() {
    let mut env = Env::default();
    env.set_variable("X", "v".to_string());
    assert_eq!(env.get_variable("X"), "v".to_string());
    env.set_variable("X", "w".to_string());
    assert_eq!(env.get_variable("X"), "w".to_string());
}

#[test]
fn set_keeps_other_bindings() {
    let mut env = Env::default();
    env.set_variable("A", "1".to_string());
    env.set_variable("B", "2".to_string());
    env.set_variable("A", "3".to_string());
    assert_eq!(env.get_variable("A"), "3".to_string());
    assert_eq!(env.get_variable("B"), "2".to_string());
}

#[test]
fn overwrite_in_the_middle_keeps_the_rest() {
    let mut env = Env::default();
    env.set_variable("A", "1".to_string());
    env.set_variable("B", "2".to_string());
    env.set_variable("C", "3".to_string());
    env.set_variable("B", "two".to_string());
    assert_eq!(env.get_variable("A"), "1".to_string());
    assert_eq!(env.get_variable("B"), "two".to_string());
    assert_eq!(env.get_variable("C"), "3".to_string());
}

#[test]
fn resolve_without_dollar_is_identity() {
    let mut env = Env::default();
    env.set_variable("NAME", "Al Gore".to_string());
    let template = "Plain text with no substitutions at all.";
    assert_eq!(env.resolve_template(template), template.to_string());
}

#[test]
fn resolve_substitutes_bound_variables() {
    let mut env = Env::default();
    env.set_variable("NAME", "Al Gore".to_string());
    env.set_variable("COLOR", "Green".to_string());
    let template = "Hi there, $NAME, seen anything $COLOR lately?";
    let expected = "Hi there, Al Gore, seen anything Green lately?";
    assert_eq!(env.resolve_template(template), expected.to_string());
}

#[test]
fn resolve_uses_name_for_unbound_variables() {
    let mut env = Env::default();
    env.set_variable("NAME", "Al Gore".to_string());
    let template = "Hi there, $NAME, how is $TOPIC?";
    let expected = "Hi there, Al Gore, how is TOPIC?";
    assert_eq!(env.resolve_template(template), expected.to_string());
}

#[test]
fn resolve_handles_variable_at_end_of_template() {
    let mut env = Env::default();
    env.set_variable("NAME", "Alice".to_string());
    assert_eq!(env.resolve_template("Goodbye $NAME"), "Goodbye Alice".to_string());
}

#[test]
fn resolve_keeps_dollar_with_no_following_uppercase() {
    let env = Env::default();
    assert_eq!(env.resolve_template("$"), "$".to_string());
    assert_eq!(env.resolve_template("$5 bill"), "$5 bill".to_string());
    assert_eq!(env.resolve_template("cost: 3$"), "cost: 3$".to_string());
}

#[test]
fn resolve_double_dollar_keeps_first_and_substitutes_second() {
    let env = Env::default();
    assert_eq!(env.resolve_template("a$$NAME"), "a$NAME".to_string());
}

#[test]
fn resolve_stops_token_at_lowercase() {
    let mut env = Env::default();
    env.set_variable("NAME", "Alice".to_string());
    assert_eq!(env.resolve_template("$NAMEs"), "Alices".to_string());
}

#[test]
fn resolve_does_not_rescan_substituted_values() {
    let mut env = Env::default();
    env.set_variable("A", "$B".to_string());
    env.set_variable("B", "deep".to_string());
    assert_eq!(env.resolve_template("$A"), "$B".to_string());
}
