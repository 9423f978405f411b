use winnow_sm::machine::StepOutcome;
use winnow_sm::{Nodes, NodesParser};

/// Scenario A's script: a question node with three prompts, its success
/// destination a farewell that names the answer, its fail destination a
/// reproach.
fn scenario_a() -> Nodes {
    let script = "1\n\
                  1\n\
                  3\n\
                  NAME\n\
                  What is your name?\n\
                  Please tell me your name\n\
                  You better tell me your name\n\
                  3\n\
                  Goodbye $NAME\n\
                  3\n\
                  Unused filler node\n\
                  3\n\
                  No name given\n";
    let machine = NodesParser::parse_script(script).unwrap();
    assert!(machine.check_well_formed());
    machine
}

/// Scenario B's script: a branching node with options Red and Blue, then
/// terminating nodes up to the highest destination.
fn scenario_b() -> Nodes {
    let script = "2\n\
                  COLOR\n\
                  What is your favorite color?\n\
                  Red:4\n\
                  Blue:5\n\
                  3\nF1\n\
                  3\nF2\n\
                  3\nF3\n\
                  3\nChose red\n\
                  3\nChose blue\n";
    let machine = NodesParser::parse_script(script).unwrap();
    assert!(machine.check_well_formed());
    machine
}

#[test]
fn scenario_a_answer_reaches_success_node() {
    let mut machine = scenario_a();
    assert_eq!(machine.current_id(), 0);
    assert!(machine.awaiting_input());
    assert_eq!(machine.render(), "What is your name?\nEnter string> ".to_string());
    assert_eq!(machine.consume_line("Alice\n"), StepOutcome::Accepted);
    assert_eq!(machine.current_id(), 1);
    assert_eq!(machine.attempt(), 0);
    assert!(machine.render().contains("Goodbye Alice"));
}

#[test]
fn scenario_a_three_blank_lines_reach_fail_node() {
    let mut machine = scenario_a();
    for expected_attempt in 1..=3usize {
        assert!(machine.awaiting_input());
        assert_eq!(machine.consume_line("\n"), StepOutcome::Accepted);
        assert_eq!(machine.current_id(), 0);
        assert_eq!(machine.attempt(), expected_attempt);
    }
    assert!(!machine.awaiting_input());
    machine.advance_exhausted();
    assert_eq!(machine.current_id(), 3);
    assert_eq!(machine.attempt(), 0);
    assert!(machine.render().contains("No name given"));
}

#[test]
fn question_shows_prompts_in_turn() {
    let mut machine = scenario_a();
    assert_eq!(machine.render(), "What is your name?\nEnter string> ".to_string());
    machine.consume_line("\n");
    assert_eq!(machine.render(), "Please tell me your name\nEnter string> ".to_string());
    machine.consume_line("\n");
    assert_eq!(
        machine.render(),
        "You better tell me your name\nEnter string> ".to_string(),
    );
}

#[test]
fn question_transition_exactly_after_k_blanks_never_fewer() {
    let mut machine = scenario_a();
    machine.consume_line("\n");
    machine.consume_line("\n");
    // Two of three prompts exhausted: the machine still awaits input on
    // the same node.
    assert!(machine.awaiting_input());
    assert_eq!(machine.current_id(), 0);
    assert_eq!(machine.attempt(), 2);
}

#[test]
fn scenario_b_valid_choice_binds_option_text() {
    let mut machine = scenario_b();
    let rendered = machine.render();
    assert_eq!(
        rendered,
        "What is your favorite color?\n1. Red\n2. Blue\n\nEnter choice> ".to_string(),
    );
    assert_eq!(machine.consume_line("1\n"), StepOutcome::Accepted);
    assert_eq!(machine.current_id(), 4);
    assert_eq!(machine.environment().get_variable("COLOR"), "Red".to_string());
}

#[test]
fn scenario_b_out_of_range_choice_changes_nothing() {
    let mut machine = scenario_b();
    assert_eq!(machine.consume_line("9\n"), StepOutcome::InvalidChoice);
    assert_eq!(machine.current_id(), 0);
    assert_eq!(machine.attempt(), 0);
    // The environment was not touched: the name still looks up to itself.
    assert_eq!(machine.environment().get_variable("COLOR"), "COLOR".to_string());
}

#[test]
fn scenario_b_non_numeric_choice_changes_nothing() {
    let mut machine = scenario_b();
    assert_eq!(machine.consume_line("blue\n"), StepOutcome::UnreadableChoice);
    assert_eq!(machine.current_id(), 0);
    assert_eq!(machine.environment().get_variable("COLOR"), "COLOR".to_string());
}

#[test]
fn branching_rejects_zero_and_blank_lines() {
    let mut machine = scenario_b();
    assert_eq!(machine.consume_line("0\n"), StepOutcome::InvalidChoice);
    assert_eq!(machine.current_id(), 0);
    assert_eq!(machine.consume_line("\n"), StepOutcome::EmptyChoice);
    assert_eq!(machine.current_id(), 0);
}

#[test]
fn branching_accepts_plus_signed_and_zero_padded_choices() {
    let mut machine = scenario_b();
    assert_eq!(machine.consume_line("+2\n"), StepOutcome::Accepted);
    assert_eq!(machine.current_id(), 5);
    assert_eq!(machine.environment().get_variable("COLOR"), "Blue".to_string());

    let mut machine = scenario_b();
    assert_eq!(machine.consume_line("02\n"), StepOutcome::Accepted);
    assert_eq!(machine.current_id(), 5);
}

#[test]
fn question_with_no_prompts_fails_immediately() {
    let script = "1\n1\n2\nNAME\n3\nSuccess\n3\nFailed\n";
    let mut machine = NodesParser::parse_script(script).unwrap();
    assert!(machine.check_well_formed());
    assert!(!machine.awaiting_input());
    machine.advance_exhausted();
    assert_eq!(machine.current_id(), 2);
    assert!(machine.render().contains("Failed"));
}

#[test]
fn terminating_node_renders_message_and_halts_on_any_line() {
    let script = "3\nYou may pass, $NAME.\n";
    let mut machine = NodesParser::parse_script(script).unwrap();
    assert!(machine.check_well_formed());
    assert_eq!(
        machine.render(),
        "You may pass, NAME.\nGoodbye (enter anything to exit)> ".to_string(),
    );
    assert_eq!(machine.consume_line("anything\n"), StepOutcome::Accepted);
    assert!(machine.finished());
    assert_eq!(machine.attempt(), 0);
}

#[test]
fn question_answer_is_stored_raw_without_substitution() {
    let mut machine = scenario_a();
    machine.consume_line("$COLOR\n");
    assert_eq!(machine.environment().get_variable("NAME"), "$COLOR".to_string());
}

#[test]
fn render_numbers_options_past_nine() {
    let mut machine = Nodes::default();
    let options: Vec<(String, usize)> = (0..12)
        .map(|k| (format!("Option {}", k), 9999usize))
        .collect();
    machine.register_branching_node("PICK", "Choose", options);
    let rendered = machine.render();
    assert!(rendered.starts_with("Choose\n1. Option 0\n"));
    assert!(rendered.contains("\n9. Option 8\n10. Option 9\n11. Option 10\n12. Option 11\n"));
    assert!(rendered.ends_with("\nEnter choice> "));
}

#[test]
fn question_prompt_may_contain_colons() {
    let script = "1\n1\n1\nNAME\nName, please: now\n3\nBye\n";
    let mut machine = NodesParser::parse_script(script).unwrap();
    assert!(machine.check_well_formed());
    assert_eq!(machine.render(), "Name, please: now\nEnter string> ".to_string());
    machine.consume_line("Alice\n");
    assert_eq!(machine.current_id(), 1);
}

#[test]
fn state_transition_resets_attempt_counter() {
    let mut machine = scenario_a();
    machine.consume_line("\n");
    assert_eq!(machine.attempt(), 1);
    machine.state_transition(3);
    assert_eq!(machine.current_id(), 3);
    assert_eq!(machine.attempt(), 0);
}
