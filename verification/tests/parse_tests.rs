use winnow_sm::{Nodes, NodesParser};

#[test]
fn test_parse_input() {
    let mut test = Nodes::default();
    // Node 0
    test.register_question_node(
        1,
        3,
        "NAME",
        vec![
            "What is your name?".into(),
            "Please tell me your name".into(),
            "You better tell me your name".into(),
        ],
    );
    // Node 1
    test.register_branching_node(
        "QUEST",
        "$NAME, what is your quest?",
        vec![("The Holy Grail".into(), 2), ("Run and Hide".into(), 3)],
    );
    // Node 2
    test.register_branching_node(
        "COLOR",
        "$NAME, who seeks $QUEST, what is your favorite color?",
        vec![("Red".into(), 4), ("I mean blue".into(), 5)],
    );
    // Node 3
    test.register_terminating_node(
        "Since you have REFUSED to answer, The Black Night has been called",
    );
    // Node 4
    test.register_terminating_node(
        "You may pass, $NAME who loves $COLOR, on your noble quest for the $QUEST.",
    );
    // Node 5
    test.register_terminating_node("AAAARRRRGGGGGHHHHH");
    let script = "1\n\
                  1\n\
                  3\n\
                  NAME\n\
                  What is your name?\n\
                  Please tell me your name\n\
                  You better tell me your name\n\
                  2\n\
                  QUEST\n\
                  $NAME, what is your quest?\n\
                  The Holy Grail:2\n\
                  Run and Hide:3\n\
                  2\n\
                  COLOR\n\
                  $NAME, who seeks $QUEST, what is your favorite color?\n\
                  Red:4\n\
                  I mean blue:5\n\
                  3\n\
                  Since you have REFUSED to answer, The Black Night has been called\n\
                  3\n\
                  You may pass, $NAME who loves $COLOR, on your noble quest for the $QUEST.\n\
                  3\n\
                  AAAARRRRGGGGGHHHHH\n";
    assert_eq!(NodesParser::parse_script(script).unwrap(), test);
}

#[test]
fn parse_branching_with_three_options_round_trip() {
    let script = "2\n\
                  COLOR\n\
                  Pick a color\n\
                  Red:1\n\
                  Green:2\n\
                  Blue:3\n\
                  3\n\
                  One\n\
                  3\n\
                  Two\n\
                  3\n\
                  Three\n";
    let mut expected = Nodes::default();
    expected.register_branching_node(
        "COLOR",
        "Pick a color",
        vec![("Red".into(), 1), ("Green".into(), 2), ("Blue".into(), 3)],
    );
    expected.register_terminating_node("One");
    expected.register_terminating_node("Two");
    expected.register_terminating_node("Three");
    assert_eq!(NodesParser::parse_script(script).unwrap(), expected);
}

#[test]
fn parse_assigns_ids_in_record_order() {
    // The registration order below gives node 0, 1, 2 in file order; the
    // parse result only equals it if identifiers follow record order.
    let script = "3\nFirst\n3\nSecond\n3\nThird\n";
    let mut expected = Nodes::default();
    expected.register_terminating_node("First");
    expected.register_terminating_node("Second");
    expected.register_terminating_node("Third");
    assert_eq!(NodesParser::parse_script(script).unwrap(), expected);
}

#[test]
fn parse_empty_script_yields_empty_machine() {
    let parsed = NodesParser::parse_script("").unwrap();
    assert_eq!(parsed, Nodes::default());
    // An empty machine stands at node 0, which does not exist.
    assert!(!parsed.check_well_formed());
}

#[test]
fn parse_strips_carriage_returns() {
    let script = "3\r\nBye\r\n";
    let mut expected = Nodes::default();
    expected.register_terminating_node("Bye");
    assert_eq!(NodesParser::parse_script(script).unwrap(), expected);
}

#[test]
fn parse_accepts_missing_final_newline() {
    let script = "3\nBye";
    let mut expected = Nodes::default();
    expected.register_terminating_node("Bye");
    assert_eq!(NodesParser::parse_script(script).unwrap(), expected);
}

#[test]
fn parse_question_with_zero_prompts() {
    let script = "1\n1\n2\nNAME\n3\nSuccess\n3\nFailed\n";
    let mut expected = Nodes::default();
    expected.register_question_node(1, 2, "NAME", vec![]);
    expected.register_terminating_node("Success");
    expected.register_terminating_node("Failed");
    assert_eq!(NodesParser::parse_script(script).unwrap(), expected);
}

#[test]
fn parse_rejects_unrecognized_tag() {
    assert!(NodesParser::parse_script("4\nWhatever\n").is_err());
}

#[test]
fn parse_rejects_non_integer_tag() {
    assert!(NodesParser::parse_script("hello\n").is_err());
}

#[test]
fn parse_rejects_question_missing_variable_line() {
    assert!(NodesParser::parse_script("1\n1\n2\n").is_err());
}

#[test]
fn parse_rejects_integer_variable_name() {
    assert!(NodesParser::parse_script("1\n1\n2\n123\n").is_err());
}

#[test]
fn parse_rejects_branching_without_options() {
    assert!(NodesParser::parse_script("2\nVAR\nPick one\n3\nBye\n").is_err());
}

#[test]
fn parse_rejects_oversized_destination() {
    let script = "2\nVAR\nPick one\nRed:99999999999999999999999999\n";
    assert!(NodesParser::parse_script(script).is_err());
}

#[test]
fn parse_rejects_oversized_integer_line() {
    let script = "1\n99999999999999999999999999\n3\nNAME\n";
    assert!(NodesParser::parse_script(script).is_err());
}

#[test]
fn parse_rejects_empty_line_in_record() {
    assert!(NodesParser::parse_script("3\n\n").is_err());
}

#[test]
fn parse_rejects_option_text_with_second_colon() {
    // The option text may contain no further `:`, so this line is not an
    // option line at all and the branching record has no options.
    assert!(NodesParser::parse_script("2\nVAR\nPick one\na:b:3\n").is_err());
}

#[test]
fn check_well_formed_rejects_dangling_destination() {
    let script = "1\n1\n50\nNAME\nWhat?\n3\nBye\n";
    let parsed = NodesParser::parse_script(script).unwrap();
    assert!(!parsed.check_well_formed());
}

#[test]
fn check_well_formed_accepts_sentinel_destination() {
    let script = "1\n9999\n9999\nNAME\nWhat?\n";
    let parsed = NodesParser::parse_script(script).unwrap();
    assert!(parsed.check_well_formed());
}
