use poll_registry::poll::{parse_poll, CreateError};
use poll_registry::registry::{help_message, route_poll_command, PollCmd, PollRegistry};
use poll_registry::roll::roll_response;

#[test]
fn create_deduplicates_options() {
    let poll = parse_poll("Pizza or tacos?\npizza\ntacos\npizza").unwrap();
    assert_eq!(poll.question, "Pizza or tacos?");
    assert_eq!(poll.options.len(), 2);
    assert_eq!(poll.options[0].description, "pizza");
    assert_eq!(poll.options[1].description, "tacos");
    assert_eq!(poll.options[0].count, 0);
    assert_eq!(poll.options[1].count, 0);
}

#[test]
fn create_rejects_single_option() {
    assert_eq!(parse_poll("Pizza?\ncrust").unwrap_err(), CreateError::InsufficientOptions);
    assert_eq!(parse_poll("no question here").unwrap_err(), CreateError::MalformedPoll);
}

#[test]
fn new_poll_is_announced() {
    let mut reg = PollRegistry::new();
    let out = reg.poll_new("room", " Pizza or tacos?\npizza\ntacos");
    assert_eq!(out, "Poll #1\nPizza or tacos?\n0. pizza\n1. tacos\n");
}

#[test]
fn new_poll_needs_question_and_options() {
    let mut reg = PollRegistry::new();
    assert_eq!(reg.poll_new("room", " nothing to ask"), "Didn't detect a question.");
    assert_eq!(reg.poll_new("room", " Pizza?\ncrust"), "Need at least two options!");
    assert_eq!(reg.poll_list("room"), "No active polls.");
}

#[test]
fn numeric_vote_increments_exactly_one_option() {
    let mut reg = PollRegistry::new();
    reg.poll_new("room", " Pizza or tacos?\npizza\ntacos");
    let out = reg.poll_vote("room", "alice", " 1 1");
    assert_eq!(out, "alice voted for tacos\n");
    let closed = reg.poll_close("room", " 1");
    assert_eq!(closed, "Poll 1 removed.\nResults of poll: Pizza or tacos?\npizza: 0\ntacos: 1\n");
}

#[test]
fn vote_validation_messages() {
    let mut reg = PollRegistry::new();
    assert_eq!(
        reg.poll_vote("room", "alice", " 1 0"),
        "Vote takes 2 arguments, poll number and choice"
    );
    reg.poll_new("room", " Pizza or tacos?\npizza\ntacos");
    assert_eq!(
        reg.poll_vote("room", "alice", " 1"),
        "Vote takes 2 arguments, poll number and choice"
    );
    assert_eq!(
        reg.poll_vote("room", "alice", " 1 2 3"),
        "Vote takes 2 arguments, poll number and choice"
    );
    assert_eq!(reg.poll_vote("room", "alice", " 9 0"), "Invalid poll");
    assert_eq!(reg.poll_vote("room", "alice", " 1 7"), "Invalid vote option");
}

#[test]
fn text_vote_counts_matching_options() {
    let mut reg = PollRegistry::new();
    reg.poll_new("room", " Pizza or tacos?\npizza\ntacos");
    let out = reg.poll_vote("room", "bob", " 1 PIZZA");
    assert_eq!(out, "bob voted for pizza\n");
    // an option stored with capital letters never equals the folded text
    reg.poll_new("room", " Crust?\nThick\nThin");
    assert_eq!(reg.poll_vote("room", "bob", " 2 Thick"), "");
    let closed = reg.poll_close("room", " 1");
    assert_eq!(closed, "Poll 1 removed.\nResults of poll: Pizza or tacos?\npizza: 1\ntacos: 0\n");
}

#[test]
fn close_removes_poll_from_list() {
    let mut reg = PollRegistry::new();
    reg.poll_new("room", " Pizza or tacos?\npizza\ntacos");
    assert_eq!(reg.poll_list("room"), "Poll 1: Pizza or tacos?\n\t0: pizza\n\t1: tacos\n");
    let closed = reg.poll_close("room", " 1");
    assert!(closed.contains("pizza: 0"));
    assert!(closed.contains("tacos: 0"));
    assert_eq!(reg.poll_list("room"), "No active polls.");
}

#[test]
fn close_by_question_is_case_insensitive() {
    let mut reg = PollRegistry::new();
    reg.poll_new("room", " Pizza or tacos?\npizza\ntacos");
    reg.poll_new("room", " Walk or bike?\nwalk\nbike");
    let closed = reg.poll_close("room", "PIZZA OR TACOS?");
    assert_eq!(
        closed,
        "Poll Pizza or tacos? removed.\nResults of poll: Pizza or tacos?\npizza: 0\ntacos: 0\n"
    );
    assert_eq!(reg.poll_list("room"), "Poll 2: Walk or bike?\n\t0: walk\n\t1: bike\n");
}

#[test]
fn close_error_messages() {
    let mut reg = PollRegistry::new();
    assert_eq!(reg.poll_close("room", " 1"), "No polls in this room.\n");
    reg.poll_new("room", " Pizza or tacos?\npizza\ntacos");
    assert_eq!(reg.poll_close("room", " 5"), "Invalid Index.\n");
    assert_eq!(reg.poll_close("room", "what?"), "Couldn't find matching poll.\n");
}

#[test]
fn closed_id_is_reused() {
    let mut reg = PollRegistry::new();
    reg.poll_new("room", " A?\na\nb");
    reg.poll_new("room", " B?\na\nb");
    reg.poll_new("room", " C?\na\nb");
    reg.poll_close("room", " 1");
    let out = reg.poll_new("room", " D?\na\nb");
    assert_eq!(out, "Poll #1\nD?\n0. a\n1. b\n");
}

#[test]
fn rooms_are_independent() {
    let mut reg = PollRegistry::new();
    reg.poll_new("kitchen", " Pizza or tacos?\npizza\ntacos");
    assert_eq!(reg.poll_list("garage"), "No active polls.");
    assert_eq!(reg.poll_close("garage", " 1"), "No polls in this room.\n");
    assert_eq!(reg.poll_list("kitchen"), "Poll 1: Pizza or tacos?\n\t0: pizza\n\t1: tacos\n");
}

#[test]
fn double_digit_counts_render() {
    let mut reg = PollRegistry::new();
    reg.poll_new("room", " Pizza or tacos?\npizza\ntacos");
    for _ in 0..11 {
        reg.poll_vote("room", "alice", " 1 0");
    }
    let closed = reg.poll_close("room", " 1");
    assert_eq!(closed, "Poll 1 removed.\nResults of poll: Pizza or tacos?\npizza: 11\ntacos: 0\n");
}

#[test]
fn routing_splits_subcommands() {
    match route_poll_command(" vote 1 2") {
        PollCmd::Vote(s) => assert_eq!(s, " 1 2"),
        _ => panic!("expected a vote"),
    }
    match route_poll_command("close My poll?") {
        PollCmd::Close(s) => assert_eq!(s, " My poll?"),
        _ => panic!("expected a close"),
    }
    match route_poll_command("new Q?\na\nb") {
        PollCmd::New(s) => assert_eq!(s, " Q?\na\nb"),
        _ => panic!("expected a new"),
    }
    match route_poll_command("Is this fine?\nyes\nno") {
        PollCmd::New(s) => assert_eq!(s, "Is this fine?\nyes\nno"),
        _ => panic!("expected the whole tail as a new poll"),
    }
    assert!(matches!(route_poll_command(" list "), PollCmd::List));
    assert!(matches!(route_poll_command("bogus"), PollCmd::Help));
    assert!(matches!(route_poll_command(""), PollCmd::Help));
}

#[test]
fn help_text_lists_commands() {
    let h = help_message();
    assert!(h.starts_with("help - print this help message."));
    assert!(h.contains("list - lists the current active polls"));
}

#[test]
fn roll_bounds_and_errors() {
    assert_eq!(
        roll_response(" zero "),
        "Must provide number greater than 0 and less than 2^120, instead of zero"
    );
    assert_eq!(
        roll_response("0"),
        "Must provide number greater than 0 and less than 2^120, instead of 0"
    );
    assert_eq!(roll_response(" 1 "), "1");
    for _ in 0..20 {
        let n: u128 = roll_response("6").parse().unwrap();
        assert!(1 <= n && n <= 6);
    }
}
