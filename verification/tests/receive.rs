use madhouse_steve_tmi::{frame_line, handle_line, handle_read, LineAction, ProtocolParseError};

fn reply(action: &LineAction) -> Option<&str> {
    match action {
        LineAction::Reply(line) => Some(line.as_str()),
        _ => None,
    }
}

fn delivered(action: &LineAction) -> (&str, &str, Option<&str>, &str) {
    match action {
        LineAction::Deliver(message) => (
            message.from.as_str(),
            message.command.as_str(),
            message.target.as_deref(),
            message.params.as_str(),
        ),
        LineAction::Reply(line) => panic!("reply {:?}", line),
        LineAction::Reject(error) => panic!("{:?}", error),
    }
}

fn rejected(action: &LineAction) -> Option<ProtocolParseError> {
    match action {
        LineAction::Reject(error) => Some(*error),
        _ => None,
    }
}

#[test]
fn probe_is_answered_and_not_delivered() {
    let action = handle_line(String::from("PING :tmi.twitch.tv"));
    assert_eq!(reply(&action), Some("PONG :tmi.twitch.tv"));
    assert!(!matches!(action, LineAction::Deliver(_)));
    assert!(!matches!(action, LineAction::Reject(_)));
}

#[test]
fn read_of_a_probe_gives_the_answer_alone() {
    let actions = handle_read("PING :tmi.twitch.tv\r\n");
    assert_eq!(actions.len(), 1);
    assert_eq!(reply(&actions[0]), Some("PONG :tmi.twitch.tv"));
}

#[test]
fn answer_goes_out_with_its_terminator() {
    let actions = handle_read("PING :tmi.twitch.tv\r\n");
    let line = reply(&actions[0]).unwrap();
    assert_eq!(frame_line(line), "PONG :tmi.twitch.tv\r\n");
}

#[test]
fn probe_argument_is_echoed_verbatim() {
    assert_eq!(reply(&handle_line(String::from("PING PING x"))), Some("PONG PING x"));
    assert_eq!(reply(&handle_line(String::from("PING "))), Some("PONG "));
    assert_eq!(reply(&handle_line(String::from("PING  a  b "))), Some("PONG  a  b "));
    assert_eq!(reply(&handle_line(String::from("PING :zoë ✓"))), Some("PONG :zoë ✓"));
}

#[test]
fn probe_word_must_match_exactly() {
    assert_eq!(rejected(&handle_line(String::from("PING"))), Some(ProtocolParseError::MissingPrefix));
    assert_eq!(rejected(&handle_line(String::from("ping :x"))), Some(ProtocolParseError::MissingPrefix));
    assert_eq!(rejected(&handle_line(String::from("PINGS x"))), Some(ProtocolParseError::MissingPrefix));
    assert_eq!(rejected(&handle_line(String::from(" PING x"))), Some(ProtocolParseError::MissingPrefix));
}

#[test]
fn probe_word_inside_a_line_is_no_probe() {
    let action = handle_line(String::from(":a PRIVMSG #c :PING me"));
    assert_eq!(delivered(&action), ("a", "PRIVMSG", Some("#c"), "PING me"));
}

#[test]
fn other_line_is_decoded() {
    let action = handle_line(String::from(":tmi.twitch.tv 001 madhousesteve :Welcome, GLHF!"));
    assert_eq!(delivered(&action), ("tmi.twitch.tv", "001", Some("madhousesteve"), "Welcome, GLHF!"));
}

#[test]
fn several_lines_in_one_read_keep_their_order() {
    let actions = handle_read(":a X\r\n:b Y #c :hi there\r\n:c Z #d\r\n");
    assert_eq!(actions.len(), 3);
    assert_eq!(delivered(&actions[0]), ("a", "X", None, ""));
    assert_eq!(delivered(&actions[1]), ("b", "Y", Some("#c"), "hi there"));
    assert_eq!(delivered(&actions[2]), ("c", "Z", Some("#d"), ""));
}

#[test]
fn probe_between_messages_is_answered_in_place() {
    let actions = handle_read(":a X\r\nPING 1\r\n:b Y\r\nPING 2");
    assert_eq!(actions.len(), 4);
    assert_eq!(delivered(&actions[0]), ("a", "X", None, ""));
    assert_eq!(reply(&actions[1]), Some("PONG 1"));
    assert_eq!(delivered(&actions[2]), ("b", "Y", None, ""));
    assert_eq!(reply(&actions[3]), Some("PONG 2"));
}

#[test]
fn malformed_line_is_reported_and_the_rest_goes_on() {
    let actions = handle_read(":a X\r\n@bad :b Y\r\nnoprefix\r\n:c\r\n:d Z\r\n");
    assert_eq!(actions.len(), 5);
    assert_eq!(delivered(&actions[0]), ("a", "X", None, ""));
    assert_eq!(rejected(&actions[1]), Some(ProtocolParseError::MalformedTag));
    assert_eq!(rejected(&actions[2]), Some(ProtocolParseError::MissingPrefix));
    assert_eq!(rejected(&actions[3]), Some(ProtocolParseError::MissingCommand));
    assert_eq!(delivered(&actions[4]), ("d", "Z", None, ""));
}

#[test]
fn line_ends_behind_the_last_line_are_dropped() {
    for data in [":a X", ":a X\r\n", ":a X\n", ":a X\r", ":a X\r\n\r\n", ":a X\n\r\n\n\r\r"] {
        let actions = handle_read(data);
        assert_eq!(actions.len(), 1, "{:?}", data);
        assert_eq!(delivered(&actions[0]), ("a", "X", None, ""), "{:?}", data);
    }
}

#[test]
fn empty_line_between_two_is_rejected() {
    let actions = handle_read(":a X\r\n\r\n:b Y\r\n");
    assert_eq!(actions.len(), 3);
    assert_eq!(delivered(&actions[0]), ("a", "X", None, ""));
    assert_eq!(rejected(&actions[1]), Some(ProtocolParseError::MissingPrefix));
    assert_eq!(delivered(&actions[2]), ("b", "Y", None, ""));
}

#[test]
fn read_without_text_holds_one_empty_line() {
    for data in ["", "\r\n", "\n", "\r\n\r\n"] {
        let actions = handle_read(data);
        assert_eq!(actions.len(), 1, "{:?}", data);
        assert_eq!(rejected(&actions[0]), Some(ProtocolParseError::MissingPrefix), "{:?}", data);
    }
}

#[test]
fn terminator_at_the_start_makes_an_empty_first_line() {
    let actions = handle_read("\r\n:a X\r\n");
    assert_eq!(actions.len(), 2);
    assert_eq!(rejected(&actions[0]), Some(ProtocolParseError::MissingPrefix));
    assert_eq!(delivered(&actions[1]), ("a", "X", None, ""));
}

#[test]
fn lone_line_feed_or_carriage_return_ends_no_line() {
    let actions = handle_read(":a X #c :one\ntwo\rthree\r\n");
    assert_eq!(actions.len(), 1);
    assert_eq!(delivered(&actions[0]), ("a", "X", Some("#c"), "one\ntwo\rthree"));
}

#[test]
fn carriage_return_before_a_terminator_stays_in_the_line() {
    let actions = handle_read(":a X #c :one\r\r\n:b Y\r\n");
    assert_eq!(actions.len(), 2);
    assert_eq!(delivered(&actions[0]), ("a", "X", Some("#c"), "one\r"));
    assert_eq!(delivered(&actions[1]), ("b", "Y", None, ""));
}

#[test]
fn read_with_tagged_message_and_probe() {
    let actions = handle_read(
        "@badge-info=;badges=broadcaster/1;color=#FF0000 :steve!steve@steve.tmi.twitch.tv PRIVMSG #madhousesteve :Hello World\r\nPING :tmi.twitch.tv\r\n",
    );
    assert_eq!(actions.len(), 2);
    assert_eq!(delivered(&actions[0]), ("steve", "PRIVMSG", Some("#madhousesteve"), "Hello World"));
    match &actions[0] {
        LineAction::Deliver(message) => {
            assert_eq!(message.metadata.len(), 3);
            assert_eq!(message.metadata.get("color").map(|v| v.as_str()), Some("#FF0000"));
        },
        _ => unreachable!(),
    }
    assert_eq!(reply(&actions[1]), Some("PONG :tmi.twitch.tv"));
}
