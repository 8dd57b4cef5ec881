use madhouse_steve_tmi::{parse_message, DecodedMessage, ProtocolParseError};

fn decode(line: &str) -> DecodedMessage {
    match parse_message(String::from(line)) {
        Ok(message) => message,
        Err(error) => panic!("{:?} for {:?}", error, line),
    }
}

fn refusal(line: &str) -> Option<ProtocolParseError> {
    parse_message(String::from(line)).err()
}

fn tag<'a>(message: &'a DecodedMessage, key: &str) -> Option<&'a str> {
    message.metadata.get(key).map(|value| value.as_str())
}

#[test]
fn tagged_chat_message() {
    let message = decode(
        "@badge-info=;badges=broadcaster/1;color=#FF0000 :steve!steve@steve.tmi.twitch.tv PRIVMSG #madhousesteve :Hello World",
    );
    assert_eq!(message.metadata.len(), 3);
    assert_eq!(tag(&message, "badge-info"), Some(""));
    assert_eq!(tag(&message, "badges"), Some("broadcaster/1"));
    assert_eq!(tag(&message, "color"), Some("#FF0000"));
    assert_eq!(message.from, "steve");
    assert_eq!(message.command, "PRIVMSG");
    assert_eq!(message.target.as_deref(), Some("#madhousesteve"));
    assert_eq!(message.params, "Hello World");
}

#[test]
fn server_welcome() {
    let message = decode(":tmi.twitch.tv 001 madhousesteve :Welcome, GLHF!");
    assert!(message.metadata.is_empty());
    assert_eq!(message.from, "tmi.twitch.tv");
    assert_eq!(message.command, "001");
    assert_eq!(message.target.as_deref(), Some("madhousesteve"));
    assert_eq!(message.params, "Welcome, GLHF!");
}

#[test]
fn line_without_tag_block_has_no_metadata() {
    for line in [
        ":tmi.twitch.tv 001 madhousesteve :Welcome, GLHF!",
        ":steve!steve@steve.tmi.twitch.tv JOIN #madhousesteve",
        ":a B",
        ":a B @c=d",
        ":a @b=c d",
    ] {
        let message = decode(line);
        assert!(message.metadata.is_empty(), "{:?}", line);
        assert_eq!(message.metadata.len(), 0, "{:?}", line);
    }
}

#[test]
fn at_sign_behind_the_first_token_starts_no_tag_block() {
    let message = decode(":a @b=c d");
    assert_eq!(message.from, "a");
    assert_eq!(message.command, "@b=c");
    assert_eq!(message.target.as_deref(), Some("d"));
}

#[test]
fn tag_value_keeps_further_equal_signs() {
    let message = decode("@url=a=b=c;flags==;empty= :x Y");
    assert_eq!(message.metadata.len(), 3);
    assert_eq!(tag(&message, "url"), Some("a=b=c"));
    assert_eq!(tag(&message, "flags"), Some("="));
    assert_eq!(tag(&message, "empty"), Some(""));
    assert_eq!(tag(&message, "missing"), None);
}

#[test]
fn tag_key_does_not_keep_the_at_sign() {
    let message = decode("@first=1;second=2 :x Y");
    assert_eq!(tag(&message, "first"), Some("1"));
    assert_eq!(tag(&message, "@first"), None);
    assert_eq!(tag(&message, "second"), Some("2"));
}

#[test]
fn single_tag() {
    let message = decode("@k=v :x Y");
    assert_eq!(message.metadata.len(), 1);
    assert_eq!(tag(&message, "k"), Some("v"));
}

#[test]
fn empty_tag_key() {
    let message = decode("@=v :x Y");
    assert_eq!(message.metadata.len(), 1);
    assert_eq!(tag(&message, ""), Some("v"));
}

#[test]
fn later_entry_replaces_earlier_of_same_key() {
    let message = decode("@a=1;b=2;a=3 :x Y");
    assert_eq!(message.metadata.len(), 2);
    assert_eq!(tag(&message, "a"), Some("3"));
    assert_eq!(tag(&message, "b"), Some("2"));
}

#[test]
fn tag_entry_without_equal_sign_is_malformed() {
    assert_eq!(refusal("@a :x Y"), Some(ProtocolParseError::MalformedTag));
    assert_eq!(refusal("@a=1;b :x Y"), Some(ProtocolParseError::MalformedTag));
    assert_eq!(refusal("@a;b=1 :x Y"), Some(ProtocolParseError::MalformedTag));
}

#[test]
fn empty_tag_entry_is_malformed() {
    assert_eq!(refusal("@ :x Y"), Some(ProtocolParseError::MalformedTag));
    assert_eq!(refusal("@a=1; :x Y"), Some(ProtocolParseError::MalformedTag));
    assert_eq!(refusal("@;a=1 :x Y"), Some(ProtocolParseError::MalformedTag));
    assert_eq!(refusal("@a=1;;b=2 :x Y"), Some(ProtocolParseError::MalformedTag));
}

#[test]
fn malformed_tag_is_reported_before_missing_tokens() {
    assert_eq!(refusal("@a"), Some(ProtocolParseError::MalformedTag));
    assert_eq!(refusal("@"), Some(ProtocolParseError::MalformedTag));
    assert_eq!(refusal("@a x"), Some(ProtocolParseError::MalformedTag));
}

#[test]
fn empty_line_has_no_prefix() {
    assert_eq!(refusal(""), Some(ProtocolParseError::MissingPrefix));
}

#[test]
fn line_without_colon_has_no_prefix() {
    assert_eq!(refusal("PRIVMSG #c :hi"), Some(ProtocolParseError::MissingPrefix));
    assert_eq!(refusal("x"), Some(ProtocolParseError::MissingPrefix));
    assert_eq!(refusal(" :x Y"), Some(ProtocolParseError::MissingPrefix));
}

#[test]
fn tag_block_alone_has_no_prefix() {
    assert_eq!(refusal("@a=b"), Some(ProtocolParseError::MissingPrefix));
    assert_eq!(refusal("@a=b "), Some(ProtocolParseError::MissingPrefix));
    assert_eq!(refusal("@a=b x Y"), Some(ProtocolParseError::MissingPrefix));
}

#[test]
fn prefix_alone_has_no_command() {
    assert_eq!(refusal(":x"), Some(ProtocolParseError::MissingCommand));
    assert_eq!(refusal(":"), Some(ProtocolParseError::MissingCommand));
    assert_eq!(refusal("@a=b :x"), Some(ProtocolParseError::MissingCommand));
    assert_eq!(refusal(":nick!user@host"), Some(ProtocolParseError::MissingCommand));
}

#[test]
fn sender_with_user_and_host() {
    assert_eq!(decode(":nick!user@host.example CMD").from, "nick");
}

#[test]
fn sender_with_host() {
    assert_eq!(decode(":user@host.example CMD").from, "user");
}

#[test]
fn sender_bare() {
    assert_eq!(decode(":host.example CMD").from, "host.example");
}

#[test]
fn sender_loses_one_colon_only() {
    assert_eq!(decode("::x CMD").from, ":x");
    assert_eq!(decode(":::x!u@h CMD").from, "::x");
}

#[test]
fn sender_is_cut_at_the_first_of_each_mark() {
    assert_eq!(decode(":a!b!c@d@e CMD").from, "a");
    assert_eq!(decode(":a@b!c CMD").from, "a");
    assert_eq!(decode(":a!b CMD").from, "a");
}

#[test]
fn sender_may_be_empty() {
    assert_eq!(decode(": CMD").from, "");
    assert_eq!(decode(":!user@host CMD").from, "");
    assert_eq!(decode(":@host CMD").from, "");
}

#[test]
fn command_alone_has_no_target_and_empty_params() {
    let message = decode(":tmi.twitch.tv RECONNECT");
    assert_eq!(message.command, "RECONNECT");
    assert_eq!(message.target, None);
    assert_eq!(message.params, "");

    let tagged = decode("@a=b :tmi.twitch.tv RECONNECT");
    assert_eq!(tagged.command, "RECONNECT");
    assert_eq!(tagged.target, None);
    assert_eq!(tagged.params, "");
}

#[test]
fn target_without_params() {
    let message = decode(":steve!steve@steve.tmi.twitch.tv JOIN #madhousesteve");
    assert_eq!(message.from, "steve");
    assert_eq!(message.command, "JOIN");
    assert_eq!(message.target.as_deref(), Some("#madhousesteve"));
    assert_eq!(message.params, "");
}

#[test]
fn params_without_colon_are_kept_whole() {
    let message = decode(":tmi.twitch.tv 353 bot = #room :a b c");
    assert_eq!(message.command, "353");
    assert_eq!(message.target.as_deref(), Some("bot"));
    assert_eq!(message.params, "= #room :a b c");
}

#[test]
fn params_lose_one_colon_only() {
    assert_eq!(decode(":x CMD #c ::a").params, ":a");
    assert_eq!(decode(":x CMD #c :").params, "");
    assert_eq!(decode(":x CMD #c :a :b").params, "a :b");
}

#[test]
fn params_keep_their_spaces() {
    assert_eq!(decode(":x CMD #c :a  b ").params, "a  b ");
    assert_eq!(decode(":x CMD #c  ").params, " ");
    assert_eq!(decode(":x CMD #c ").params, "");
}

#[test]
fn two_spaces_make_an_empty_token() {
    let message = decode(":x  #c rest");
    assert_eq!(message.command, "");
    assert_eq!(message.target.as_deref(), Some("#c"));
    assert_eq!(message.params, "rest");

    let message = decode(":x CMD ");
    assert_eq!(message.command, "CMD");
    assert_eq!(message.target.as_deref(), Some(""));
    assert_eq!(message.params, "");
}

#[test]
fn characters_outside_ascii_are_kept() {
    let message = decode("@display-name=Zoë;emote=✓=✓ :zoë!zoë@zoë.example PRIVMSG #café :héllo wörld ✓ 日本語");
    assert_eq!(tag(&message, "display-name"), Some("Zoë"));
    assert_eq!(tag(&message, "emote"), Some("✓=✓"));
    assert_eq!(message.from, "zoë");
    assert_eq!(message.command, "PRIVMSG");
    assert_eq!(message.target.as_deref(), Some("#café"));
    assert_eq!(message.params, "héllo wörld ✓ 日本語");
}

#[test]
fn other_white_space_separates_nothing() {
    let message = decode(":x CMD\t#c :a");
    assert_eq!(message.command, "CMD\t#c");
    assert_eq!(message.target.as_deref(), Some(":a"));
    assert_eq!(message.params, "");
}

#[test]
fn probe_given_to_the_decoder_has_no_prefix() {
    assert_eq!(refusal("PING :tmi.twitch.tv"), Some(ProtocolParseError::MissingPrefix));
}
