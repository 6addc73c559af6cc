use asciibear::command::{
    bear_command, bear_command_for, bear_command_head, bear_command_list, bear_command_prep, body_part,
    colon_separator, message_is_readable, parse_incoming_twitch_message, part_body, part_eyes,
    part_head, part_keys, space1, tag, tag_no_case, BearCommand, BodyPart, TwitchCommand,
};

fn bear(value: Vec<BearCommand>) -> Option<TwitchCommand> {
    Some(TwitchCommand::BearCommands { key: "bear".to_string(), value })
}

#[test]
fn single_entry_with_colon() {
    let (rest, cmd) = parse_incoming_twitch_message("!bear head: red");
    assert_eq!(rest, "red");
    assert_eq!(cmd, bear(vec![BearCommand::Cmd((BodyPart::Head, [255, 0, 0]))]));
}

#[test]
fn single_entry_without_colon() {
    let (rest, cmd) = parse_incoming_twitch_message("!bear body blue");
    assert_eq!(rest, "blue");
    assert_eq!(cmd, bear(vec![BearCommand::Cmd((BodyPart::Body, [0, 0, 255]))]));
}

#[test]
fn tab_and_trailing_white_space() {
    let (rest, cmd) = parse_incoming_twitch_message("!bear eyes:\t Green \u{3000}");
    assert_eq!(rest, "Green \u{3000}");
    assert_eq!(cmd, bear(vec![BearCommand::Cmd((BodyPart::Eyes, [0, 128, 0]))]));
}

#[test]
fn colour_name_in_any_case() {
    let (_, cmd) = parse_incoming_twitch_message("!bear keys: dArKbLuE");
    assert_eq!(cmd, bear(vec![BearCommand::Cmd((BodyPart::Keys, [0, 0, 139]))]));
}

#[test]
fn unknown_colour_gives_nothing() {
    let (rest, cmd) = parse_incoming_twitch_message("!bear keys: notacolour");
    assert_eq!(rest, "notacolour");
    assert_eq!(cmd, bear(vec![BearCommand::Nothing]));
}

#[test]
fn blank_colour_gives_nothing() {
    let (rest, cmd) = parse_incoming_twitch_message("!bear head:   ");
    assert_eq!(rest, "");
    assert_eq!(cmd, bear(vec![BearCommand::Nothing]));
}

#[test]
fn prefix_in_any_case() {
    let a = parse_incoming_twitch_message("!BeAR head: red");
    let b = parse_incoming_twitch_message("!bear head: red");
    assert_eq!(a, b);
    assert_eq!(a.1, bear(vec![BearCommand::Cmd((BodyPart::Head, [255, 0, 0]))]));
}

#[test]
fn other_messages_are_ignored() {
    for m in ["hello", "", "!bear", "!bear ", "!bearhead: red", "!bear hat: red", "!bear head:red",
        "!bear Head: red", " !bear head: red", "!bea"]
    {
        assert_eq!(parse_incoming_twitch_message(m), (m, None), "{:?}", m);
    }
}

#[test]
fn colour_text_runs_to_the_end() {
    let (rest, cmd) = parse_incoming_twitch_message("!bear head: red, body: blue");
    assert_eq!(rest, "red, body: blue");
    assert_eq!(cmd, bear(vec![BearCommand::Nothing]));
}

#[test]
fn second_entry_after_blank_colour() {
    let (rest, cmd) = parse_incoming_twitch_message("!bear head: , eyes: blue");
    assert_eq!(rest, "blue");
    assert_eq!(
        cmd,
        bear(vec![BearCommand::Nothing, BearCommand::Cmd((BodyPart::Eyes, [0, 0, 255]))])
    );
}

#[test]
fn list_stops_before_a_dangling_separator() {
    let (rest, cmd) = parse_incoming_twitch_message("!bear head: , body");
    assert_eq!(rest, ", body");
    assert_eq!(cmd, bear(vec![BearCommand::Nothing]));
}

#[test]
fn readable_messages() {
    assert!(message_is_readable("!bear head: red"));
    assert!(message_is_readable("hello \u{e9}"));
    assert!(message_is_readable("!bear hat: \u{e9}"));
    assert!(message_is_readable("!bear head:   "));
    assert!(!message_is_readable("!bear head: \u{e9}t\u{e9}"));
    assert!(!message_is_readable("!bear head: , eyes: \u{212a}"));
    assert!(message_is_readable("!bear head: r\u{e9}d"));
}

#[test]
fn tags() {
    assert_eq!(tag("head: x", &['h', 'e', 'a', 'd']), Some(": x"));
    assert_eq!(tag("hea", &['h', 'e', 'a', 'd']), None);
    assert_eq!(tag("Head", &['h', 'e', 'a', 'd']), None);
    assert_eq!(tag_no_case("!BEAR x", &['!', 'b', 'e', 'a', 'r', ' ']), Some("x"));
    assert_eq!(tag_no_case("!bEa", &['!', 'b', 'e', 'a', 'r', ' ']), None);
    assert_eq!(space1(" \t x"), Some("x"));
    assert_eq!(space1("x"), None);
    assert_eq!(space1(""), None);
    assert_eq!(space1("  "), Some(""));
}

#[test]
fn body_parts() {
    assert_eq!(part_head("head"), Some(("", BodyPart::Head)));
    assert_eq!(part_body("body x"), Some((" x", BodyPart::Body)));
    assert_eq!(part_keys("keys"), Some(("", BodyPart::Keys)));
    assert_eq!(part_eyes("eyes:"), Some((":", BodyPart::Eyes)));
    assert_eq!(part_eyes("head"), None);
    assert_eq!(body_part("keys: red"), Some((": red", BodyPart::Keys)));
    assert_eq!(body_part("nose: red"), None);
}

#[test]
fn colon_separators() {
    assert_eq!(colon_separator(": red"), Some("red"));
    assert_eq!(colon_separator("  red"), Some("red"));
    assert_eq!(colon_separator(":red"), None);
    assert_eq!(colon_separator("::  red"), None);
    assert_eq!(colon_separator(""), None);
}

#[test]
fn entries() {
    assert_eq!(bear_command_head("eyes: pink"), Some(("pink", BodyPart::Eyes)));
    assert_eq!(
        bear_command_prep("eyes: pink"),
        Some(("pink", BearCommand::Cmd((BodyPart::Eyes, [255, 192, 203]))))
    );
    assert_eq!(bear_command_prep("eyes:pink"), None);
    assert_eq!(
        bear_command_list("body: , head: white"),
        Some(("white", vec![BearCommand::Nothing, BearCommand::Cmd((BodyPart::Head, [255, 255, 255]))]))
    );
    assert_eq!(bear_command_list("nose: white"), None);
    assert_eq!(
        bear_command("!Bear head: black"),
        Some(("black", TwitchCommand::BearCommands {
            key: "bear".to_string(),
            value: vec![BearCommand::Cmd((BodyPart::Head, [0, 0, 0]))],
        }))
    );
    assert_eq!(bear_command("bear head: black"), None);
}

#[test]
fn entry_from_lookup() {
    assert_eq!(bear_command_for(BodyPart::Keys, Some([1, 2, 3])), BearCommand::Cmd((BodyPart::Keys, [1, 2, 3])));
    assert_eq!(bear_command_for(BodyPart::Head, None), BearCommand::Nothing);
}
