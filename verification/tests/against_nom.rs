//! The parser checked against the same grammar written with nom's
//! combinators, on messages that both can read.

use asciibear::command::{
    message_is_readable, parse_incoming_twitch_message, BearCommand, BodyPart, TwitchCommand,
};
use nom::branch::alt;
use nom::bytes::complete::{tag, tag_no_case};
use nom::character::complete::space1;
use nom::combinator::opt;
use nom::multi::separated_list1;
use nom::sequence::{preceded, tuple};
use nom::IResult;

fn nom_message(source: &str) -> IResult<&str, Option<TwitchCommand>> {
    opt(nom_command)(source)
}

fn nom_command(source: &str) -> IResult<&str, TwitchCommand> {
    let (source, cmds) = preceded(tag_no_case("!bear "), nom_list)(source)?;
    Ok((source, TwitchCommand::BearCommands { key: "bear".to_string(), value: cmds }))
}

fn nom_list(source: &str) -> IResult<&str, Vec<BearCommand>> {
    separated_list1(tag(", "), nom_entry)(source)
}

fn nom_colon(source: &str) -> IResult<&str, &str> {
    let (source, _) = opt(tag(":"))(source)?;
    let (source, _) = space1(source)?;
    Ok((source, ""))
}

fn nom_color(source: &str) -> IResult<&str, Option<[u8; 3]>> {
    match color_name::css::Color::val().by_string(source.trim().to_string()) {
        Ok(rgb) => Ok((source, Some(rgb))),
        Err(_) => Ok((source, None)),
    }
}

fn nom_part(source: &str) -> IResult<&str, BodyPart> {
    let (rest, word) = alt((tag("head"), tag("body"), tag("keys"), tag("eyes")))(source)?;
    let part = match word {
        "head" => BodyPart::Head,
        "body" => BodyPart::Body,
        "keys" => BodyPart::Keys,
        _ => BodyPart::Eyes,
    };
    Ok((rest, part))
}

fn nom_entry(source: &str) -> IResult<&str, BearCommand> {
    let (source, cmd) = tuple((nom_part, nom_colon, nom_color))(source)?;
    match cmd.2 {
        Some(rgb) => Ok((source, BearCommand::Cmd((cmd.0, rgb)))),
        None => Ok((source, BearCommand::Nothing)),
    }
}

#[test]
fn agrees_with_nom_on_a_corpus() {
    let heads = ["!bear ", "!BEAR ", "!Bear ", "!bear", "bear ", "", "!bear  "];
    let entries = [
        "head: red", "body blue", "keys:\tgreen", "eyes:  Indigo ", "head:", "head: ", "nose: red",
        "eyes:pink", "body: nope", "keys: , eyes: white", "head: red, body: blue", ", head: red",
        "head \u{3000}teal\u{3000}", "eyes: \t", "Head: red", "keys: DarkBlue, ",
    ];
    let tails = ["", ", body: black", ", ", ", nose: red", ",body: red", " extra"];
    let mut checked = 0;
    for h in heads {
        for e in entries {
            for t in tails {
                let m = format!("{}{}{}", h, e, t);
                assert!(message_is_readable(&m));
                let (rest, cmd) = nom_message(&m).unwrap();
                assert_eq!(parse_incoming_twitch_message(&m), (rest, cmd), "{:?}", m);
                checked += 1;
            }
        }
    }
    assert_eq!(checked, heads.len() * entries.len() * tails.len());
}
