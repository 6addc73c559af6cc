use asciibear::chat::ChatState;
use asciibear::command::{BearCommand, BodyPart, TwitchCommand};
use asciibear::events::{
    on_mic_block, on_mouse_move, throttle_tick, MouseSend, MIC_EVENT_PERIOD, MOUSE_EVENT_PERIOD,
};

#[test]
fn throttle_fires_on_multiples() {
    assert_eq!(throttle_tick(0, 3), (1, false));
    assert_eq!(throttle_tick(2, 3), (3, true));
    assert_eq!(throttle_tick(5, 3), (6, true));
    assert_eq!(throttle_tick(6, 3), (7, false));
    assert_eq!(throttle_tick(0, 1), (1, true));
}

#[test]
fn one_event_in_each_period_is_sent() {
    for period in [MIC_EVENT_PERIOD, MOUSE_EVENT_PERIOD] {
        let mut count = 0u32;
        let mut fired = Vec::new();
        for _ in 0..(period * 4) {
            let (next, fire) = throttle_tick(count, period);
            if fire {
                fired.push(next);
            }
            count = next;
        }
        assert_eq!(fired, vec![period, period * 2, period * 3, period * 4]);
    }
}

#[test]
fn microphone_every_third_block() {
    assert_eq!(on_mic_block(0), (1, false));
    assert_eq!(on_mic_block(1), (2, false));
    assert_eq!(on_mic_block(2), (3, true));
}

#[test]
fn mouse_every_thirtieth_move() {
    assert_eq!(on_mouse_move(0, 5, 6), (1, None));
    assert_eq!(on_mouse_move(29, -5, 60), (30, Some(MouseSend::MouseMove(-5, 60))));
    assert_eq!(on_mouse_move(30, 1, 1), (31, None));
    assert_eq!(on_mouse_move(59, 1, 2), (60, Some(MouseSend::MouseMove(1, 2))));
}

#[test]
fn chat_greets_each_viewer_once() {
    let mut chat = ChatState::new();
    assert!(!chat.has_said_hello_to("ann"));
    assert_eq!(chat.on_privmsg("ann", "hello"), None);
    assert!(chat.has_said_hello_to("ann"));
    assert!(!chat.has_said_hello_to("bob"));
    assert_eq!(
        chat.on_privmsg("ann", "!bear eyes: red"),
        Some(TwitchCommand::BearCommands {
            key: "bear".to_string(),
            value: vec![BearCommand::Cmd((BodyPart::Eyes, [255, 0, 0]))],
        })
    );
    assert!(chat.has_said_hello_to("ann"));
    assert_eq!(chat.on_privmsg("bob", "!bear nose: red"), None);
    assert!(chat.has_said_hello_to("bob"));
    assert!(!chat.has_said_hello_to("an"));
}

#[test]
fn mouse_run_sends_every_thirtieth_position() {
    let mut count = 0u32;
    let mut sent = Vec::new();
    for k in 1..=65i32 {
        let (next, send) = on_mouse_move(count, k, -k);
        count = next;
        sent.extend(send);
    }
    assert_eq!(sent, vec![MouseSend::MouseMove(30, -30), MouseSend::MouseMove(60, -60)]);
}

#[test]
fn chat_run_does_not_depend_on_senders() {
    let texts = ["!bear head: red", "hi", "!bear eyes: blue", "!bear nose: red", "!bear head: red"];
    let mut repeated = ChatState::new();
    let mut distinct = ChatState::new();
    let mut out_repeated = Vec::new();
    let mut out_distinct = Vec::new();
    for (i, t) in texts.iter().enumerate() {
        out_repeated.extend(repeated.on_privmsg("ann", t));
        out_distinct.extend(distinct.on_privmsg(&format!("viewer{}", i), t));
    }
    assert_eq!(out_repeated, out_distinct);
    assert_eq!(out_repeated.len(), 3);
    assert_eq!(
        out_repeated[1],
        TwitchCommand::BearCommands {
            key: "bear".to_string(),
            value: vec![BearCommand::Cmd((BodyPart::Eyes, [0, 0, 255]))],
        }
    );
    assert!(distinct.has_said_hello_to("viewer4"));
    assert!(!repeated.has_said_hello_to("viewer4"));
}
