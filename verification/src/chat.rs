//! What the chat listener remembers between messages.

use vstd::prelude::*;
use vstd::hash_set::StringHashSet;
use crate::command::{
    TwitchCommand, BearCommand, parse_incoming_twitch_message, spec_parse, is_bear_commands,
};
use crate::grammar::message_readable;

verus! {

/// The state of the chat listener: the names of the viewers it has already
/// greeted.
pub struct ChatState {
    said_hello_to: StringHashSet,
}

impl View for ChatState {
    type V = Set<Seq<char>>;

    closed spec fn view(&self) -> Set<Seq<char>> {
        self.said_hello_to@
    }
}

impl ChatState {
    /// A listener that has greeted nobody yet.
    pub fn new() -> (r: Self)
        ensures
            r@ == Set::<Seq<char>>::empty(),
    {
        ChatState { said_hello_to: StringHashSet::new() }
    }

    /// Whether the viewer `name` has been greeted.
    pub fn has_said_hello_to(&self, name: &str) -> (r: bool)
        ensures
            r == self@.contains(name@),
    {
        self.said_hello_to.contains(name)
    }

    /// Handles a chat message from `sender`: the sender counts as greeted
    /// from now on, and the message's command, if it is one, is returned.
    pub fn on_privmsg(&mut self, sender: &str, text: &str) -> (r: Option<TwitchCommand>)
        requires
            message_readable(text@),
        ensures
            final(self)@ == old(self)@.insert(sender@),
            match spec_parse(text@).1 {
                Some(cs) => r matches Some(c) && is_bear_commands(c, cs),
                None => r is None,
            },
    {
        if !self.said_hello_to.contains(sender) {
            self.said_hello_to.insert(String::from_str(sender));
        } else {
            assert(old(self)@.insert(sender@) =~= old(self)@);
        }
        parse_incoming_twitch_message(text).1
    }
}

/// Greeting is idempotent: a second message from the same viewer leaves
/// the set of greeted viewers as the first one left it.
pub proof fn lemma_greeting_idempotent(greeted: Set<Seq<char>>, sender: Seq<char>)
    ensures
        greeted.insert(sender).insert(sender) == greeted.insert(sender),
{
    assert(greeted.insert(sender).insert(sender) =~= greeted.insert(sender));
}

/// The greeted set and the commands returned, in order, after the listener,
/// starting with `greeted`, has handled the messages `msgs`, each a sender
/// and a text, one `on_privmsg` call each.
pub open spec fn chat_run(greeted: Set<Seq<char>>, msgs: Seq<(Seq<char>, Seq<char>)>) -> (
    Set<Seq<char>>,
    Seq<Seq<BearCommand>>,
)
    decreases msgs.len(),
{
    if msgs.len() == 0 {
        (greeted, Seq::empty())
    } else {
        let before = chat_run(greeted, msgs.drop_last());
        let (sender, text) = msgs.last();
        (
            before.0.insert(sender),
            match spec_parse(text).1 {
                Some(cs) => before.1.push(cs),
                None => before.1,
            },
        )
    }
}

/// The commands of the texts that are commands, in order.
pub open spec fn commands_of(texts: Seq<Seq<char>>) -> Seq<Seq<BearCommand>>
    decreases texts.len(),
{
    if texts.len() == 0 {
        Seq::empty()
    } else {
        let before = commands_of(texts.drop_last());
        match spec_parse(texts.last()).1 {
            Some(cs) => before.push(cs),
            None => before,
        }
    }
}

/// Over a whole run, the listener returns exactly the commands of the texts,
/// in the order the messages came, and has greeted every sender.
pub proof fn lemma_chat_run(greeted: Set<Seq<char>>, msgs: Seq<(Seq<char>, Seq<char>)>)
    ensures
        chat_run(greeted, msgs).1 == commands_of(
            msgs.map_values(|m: (Seq<char>, Seq<char>)| m.1),
        ),
        chat_run(greeted, msgs).0 == greeted + msgs.map_values(
            |m: (Seq<char>, Seq<char>)| m.0,
        ).to_set(),
    decreases msgs.len(),
{
    let texts = |m: (Seq<char>, Seq<char>)| m.1;
    let senders = |m: (Seq<char>, Seq<char>)| m.0;
    if msgs.len() == 0 {
        assert(msgs.map_values(texts) =~= Seq::<Seq<char>>::empty());
        assert(msgs.map_values(senders).to_set() =~= Set::<Seq<char>>::empty());
        assert(greeted + Set::<Seq<char>>::empty() =~= greeted);
    } else {
        let d = msgs.drop_last();
        lemma_chat_run(greeted, d);
        assert(msgs.map_values(texts).drop_last() =~= d.map_values(texts));
        assert(msgs.map_values(senders) =~= d.map_values(senders).push(msgs.last().0));
        d.map_values(senders).lemma_push_to_set_commute(msgs.last().0);
        assert(chat_run(greeted, msgs).0 =~= greeted + msgs.map_values(senders).to_set());
    }
}

/// What the listener returns never depends on who sent the messages, nor on
/// whom it had greeted before: runs over the same texts return the same
/// commands.
pub proof fn lemma_chat_ignores_senders(
    greeted1: Set<Seq<char>>,
    msgs1: Seq<(Seq<char>, Seq<char>)>,
    greeted2: Set<Seq<char>>,
    msgs2: Seq<(Seq<char>, Seq<char>)>,
)
    requires
        msgs1.map_values(|m: (Seq<char>, Seq<char>)| m.1) == msgs2.map_values(
            |m: (Seq<char>, Seq<char>)| m.1,
        ),
    ensures
        chat_run(greeted1, msgs1).1 == chat_run(greeted2, msgs2).1,
{
    lemma_chat_run(greeted1, msgs1);
    lemma_chat_run(greeted2, msgs2);
}

} // verus!
