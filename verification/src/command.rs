//! The commands that viewers send from chat, and their parser.

use vstd::prelude::*;
use crate::text::{spec_trim, is_white_space, lemma_trim_removes_only_white_space};
use crate::color::{css_color_by_name, get_color_by_name, color_text_readable, color_name_readable};
use crate::grammar::{
    starts_with, ascii_lower, starts_with_no_case, blank_run, spec_body_part, spec_colon_separator,
    spec_entry_head, spec_entry, entry_readable, lemma_blank_run, lemma_skip_skip,
    lemma_entry_head_len, spec_list_tail, spec_command_list, spec_bear_command, list_tail_readable,
    command_list_readable, message_readable, entry_separator, command_prefix,
    lemma_command_list_len, lemma_list_tail_len, command_for,
};

verus! {

/// A part of the bear whose colour can be set.
#[derive(Debug, PartialEq, Eq, Clone, Copy)]
pub enum BodyPart {
    Head,
    Body,
    Keys,
    Eyes,
    Nothing,
}

/// One entry of a bear command: a part and its colour, or an entry whose
/// colour was not recognised.
#[derive(Debug, PartialEq, Eq, Clone, Copy)]
pub enum BearCommand {
    Cmd((BodyPart, [u8; 3])),
    Nothing,
}

/// A colour by name for one part of the bear.
#[derive(Debug, PartialEq, Eq)]
pub enum BearColor {
    Body(Option<String>),
    Eyes(Option<String>),
    Head(Option<String>),
    Keys(Option<String>),
    Nothing,
}

/// A command read from chat, in the shape that is sent to the page.
#[derive(Debug, PartialEq, Eq)]
pub enum TwitchCommand {
    BearCommands { key: String, value: Vec<BearCommand> },
    Nothing,
}


/// Takes `t` from the start of `source`, giving what follows it.
pub fn tag<'a>(source: &'a str, t: &[char]) -> (rest: Option<&'a str>)
    ensures
        starts_with(source@, t@) ==> (rest matches Some(r) && r@ == source@.skip(t@.len() as int)),
        !starts_with(source@, t@) ==> rest is None,
{
    let n = source.unicode_len();
    if t.len() > n {
        return None;
    }
    let mut i: usize = 0;
    while i < t.len()
        invariant
            i <= t@.len() <= n,
            n == source@.len(),
            forall|j: int| 0 <= j < i ==> source@[j] == t@[j],
        decreases t.len() - i,
    {
        if source.get_char(i) != t[i] {
            assert(source@.subrange(0, t@.len() as int)[i as int] == source@[i as int]);
            return None;
        }
        i += 1;
    }
    assert(source@.subrange(0, t@.len() as int) =~= t@);
    Some(source.substring_char(t.len(), n))
}

fn ascii_lower_code(c: char) -> (r: u32)
    ensures
        r == ascii_lower(c),
{
    if 'A' <= c && c <= 'Z' {
        c as u32 + 32
    } else {
        c as u32
    }
}

/// Takes `t` from the start of `source`, ignoring ASCII case, giving what
/// follows it.
pub fn tag_no_case<'a>(source: &'a str, t: &[char]) -> (rest: Option<&'a str>)
    ensures
        starts_with_no_case(source@, t@) ==> (rest matches Some(r) && r@ == source@.skip(
            t@.len() as int,
        )),
        !starts_with_no_case(source@, t@) ==> rest is None,
{
    let n = source.unicode_len();
    if t.len() > n {
        return None;
    }
    let mut i: usize = 0;
    while i < t.len()
        invariant
            i <= t@.len() <= n,
            n == source@.len(),
            forall|j: int| 0 <= j < i ==> #[trigger] ascii_lower(source@[j]) == ascii_lower(t@[j]),
        decreases t.len() - i,
    {
        if ascii_lower_code(source.get_char(i)) != ascii_lower_code(t[i]) {
            return None;
        }
        i += 1;
    }
    Some(source.substring_char(t.len(), n))
}

/// Takes one or more spaces or tabs from the start of `source`.
pub fn space1(source: &str) -> (rest: Option<&str>)
    ensures
        blank_run(source@) == 0 ==> rest is None,
        blank_run(source@) > 0 ==> (rest matches Some(r) && r@ == source@.skip(
            blank_run(source@) as int,
        )),
{
    let n = source.unicode_len();
    let mut i: usize = 0;
    assert(source@.skip(0) =~= source@);
    while i < n && (source.get_char(i) == ' ' || source.get_char(i) == '\t')
        invariant
            i <= n,
            n == source@.len(),
            blank_run(source@) == i + blank_run(source@.skip(i as int)),
        decreases n - i,
    {
        assert(source@.skip(i as int).drop_first() =~= source@.skip(i + 1));
        i += 1;
    }
    if i == 0 {
        None
    } else {
        Some(source.substring_char(i, n))
    }
}

pub fn part_head(source: &str) -> (res: Option<(&str, BodyPart)>)
    ensures
        starts_with(source@, seq!['h', 'e', 'a', 'd']) ==> (res matches Some((r, p)) && p
            == BodyPart::Head && r@ == source@.skip(4)),
        !starts_with(source@, seq!['h', 'e', 'a', 'd']) ==> res is None,
{
    let t = ['h', 'e', 'a', 'd'];
    assert(t@ =~= seq!['h', 'e', 'a', 'd']);
    match tag(source, &t) {
        Some(r) => Some((r, BodyPart::Head)),
        None => None,
    }
}

pub fn part_eyes(source: &str) -> (res: Option<(&str, BodyPart)>)
    ensures
        starts_with(source@, seq!['e', 'y', 'e', 's']) ==> (res matches Some((r, p)) && p
            == BodyPart::Eyes && r@ == source@.skip(4)),
        !starts_with(source@, seq!['e', 'y', 'e', 's']) ==> res is None,
{
    let t = ['e', 'y', 'e', 's'];
    assert(t@ =~= seq!['e', 'y', 'e', 's']);
    match tag(source, &t) {
        Some(r) => Some((r, BodyPart::Eyes)),
        None => None,
    }
}

pub fn part_keys(source: &str) -> (res: Option<(&str, BodyPart)>)
    ensures
        starts_with(source@, seq!['k', 'e', 'y', 's']) ==> (res matches Some((r, p)) && p
            == BodyPart::Keys && r@ == source@.skip(4)),
        !starts_with(source@, seq!['k', 'e', 'y', 's']) ==> res is None,
{
    let t = ['k', 'e', 'y', 's'];
    assert(t@ =~= seq!['k', 'e', 'y', 's']);
    match tag(source, &t) {
        Some(r) => Some((r, BodyPart::Keys)),
        None => None,
    }
}

pub fn part_body(source: &str) -> (res: Option<(&str, BodyPart)>)
    ensures
        starts_with(source@, seq!['b', 'o', 'd', 'y']) ==> (res matches Some((r, p)) && p
            == BodyPart::Body && r@ == source@.skip(4)),
        !starts_with(source@, seq!['b', 'o', 'd', 'y']) ==> res is None,
{
    let t = ['b', 'o', 'd', 'y'];
    assert(t@ =~= seq!['b', 'o', 'd', 'y']);
    match tag(source, &t) {
        Some(r) => Some((r, BodyPart::Body)),
        None => None,
    }
}

/// Reads the keyword of a part of the bear.
pub fn body_part(source: &str) -> (res: Option<(&str, BodyPart)>)
    ensures
        match spec_body_part(source@) {
            Some(p) => res matches Some((r, q)) && q == p && r@ == source@.skip(4),
            None => res is None,
        },
{
    if let Some(x) = part_head(source) {
        return Some(x);
    }
    if let Some(x) = part_body(source) {
        return Some(x);
    }
    if let Some(x) = part_keys(source) {
        return Some(x);
    }
    part_eyes(source)
}

/// Reads an optional `:` followed by at least one space or tab.
pub fn colon_separator(source: &str) -> (rest: Option<&str>)
    ensures
        match spec_colon_separator(source@) {
            Some(k) => rest matches Some(r) && r@ == source@.skip(k),
            None => rest is None,
        },
{
    let colon = [':'];
    assert(colon@ =~= seq![':']);
    let after = match tag(source, &colon) {
        Some(r) => r,
        None => {
            assert(source@.skip(0) =~= source@);
            source
        },
    };
    let res = space1(after);
    proof {
        let k: int = if source@.len() > 0 && source@[0] == ':' { 1 } else { 0 };
        if starts_with(source@, seq![':']) {
            assert(source@[0] == source@.subrange(0, 1)[0]);
        } else if source@.len() > 0 && source@[0] == ':' {
            assert(source@.subrange(0, 1) =~= seq![':']);
        }
        assert(after@ == source@.skip(k));
        lemma_blank_run(source@.skip(k));
        lemma_skip_skip(source@, k, blank_run(source@.skip(k)) as int);
    }
    res
}

/// Reads the part named by an entry and the separator after it, giving
/// the colour text.
pub fn bear_command_head(source: &str) -> (res: Option<(&str, BodyPart)>)
    ensures
        match spec_entry_head(source@) {
            Some((p, n)) => res matches Some((r, q)) && q == p && r@ == source@.skip(n),
            None => res is None,
        },
{
    match body_part(source) {
        Some((r1, part)) => match colon_separator(r1) {
            Some(r2) => {
                proof {
                    lemma_entry_head_len(source@);
                    lemma_skip_skip(source@, 4, spec_colon_separator(source@.skip(4)).unwrap());
                }
                Some((r2, part))
            },
            None => None,
        },
        None => None,
    }
}

/// The entry for `part` once its colour has been looked up: the part with
/// the colour found, or `BearCommand::Nothing` where none was.
pub fn bear_command_for(part: BodyPart, rgb: Option<[u8; 3]>) -> (c: BearCommand)
    ensures
        c == command_for(part, rgb),
        rgb matches Some(color) ==> c == BearCommand::Cmd((part, color)),
        rgb is None ==> c == BearCommand::Nothing,
{
    match rgb {
        Some(color) => BearCommand::Cmd((part, color)),
        None => BearCommand::Nothing,
    }
}

/// Reads one entry. Its colour is looked up in all the text that follows
/// the separator, and none of that text is consumed.
pub fn bear_command_prep(source: &str) -> (res: Option<(&str, BearCommand)>)
    requires
        entry_readable(source@),
    ensures
        match spec_entry(source@) {
            Some((c, n)) => res matches Some((r, d)) && d == c && r@ == source@.skip(n),
            None => res is None,
        },
        spec_entry_head(source@) matches Some((p, n)) && spec_trim(source@.skip(n)).len() == 0
            ==> (res matches Some((r, d)) && d == BearCommand::Nothing),
        match spec_entry_head(source@) {
            Some((p, n)) => match css_color_by_name(spec_trim(source@.skip(n))) {
                Some(rgb) => res matches Some((r, d)) && d == BearCommand::Cmd((p, rgb)),
                None => res matches Some((r, d)) && d == BearCommand::Nothing,
            },
            None => true,
        },
{
    match bear_command_head(source) {
        Some((rest, part)) => {
            let cmd = bear_command_for(part, get_color_by_name(rest));
            Some((rest, cmd))
        },
        None => None,
    }
}


/// Reads a list of one or more entries separated by `, `. The list ends
/// before a separator that no entry follows.
pub fn bear_command_list(source: &str) -> (res: Option<(&str, Vec<BearCommand>)>)
    requires
        command_list_readable(source@),
    ensures
        match spec_command_list(source@) {
            Some((cs, n)) => res matches Some((r, v)) && v@ == cs && r@ == source@.skip(n),
            None => res is None,
        },
{
    let (mut rest, first) = match bear_command_prep(source) {
        Some(x) => x,
        None => return None,
    };
    let ghost mut k: int = spec_entry(source@).unwrap().1;
    proof {
        lemma_entry_head_len(source@);
    }
    let mut cmds: Vec<BearCommand> = Vec::new();
    cmds.push(first);
    let sep = [',', ' '];
    assert(sep@ =~= entry_separator());
    loop
        invariant
            0 <= k <= source@.len(),
            rest@ == source@.skip(k),
            sep@ == entry_separator(),
            list_tail_readable(rest@),
            spec_command_list(source@) == Some(
                (cmds@ + spec_list_tail(rest@).0, k + spec_list_tail(rest@).1),
            ),
        ensures
            spec_list_tail(rest@) == (Seq::<BearCommand>::empty(), 0int),
        decreases rest@.len(),
    {
        let after = match tag(rest, &sep) {
            Some(a) => a,
            None => {
                assert(cmds@ + Seq::<BearCommand>::empty() =~= cmds@);
                break ;
            },
        };
        proof {
            if let Some((p, n)) = spec_entry_head(after@) {
                lemma_entry_head_len(after@);
                lemma_skip_skip(rest@, 2, n);
            }
        }
        match bear_command_prep(after) {
            Some((r2, c)) => {
                let ghost n = spec_entry(after@).unwrap().1;
                proof {
                    lemma_entry_head_len(after@);
                    lemma_skip_skip(rest@, 2, n);
                    lemma_skip_skip(source@, k, 2 + n);
                    assert(cmds@.push(c) + spec_list_tail(r2@).0 =~= cmds@ + (seq![c]
                        + spec_list_tail(r2@).0));
                    k = k + 2 + n;
                }
                cmds.push(c);
                rest = r2;
            },
            None => {
                assert(cmds@ + Seq::<BearCommand>::empty() =~= cmds@);
                break ;
            },
        }
    }
    Some((rest, cmds))
}

/// The commands are those of a message that begins with `!bear `.
pub open spec fn is_bear_commands(cmd: TwitchCommand, cs: Seq<BearCommand>) -> bool {
    cmd matches TwitchCommand::BearCommands { key, value } && key@ == seq!['b', 'e', 'a', 'r']
        && value@ == cs
}

/// Reads a command: `!bear ` in any ASCII case, then a list of entries.
pub fn bear_command(source: &str) -> (res: Option<(&str, TwitchCommand)>)
    requires
        message_readable(source@),
    ensures
        match spec_bear_command(source@) {
            Some((cs, n)) => res matches Some((r, c)) && is_bear_commands(c, cs) && r@
                == source@.skip(n),
            None => res is None,
        },
{
    let prefix = ['!', 'b', 'e', 'a', 'r', ' '];
    assert(prefix@ =~= command_prefix());
    let after = match tag_no_case(source, &prefix) {
        Some(a) => a,
        None => return None,
    };
    match bear_command_list(after) {
        Some((rest, cmds)) => {
            proof {
                lemma_command_list_len(after@);
                if let Some((cs, n)) = spec_command_list(after@) {
                    lemma_skip_skip(source@, 6, n);
                }
            }
            let key = String::from_str("bear");
            proof {
                reveal_strlit("bear");
            }
            assert(key@ =~= seq!['b', 'e', 'a', 'r']);
            Some((rest, TwitchCommand::BearCommands { key, value: cmds }))
        },
        None => None,
    }
}

/// Decides whether reading `source` looks up only colour texts that the
/// colour table can read (see `color_name_readable`): the condition on
/// which `parse_incoming_twitch_message` returns.
pub fn message_is_readable(source: &str) -> (r: bool)
    ensures
        r == message_readable(source@),
{
    let prefix = ['!', 'b', 'e', 'a', 'r', ' '];
    assert(prefix@ =~= command_prefix());
    let after = match tag_no_case(source, &prefix) {
        Some(a) => a,
        None => return true,
    };
    let mut rest = match bear_command_head(after) {
        Some((r, _)) => r,
        None => return true,
    };
    if !color_text_readable(rest) {
        return false;
    }
    let sep = [',', ' '];
    assert(sep@ =~= entry_separator());
    loop
        invariant
            sep@ == entry_separator(),
            message_readable(source@) == list_tail_readable(rest@),
        decreases rest@.len(),
    {
        let after = match tag(rest, &sep) {
            Some(a) => a,
            None => return true,
        };
        let next = match bear_command_head(after) {
            Some((r, _)) => r,
            None => return true,
        };
        proof {
            let n = spec_entry_head(after@).unwrap().1;
            lemma_entry_head_len(after@);
            lemma_skip_skip(rest@, 2, n);
        }
        if !color_text_readable(next) {
            return false;
        }
        rest = next;
    }
}

/// What reading `source` as a chat message gives: the command, or nothing
/// where the message is not one, and the text that was not consumed.
pub open spec fn spec_parse(source: Seq<char>) -> (Seq<char>, Option<Seq<BearCommand>>) {
    match spec_bear_command(source) {
        Some((cs, n)) => (source.skip(n), Some(cs)),
        None => (source, None),
    }
}

/// Reads a chat message. A message that is not a bear command gives
/// nothing and leaves the whole text unread.
pub fn parse_incoming_twitch_message(source: &str) -> (res: (&str, Option<TwitchCommand>))
    requires
        message_readable(source@),
    ensures
        res.0@ == spec_parse(source@).0,
        match spec_parse(source@).1 {
            Some(cs) => res.1 matches Some(c) && is_bear_commands(c, cs),
            None => res.1 is None,
        },
{
    match bear_command(source) {
        Some((rest, cmd)) => (rest, Some(cmd)),
        None => (source, None),
    }
}

} // verus!

verus! {

/// A message that does not begin with `!bear ` (in any ASCII case) gives no
/// command and leaves the whole text unread.
pub proof fn lemma_other_messages_ignored(s: Seq<char>)
    requires
        !starts_with_no_case(s, command_prefix()),
    ensures
        spec_parse(s) == (s, Option::<Seq<BearCommand>>::None),
{
}

/// A command holds at least one entry, and what is left unread is a suffix of
/// the message.
pub proof fn lemma_parse_shape(s: Seq<char>)
    ensures
        spec_parse(s).1 matches Some(cs) ==> cs.len() > 0,
        exists|n: int| 0 <= n <= s.len() && spec_parse(s).0 == #[trigger] s.skip(n),
{
    assert(s.skip(0) =~= s);
    if let Some((cs, n)) = spec_bear_command(s) {
        lemma_command_list_len(s.skip(6));
        assert(s.skip(n) == spec_parse(s).0);
    }
}

/// The case of the letters of `!bear ` does not matter: two messages that
/// differ only there read alike.
pub proof fn lemma_prefix_case_insensitive(s: Seq<char>, t: Seq<char>)
    requires
        s.len() == t.len(),
        6 <= s.len(),
        forall|i: int| 0 <= i < 6 ==> #[trigger] ascii_lower(s[i]) == ascii_lower(t[i]),
        s.skip(6) == t.skip(6),
    ensures
        spec_parse(s).1 == spec_parse(t).1,
        spec_parse(s).1 is Some ==> spec_parse(s).0 == spec_parse(t).0,
        message_readable(s) == message_readable(t),
{
    assert(starts_with_no_case(s, command_prefix()) == starts_with_no_case(t, command_prefix()))
        by {
        if starts_with_no_case(s, command_prefix()) {
            assert forall|i: int| 0 <= i < 6 implies #[trigger] ascii_lower(t[i]) == ascii_lower(
                command_prefix()[i],
            ) by {
                assert(ascii_lower(s[i]) == ascii_lower(command_prefix()[i]));
            }
        }
        if starts_with_no_case(t, command_prefix()) {
            assert forall|i: int| 0 <= i < 6 implies #[trigger] ascii_lower(s[i]) == ascii_lower(
                command_prefix()[i],
            ) by {
                assert(ascii_lower(t[i]) == ascii_lower(command_prefix()[i]));
            }
        }
    }
    lemma_command_list_len(s.skip(6));
    if let Some((cs, n)) = spec_command_list(s.skip(6)) {
        lemma_skip_skip(s, 6, n);
        lemma_skip_skip(t, 6, n);
    }
}

proof fn lemma_list_tail_empty(s: Seq<char>)
    ensures
        spec_list_tail(s).0.len() == 0 ==> spec_list_tail(s).1 == 0,
{
}

proof fn lemma_list_tail_last(s: Seq<char>)
    ensures
        spec_list_tail(s).0.len() > 0 ==> exists|p: BodyPart|
            spec_list_tail(s).0.last() == #[trigger] command_for(
                p,
                css_color_by_name(spec_trim(s.skip(spec_list_tail(s).1))),
            ),
    decreases s.len(),
{
    if starts_with(s, entry_separator()) {
        if let Some((c, n)) = spec_entry(s.skip(2)) {
            lemma_entry_head_len(s.skip(2));
            let u = s.skip(2 + n);
            let rest = spec_list_tail(u);
            lemma_list_tail_last(u);
            lemma_list_tail_len(u);
            lemma_list_tail_empty(u);
            lemma_skip_skip(s, 2, n);
            lemma_skip_skip(s, 2 + n, rest.1);
            if rest.0.len() > 0 {
                assert((seq![c] + rest.0).last() == rest.0.last());
                let p = choose|p: BodyPart|
                    rest.0.last() == #[trigger] command_for(
                        p,
                        css_color_by_name(spec_trim(u.skip(rest.1))),
                    );
                assert(spec_list_tail(s).0.last() == command_for(
                    p,
                    css_color_by_name(spec_trim(s.skip(spec_list_tail(s).1))),
                ));
            } else {
                let p = spec_entry_head(s.skip(2)).unwrap().0;
                assert(s.skip(spec_list_tail(s).1) == u);
                assert(spec_list_tail(s).0.last() == command_for(
                    p,
                    css_color_by_name(spec_trim(s.skip(spec_list_tail(s).1))),
                ));
            }
        }
    }
}

/// The colour of the last entry of a command is read from exactly the text
/// that the command leaves unread: an entry takes no character of its colour.
pub proof fn lemma_last_color_is_unread_text(s: Seq<char>)
    ensures
        spec_parse(s).1 matches Some(cs) ==> exists|p: BodyPart|
            cs.last() == #[trigger] command_for(p, css_color_by_name(spec_trim(spec_parse(s).0))),
{
    if let Some((cs, n)) = spec_bear_command(s) {
        let x = s.skip(6);
        let (c, k) = spec_entry(x).unwrap();
        let u = x.skip(k);
        let rest = spec_list_tail(u);
        lemma_entry_head_len(x);
        lemma_list_tail_len(u);
        lemma_list_tail_empty(u);
        lemma_list_tail_last(u);
        lemma_skip_skip(x, k, rest.1);
        lemma_skip_skip(s, 6, k + rest.1);
        assert(spec_parse(s).0 == u.skip(rest.1));
        if rest.0.len() > 0 {
            assert((seq![c] + rest.0).last() == rest.0.last());
            let p = choose|p: BodyPart|
                rest.0.last() == #[trigger] command_for(
                    p,
                    css_color_by_name(spec_trim(u.skip(rest.1))),
                );
            assert(cs.last() == command_for(p, css_color_by_name(spec_trim(spec_parse(s).0))));
        } else {
            let p = spec_entry_head(x).unwrap().0;
            assert(u.skip(0) =~= u);
            assert(cs.last() == command_for(p, css_color_by_name(spec_trim(spec_parse(s).0))));
        }
    }
}

} // verus!

verus! {

/// An entry whose colour is found carries its part and exactly that colour;
/// an entry is `BearCommand::Nothing` exactly when its colour is not found.
pub proof fn lemma_entry_carries_found_colour(s: Seq<char>)
    ensures
        spec_entry_head(s) matches Some((p, n)) ==> (spec_entry(s) matches Some((c, m)) && m == n
            && (css_color_by_name(spec_trim(s.skip(n))) matches Some(rgb) ==> c
            == BearCommand::Cmd((p, rgb))) && (css_color_by_name(spec_trim(s.skip(n))) is None
            <==> c == BearCommand::Nothing)),
{
}

/// A message that does not begin with `!bear ` (in any ASCII case) looks up
/// no colour, so it is always readable.
pub proof fn lemma_other_messages_readable(s: Seq<char>)
    ensures
        !starts_with_no_case(s, command_prefix()) ==> message_readable(s),
{
}

proof fn lemma_ascii_color_text_readable(t: Seq<char>)
    requires
        forall|i: int| 0 <= i < t.len() ==> (#[trigger] t[i] as u32) < 128,
    ensures
        color_name_readable(t),
{
    lemma_trim_removes_only_white_space(t);
    let (i, j) = choose|i: int, j: int|
        0 <= i <= j <= t.len() && spec_trim(t) == t.subrange(i, j) && (forall|k: int|
            0 <= k < i ==> is_white_space(#[trigger] t[k])) && (forall|k: int|
            j <= k < t.len() ==> is_white_space(#[trigger] t[k]));
    if spec_trim(t).len() > 0 {
        assert(spec_trim(t)[0] == t[i]);
    }
}

proof fn lemma_ascii_tail_readable(s: Seq<char>)
    requires
        forall|i: int| 0 <= i < s.len() ==> (#[trigger] s[i] as u32) < 128,
    ensures
        list_tail_readable(s),
    decreases s.len(),
{
    if starts_with(s, entry_separator()) {
        if let Some((p, n)) = spec_entry_head(s.skip(2)) {
            lemma_entry_head_len(s.skip(2));
            let u = s.skip(2 + n);
            assert forall|i: int| 0 <= i < u.len() implies (#[trigger] u[i] as u32) < 128 by {
                assert(u[i] == s[i + 2 + n]);
            }
            lemma_ascii_color_text_readable(u);
            lemma_ascii_tail_readable(u);
        }
    }
}

/// A message written in ASCII alone is always readable: the colour table is
/// only ever asked about texts that start with an ASCII character.
pub proof fn lemma_ascii_messages_readable(s: Seq<char>)
    requires
        forall|i: int| 0 <= i < s.len() ==> (#[trigger] s[i] as u32) < 128,
    ensures
        message_readable(s),
{
    if starts_with_no_case(s, command_prefix()) {
        let x = s.skip(6);
        if let Some((p, n)) = spec_entry_head(x) {
            lemma_entry_head_len(x);
            let u = x.skip(n);
            assert forall|i: int| 0 <= i < u.len() implies (#[trigger] u[i] as u32) < 128 by {
                assert(u[i] == s[i + 6 + n]);
            }
            lemma_ascii_color_text_readable(u);
            lemma_ascii_tail_readable(u);
        }
    }
}

} // verus!
