//! The grammar of bear commands typed in chat, as functions on the
//! characters of a message.
//!
//! A message is a command when it begins with `!bear ` in any ASCII case.
//! Then comes a list of entries separated by `, `. An entry names a part of
//! the bear (`head`, `body`, `keys` or `eyes`), then an optional `:`, then at
//! least one space or tab; the colour is read from all the text that follows,
//! trimmed, and the entry consumes nothing of that text.

use vstd::prelude::*;
use crate::text::spec_trim;
use crate::color::{css_color_by_name, color_name_readable};
use crate::command::{BodyPart, BearCommand};

verus! {

/// `s` begins with `p`.
pub open spec fn starts_with(s: Seq<char>, p: Seq<char>) -> bool {
    p.len() <= s.len() && s.subrange(0, p.len() as int) == p
}

/// The code of `c` with ASCII capitals mapped to their small letters.
pub open spec fn ascii_lower(c: char) -> u32 {
    if 'A' <= c && c <= 'Z' {
        (c as u32 + 32) as u32
    } else {
        c as u32
    }
}

/// `s` begins with `p`, ignoring ASCII case.
pub open spec fn starts_with_no_case(s: Seq<char>, p: Seq<char>) -> bool {
    &&& p.len() <= s.len()
    &&& forall|i: int| 0 <= i < p.len() ==> #[trigger] ascii_lower(s[i]) == ascii_lower(p[i])
}

pub open spec fn command_prefix() -> Seq<char> {
    seq!['!', 'b', 'e', 'a', 'r', ' ']
}

pub open spec fn entry_separator() -> Seq<char> {
    seq![',', ' ']
}

pub open spec fn is_blank(c: char) -> bool {
    c == ' ' || c == '\t'
}

/// The number of spaces and tabs that `s` begins with.
pub open spec fn blank_run(s: Seq<char>) -> nat
    decreases s.len(),
{
    if s.len() > 0 && is_blank(s[0]) {
        1 + blank_run(s.drop_first())
    } else {
        0
    }
}

/// The part of the bear that `s` begins with; its keyword is four characters long.
pub open spec fn spec_body_part(s: Seq<char>) -> Option<BodyPart> {
    if starts_with(s, seq!['h', 'e', 'a', 'd']) {
        Some(BodyPart::Head)
    } else if starts_with(s, seq!['b', 'o', 'd', 'y']) {
        Some(BodyPart::Body)
    } else if starts_with(s, seq!['k', 'e', 'y', 's']) {
        Some(BodyPart::Keys)
    } else if starts_with(s, seq!['e', 'y', 'e', 's']) {
        Some(BodyPart::Eyes)
    } else {
        None
    }
}

/// The number of characters that an optional `:` and at least one blank take
/// at the start of `s`.
pub open spec fn spec_colon_separator(s: Seq<char>) -> Option<int> {
    let k: int = if s.len() > 0 && s[0] == ':' { 1 } else { 0 };
    let b = blank_run(s.skip(k));
    if b == 0 {
        None
    } else {
        Some(k + b)
    }
}

/// The part named by an entry at the start of `s`, and where its colour text begins.
pub open spec fn spec_entry_head(s: Seq<char>) -> Option<(BodyPart, int)> {
    match spec_body_part(s) {
        Some(p) => match spec_colon_separator(s.skip(4)) {
            Some(c) => Some((p, 4 + c)),
            None => None,
        },
        None => None,
    }
}

/// The command for a part and the outcome of looking its colour up.
pub open spec fn command_for(part: BodyPart, rgb: Option<[u8; 3]>) -> BearCommand {
    match rgb {
        Some(c) => BearCommand::Cmd((part, c)),
        None => BearCommand::Nothing,
    }
}

/// The command read from an entry at the start of `s`, and the number of
/// characters that the entry takes.
pub open spec fn spec_entry(s: Seq<char>) -> Option<(BearCommand, int)> {
    match spec_entry_head(s) {
        Some((p, n)) => Some((command_for(p, css_color_by_name(spec_trim(s.skip(n)))), n)),
        None => None,
    }
}

pub proof fn lemma_skip_skip(s: Seq<char>, a: int, b: int)
    requires
        0 <= a <= s.len(),
        0 <= b <= s.len() - a,
    ensures
        s.skip(a).skip(b) == s.skip(a + b),
{
    assert(s.skip(a).skip(b) =~= s.skip(a + b));
}

pub proof fn lemma_blank_run(s: Seq<char>)
    ensures
        blank_run(s) <= s.len(),
        forall|i: int| 0 <= i < blank_run(s) ==> is_blank(#[trigger] s[i]),
        blank_run(s) < s.len() ==> !is_blank(s[blank_run(s) as int]),
    decreases s.len(),
{
    if s.len() > 0 && is_blank(s[0]) {
        lemma_blank_run(s.drop_first());
        assert forall|i: int| 0 <= i < blank_run(s) implies is_blank(#[trigger] s[i]) by {
            if i > 0 {
                assert(s[i] == s.drop_first()[i - 1]);
            }
        }
    }
}

pub proof fn lemma_entry_head_len(s: Seq<char>)
    ensures
        spec_entry_head(s) matches Some((p, n)) ==> 4 < n <= s.len(),
{
    if spec_body_part(s) is Some {
        let t = s.skip(4);
        let k: int = if t.len() > 0 && t[0] == ':' { 1 } else { 0 };
        lemma_blank_run(t.skip(k));
    }
}

/// The entries that follow the first one: each is preceded by `, `; the list
/// ends before the first separator that is not followed by an entry.
pub open spec fn spec_list_tail(s: Seq<char>) -> (Seq<BearCommand>, int)
    decreases s.len(),
{
    if starts_with(s, entry_separator()) {
        match spec_entry(s.skip(2)) {
            Some((c, n)) => {
                proof {
                    lemma_entry_head_len(s.skip(2));
                }
                let rest = spec_list_tail(s.skip(2 + n));
                (seq![c] + rest.0, 2 + n + rest.1)
            },
            None => (Seq::empty(), 0),
        }
    } else {
        (Seq::empty(), 0)
    }
}

pub proof fn lemma_list_tail_len(s: Seq<char>)
    ensures
        0 <= spec_list_tail(s).1 <= s.len(),
    decreases s.len(),
{
    if starts_with(s, entry_separator()) {
        if let Some((c, n)) = spec_entry(s.skip(2)) {
            lemma_entry_head_len(s.skip(2));
            lemma_list_tail_len(s.skip(2 + n));
        }
    }
}

pub proof fn lemma_command_list_len(s: Seq<char>)
    ensures
        spec_command_list(s) matches Some((cs, n)) ==> 0 < n <= s.len() && cs.len() > 0,
{
    if let Some((c, n)) = spec_entry(s) {
        lemma_entry_head_len(s);
        lemma_list_tail_len(s.skip(n));
    }
}

/// A list of at least one entry at the start of `s`, and the number of
/// characters that it takes.
pub open spec fn spec_command_list(s: Seq<char>) -> Option<(Seq<BearCommand>, int)> {
    match spec_entry(s) {
        Some((c, n)) => {
            let rest = spec_list_tail(s.skip(n));
            Some((seq![c] + rest.0, n + rest.1))
        },
        None => None,
    }
}

/// The commands of a message that starts with `!bear `, and the number of
/// characters that the command takes.
pub open spec fn spec_bear_command(s: Seq<char>) -> Option<(Seq<BearCommand>, int)> {
    if starts_with_no_case(s, command_prefix()) {
        match spec_command_list(s.skip(6)) {
            Some((cs, n)) => Some((cs, 6 + n)),
            None => None,
        }
    } else {
        None
    }
}

/// Every colour text that reading an entry at the start of `s` looks up is
/// one the colour table can read.
pub open spec fn entry_readable(s: Seq<char>) -> bool {
    match spec_entry_head(s) {
        Some((p, n)) => color_name_readable(s.skip(n)),
        None => true,
    }
}

pub open spec fn list_tail_readable(s: Seq<char>) -> bool
    decreases s.len(),
{
    if starts_with(s, entry_separator()) {
        match spec_entry_head(s.skip(2)) {
            Some((p, n)) => {
                proof {
                    lemma_entry_head_len(s.skip(2));
                }
                color_name_readable(s.skip(2 + n)) && list_tail_readable(s.skip(2 + n))
            },
            None => true,
        }
    } else {
        true
    }
}

pub open spec fn command_list_readable(s: Seq<char>) -> bool {
    match spec_entry_head(s) {
        Some((p, n)) => color_name_readable(s.skip(n)) && list_tail_readable(s.skip(n)),
        None => true,
    }
}

/// Reading `s` as a chat message looks up only colour texts that the colour
/// table can read.
pub open spec fn message_readable(s: Seq<char>) -> bool {
    starts_with_no_case(s, command_prefix()) ==> command_list_readable(s.skip(6))
}

} // verus!
