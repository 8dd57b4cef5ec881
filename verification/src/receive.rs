//! What the receive loop does with the text of one read: it answers each
//! keepalive probe, decodes every other line, and keeps the order of arrival.
//!
//! A line that cannot be decoded does not stop the loop. It is reported with
//! its error in place of a message, and the lines after it are handled as if
//! it had not been there.

use vstd::prelude::*;
use vstd::string::StringExecFns;
use crate::lines::{
    find_break, free_of_line_ends, join_lines, lemma_first_break, lemma_read_lines_join,
    lemma_split_lines_step, read_lines, split_lines, trimmed_len,
};
use crate::message::{DecodedMessage, MessageView, ProtocolParseError};
use crate::parser::{parse_line, parse_message};
use crate::text::{chars_of, has_prefix, substring};

verus! {

/// What to do with one received line.
pub enum LineAction {
    /// Write this line back to the server; nothing goes to the consumer.
    Reply(String),
    /// Hand this message to the consumer.
    Deliver(DecodedMessage),
    /// The line does not fit the grammar: report the error and go on.
    Reject(ProtocolParseError),
}

/// The mathematical value of a `LineAction`.
pub enum ActionView {
    Reply(Seq<char>),
    Deliver(MessageView),
    Reject(ProtocolParseError),
}

impl View for LineAction {
    type V = ActionView;

    open spec fn view(&self) -> ActionView {
        match *self {
            LineAction::Reply(line) => ActionView::Reply(line@),
            LineAction::Deliver(message) => ActionView::Deliver(message@),
            LineAction::Reject(error) => ActionView::Reject(error),
        }
    }
}

/// Whether the line is a keepalive probe: it begins with `PING` and a space.
pub open spec fn is_ping(line: Seq<char>) -> bool {
    "PING "@.is_prefix_of(line)
}

/// The answer to a probe: its line with `PONG` in place of the leading `PING`.
pub open spec fn pong_for(line: Seq<char>) -> Seq<char> {
    "PONG "@ + line.skip("PING "@.len() as int)
}

/// What is done with a line: a probe is answered, any other line is decoded.
pub open spec fn line_action(line: Seq<char>) -> ActionView {
    if is_ping(line) {
        ActionView::Reply(pong_for(line))
    } else {
        match parse_line(line) {
            Ok(message) => ActionView::Deliver(message),
            Err(error) => ActionView::Reject(error),
        }
    }
}

/// What is done with the text of one read: one action for each of its lines, in their order.
pub open spec fn read_actions(data: Seq<char>) -> Seq<ActionView> {
    read_lines(data).map_values(|line: Seq<char>| line_action(line))
}

/// The views of a sequence of actions.
pub open spec fn action_views(actions: Seq<LineAction>) -> Seq<ActionView> {
    actions.map_values(|action: LineAction| action@)
}

/// A probe is answered with `PONG` and its argument, whatever the argument
/// holds, and nothing of it is delivered.
pub proof fn lemma_probe_answer(argument: Seq<char>)
    ensures
        line_action("PING "@ + argument) == ActionView::Reply("PONG "@ + argument),
{
    let line = "PING "@ + argument;
    assert(line.subrange(0, "PING "@.len() as int) =~= "PING "@);
    assert(line.skip("PING "@.len() as int) =~= argument);
}

/// Only a probe is answered: any other line is decoded, and comes to the
/// consumer as a message or as an error.
pub proof fn lemma_only_probes_answered(line: Seq<char>)
    ensures
        line_action(line) is Reply <==> is_ping(line),
        line_action(line) is Deliver <==> !is_ping(line) && parse_line(line) is Ok,
        line_action(line) is Reject <==> !is_ping(line) && parse_line(line) is Err,
{
}

/// Several lines that arrive in one read are handled one by one, in the order
/// in which they stand in it: the read gives one action for each line, the
/// action of that line alone.
pub proof fn lemma_read_of_lines(lines: Seq<Seq<char>>)
    requires
        lines.len() >= 1,
        forall|i: int| 0 <= i < lines.len() ==> free_of_line_ends(#[trigger] lines[i]),
        lines.last().len() > 0,
    ensures
        read_actions(join_lines(lines)) == lines.map_values(|line: Seq<char>| line_action(line)),
        read_actions(join_lines(lines) + seq!['\r', '\n']) == lines.map_values(
            |line: Seq<char>| line_action(line),
        ),
{
    lemma_read_lines_join(lines);
}

/// Decides what to do with one received line, given without its terminator.
///
/// A line that begins with `PING` and a space is answered with the same line
/// under `PONG`, its argument unchanged, and is not decoded. Every other line
/// is decoded, and comes back as a message or as the error that it gave.
pub fn handle_line(line: String) -> (action: LineAction)
    ensures
        action@ == line_action(line@),
{
    let chars = chars_of(line.as_str());
    let probe = chars_of("PING ");
    if has_prefix(&chars, &probe) {
        let mut reply = String::from_str("PONG ");
        reply.append(line.as_str().substring_char(probe.len(), chars.len()));
        LineAction::Reply(reply)
    } else {
        match parse_message(line) {
            Ok(message) => LineAction::Deliver(message),
            Err(error) => LineAction::Reject(error),
        }
    }
}

/// Decides what to do with the text of one read.
///
/// The carriage returns and line feeds at its end are dropped; what is left
/// is cut at every line terminator, and each line is handled by itself. The
/// actions come back in the order of the lines.
pub fn handle_read(data: &str) -> (actions: Vec<LineAction>)
    ensures
        action_views(actions@) == read_actions(data@),
{
    let chars = chars_of(data);
    let n = trimmed_len(&chars);
    let ghost text = chars@.take(n as int);
    let ghost mut done: Seq<Seq<char>> = Seq::empty();
    let mut actions: Vec<LineAction> = Vec::new();
    let mut pos: usize = 0;
    proof {
        assert(chars@.subrange(0, n as int) == text);
        assert(done + split_lines(text) =~= split_lines(text));
    }
    loop
        invariant_except_break
            split_lines(text) == done + split_lines(chars@.subrange(pos as int, n as int)),
        invariant
            chars@ == data@,
            pos <= n <= chars.len(),
            text == chars@.take(n as int),
            actions.len() == done.len(),
            forall|i: int| 0 <= i < done.len() ==> (#[trigger] actions[i])@ == line_action(done[i]),
        ensures
            split_lines(text) == done,
            actions.len() == done.len(),
            forall|i: int| 0 <= i < done.len() ==> (#[trigger] actions[i])@ == line_action(done[i]),
        decreases n - pos,
    {
        let ghost current = chars@.subrange(pos as int, n as int);
        let end = find_break(&chars, pos, n);
        proof {
            lemma_first_break(current);
            lemma_split_lines_step(current);
            assert(current.take(end - pos) =~= chars@.subrange(pos as int, end as int));
        }
        let line = substring(data, pos, end);
        let action = handle_line(line);
        actions.push(action);
        proof {
            done = done.push(chars@.subrange(pos as int, end as int));
        }
        if end == n {
            proof {
                assert(split_lines(text) =~= done);
            }
            break;
        }
        proof {
            assert(current.skip(end - pos + 2) =~= chars@.subrange(end + 2, n as int));
            assert(split_lines(text) =~= done + split_lines(chars@.subrange(end + 2, n as int)));
        }
        pos = end + 2;
    }
    proof {
        assert(action_views(actions@) =~= read_actions(data@));
    }
    actions
}

} // verus!
