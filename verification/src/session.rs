//! The lines a session sends: the handshake that opens it, chat messages, and
//! the terminator that ends every outgoing line.

use vstd::prelude::*;
use vstd::string::StringExecFns;

verus! {

/// What a session is opened with.
pub struct SessionConfig {
    /// The credential token, sent as the password.
    pub oauth: String,
    /// The nickname to register under.
    pub nick: String,
    /// The rooms to join once registered, in this order. A room named twice
    /// is joined twice.
    pub rooms: Vec<String>,
}

/// The line that asks the server for the tags, commands and membership extensions.
pub open spec fn capability_request() -> Seq<char> {
    "CAP REQ :twitch.tv/tags twitch.tv/commands twitch.tv/membership"@
}

/// The line that presents the credential token.
pub open spec fn pass_line(token: Seq<char>) -> Seq<char> {
    "PASS "@ + token
}

/// The line that registers the nickname.
pub open spec fn nick_line(nick: Seq<char>) -> Seq<char> {
    "NICK "@ + nick
}

/// The line that joins a room.
pub open spec fn join_line(room: Seq<char>) -> Seq<char> {
    "JOIN "@ + room
}

/// The line that says `message` in `channel`.
pub open spec fn chat_line(message: Seq<char>, channel: Seq<char>) -> Seq<char> {
    "PRIVMSG "@ + channel + " :"@ + message
}

/// A line as it goes out: its text, then a carriage return and a line feed.
pub open spec fn framed(line: Seq<char>) -> Seq<char> {
    line + "\r\n"@
}

/// The room names of a list of rooms.
pub open spec fn room_names(rooms: Seq<String>) -> Seq<Seq<char>> {
    rooms.map_values(|room: String| room@)
}

/// The three lines that authenticate a session, in the order they are sent.
pub open spec fn authentication(token: Seq<char>, nick: Seq<char>) -> Seq<Seq<char>> {
    seq![capability_request(), pass_line(token), nick_line(nick)]
}

/// One join line for each room, in the order of the rooms.
pub open spec fn joins(rooms: Seq<Seq<char>>) -> Seq<Seq<char>> {
    rooms.map_values(|room: Seq<char>| join_line(room))
}

/// The whole handshake: authentication, then the joins.
pub open spec fn handshake(token: Seq<char>, nick: Seq<char>, rooms: Seq<Seq<char>>) -> Seq<
    Seq<char>,
> {
    authentication(token, nick) + joins(rooms)
}

/// The texts of a list of lines.
pub open spec fn line_texts(lines: Seq<String>) -> Seq<Seq<char>> {
    lines.map_values(|line: String| line@)
}

/// A line made of `word` followed by `rest`.
fn prefixed(word: &str, rest: &str) -> (line: String)
    ensures
        line@ == word@ + rest@,
{
    let mut line = String::from_str(word);
    line.append(rest);
    line
}

/// The text of an outgoing line with its terminator, as it is written to the transport.
pub fn frame_line(message: &str) -> (wire: String)
    ensures
        wire@ == framed(message@),
{
    prefixed(message, "\r\n")
}

/// The line that says `message` in `channel`, without its terminator.
pub fn channel_message(message: &str, channel: &str) -> (line: String)
    ensures
        line@ == chat_line(message@, channel@),
{
    let mut line = prefixed("PRIVMSG ", channel);
    line.append(" :");
    line.append(message);
    line
}

impl SessionConfig {
    /// A configuration of the given credential token, nickname and rooms.
    pub fn new(oauth: String, nick: String, rooms: Vec<String>) -> (config: SessionConfig)
        ensures
            config.oauth == oauth,
            config.nick == nick,
            config.rooms == rooms,
    {
        SessionConfig { oauth, nick, rooms }
    }

    /// The lines that authenticate the session: the capability request, the
    /// password line with the credential token, and the nickname line. All
    /// three are there whatever the token and the nickname hold.
    pub fn authenticate(&self) -> (lines: Vec<String>)
        ensures
            line_texts(lines@) == authentication(self.oauth@, self.nick@),
    {
        let mut lines: Vec<String> = Vec::new();
        lines.push(
            String::from_str("CAP REQ :twitch.tv/tags twitch.tv/commands twitch.tv/membership"),
        );
        lines.push(prefixed("PASS ", self.oauth.as_str()));
        lines.push(prefixed("NICK ", self.nick.as_str()));
        proof {
            assert(line_texts(lines@) =~= authentication(self.oauth@, self.nick@));
        }
        lines
    }

    /// One join line for each configured room, in the configured order: none
    /// for an empty list, and two for a room that is named twice.
    pub fn join_all(&self) -> (lines: Vec<String>)
        ensures
            line_texts(lines@) == joins(room_names(self.rooms@)),
    {
        let mut lines: Vec<String> = Vec::new();
        let mut i: usize = 0;
        while i < self.rooms.len()
            invariant
                i <= self.rooms.len(),
                lines.len() == i,
                forall|j: int| 0 <= j < i ==> (#[trigger] lines[j])@ == join_line(self.rooms[j]@),
            decreases self.rooms.len() - i,
        {
            lines.push(prefixed("JOIN ", self.rooms[i].as_str()));
            i += 1;
        }
        proof {
            assert(line_texts(lines@) =~= joins(room_names(self.rooms@)));
        }
        lines
    }

    /// The lines to send once the transport is open, in the order to send
    /// them: the authentication, then the joins.
    pub fn handshake_lines(&self) -> (lines: Vec<String>)
        ensures
            line_texts(lines@) == handshake(self.oauth@, self.nick@, room_names(self.rooms@)),
    {
        let mut lines = self.authenticate();
        let mut joins = self.join_all();
        let ghost first = lines@;
        let ghost second = joins@;
        lines.append(&mut joins);
        proof {
            assert(line_texts(first + second) =~= line_texts(first) + line_texts(second));
        }
        lines
    }
}

} // verus!
