//! Client-side logic for a chat protocol that layers IRCv3-style framing
//! (tags, prefix, command, target, trailing parameter) over a line-oriented
//! byte stream: decoding of received lines, the keepalive reply, the
//! handshake sequence and the framing of outgoing lines.

pub mod lines;
pub mod message;
pub mod parser;
pub mod receive;
pub mod session;
pub mod text;

pub use message::{DecodedMessage, ProtocolParseError};
pub use parser::parse_message;
pub use receive::{handle_line, handle_read, LineAction};
pub use session::{channel_message, frame_line, SessionConfig};
