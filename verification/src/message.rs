//! The decoded form of one received protocol line.

use vstd::prelude::*;
use vstd::hash_map::StringHashMap;

verus! {

/// Why a received line could not be decoded.
#[derive(Clone, Copy, Debug, PartialEq, Eq, Structural)]
pub enum ProtocolParseError {
    /// An entry of the tag block holds no `=`.
    MalformedTag,
    /// No token follows the optional tag block, or the one that does
    /// does not begin with `:`.
    MissingPrefix,
    /// No token follows the prefix.
    MissingCommand,
}

/// The mathematical value of a `DecodedMessage`.
pub struct MessageView {
    pub metadata: Map<Seq<char>, Seq<char>>,
    pub from: Seq<char>,
    pub command: Seq<char>,
    pub target: Option<Seq<char>>,
    pub params: Seq<char>,
}

/// One received line, taken apart.
pub struct DecodedMessage {
    /// The tag block's entries, value by key; empty for a line without one.
    pub metadata: StringHashMap<String>,
    /// The nickname or the server name the line came from.
    pub from: String,
    /// The protocol verb or numeric reply.
    pub command: String,
    /// The channel or user addressed, where the line names one.
    pub target: Option<String>,
    /// The trailing parameter, without its leading colon.
    pub params: String,
}

/// A table of strings by key, each stored string taken by its characters.
pub open spec fn tags_view(tags: Map<Seq<char>, String>) -> Map<Seq<char>, Seq<char>> {
    Map::new(|k: Seq<char>| tags.contains_key(k), |k: Seq<char>| tags[k]@)
}

/// An optional string taken by its characters.
pub open spec fn optional_view(s: Option<String>) -> Option<Seq<char>> {
    match s {
        Some(t) => Some(t@),
        None => None,
    }
}

impl View for DecodedMessage {
    type V = MessageView;

    open spec fn view(&self) -> MessageView {
        MessageView {
            metadata: tags_view(self.metadata@),
            from: self.from@,
            command: self.command@,
            target: optional_view(self.target),
            params: self.params@,
        }
    }
}

/// Storing a string under a key stores its characters under that key.
pub proof fn lemma_tags_view_insert(tags: Map<Seq<char>, String>, key: Seq<char>, value: String)
    ensures
        tags_view(tags.insert(key, value)) == tags_view(tags).insert(key, value@),
{
    assert(tags_view(tags.insert(key, value)) =~= tags_view(tags).insert(key, value@));
}

/// An empty table has an empty view.
pub proof fn lemma_tags_view_empty()
    ensures
        tags_view(Map::<Seq<char>, String>::empty()) == Map::<Seq<char>, Seq<char>>::empty(),
{
    assert(tags_view(Map::<Seq<char>, String>::empty()) =~= Map::<Seq<char>, Seq<char>>::empty());
}

} // verus!
