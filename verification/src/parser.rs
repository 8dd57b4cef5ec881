//! Decoding of one received line:
//! `[@key=value[;key=value...] ]:prefix COMMAND [target] [:trailing]`.

use vstd::prelude::*;
use vstd::hash_map::StringHashMap;
use crate::message::{
    lemma_tags_view_empty, lemma_tags_view_insert, tags_view, DecodedMessage, MessageView,
    ProtocolParseError,
};
use crate::text::{
    after, before, chars_of, find_char, join, lemma_index_of, lemma_index_of_is, lemma_join_lacks,
    lemma_join_split, lemma_split_join, lemma_split_step, split, substring,
};

verus! {

/// Whether `s` is not empty and its first character is `c`.
pub open spec fn begins_with(s: Seq<char>, c: char) -> bool {
    s.len() > 0 && s[0] == c
}

/// The key of a tag entry: what stands before its first `=`.
pub open spec fn entry_key(entry: Seq<char>) -> Seq<char> {
    before(entry, '=')
}

/// The value of a tag entry: all that follows its first `=`, further `=` included.
pub open spec fn entry_value(entry: Seq<char>) -> Seq<char> {
    after(entry, '=')
}

/// The table that results from storing the entries one after another, so that
/// of two entries with one key the later stays.
pub open spec fn entries_map(entries: Seq<Seq<char>>) -> Map<Seq<char>, Seq<char>>
    decreases entries.len(),
{
    if entries.len() == 0 {
        Map::empty()
    } else {
        entries_map(entries.drop_last()).insert(
            entry_key(entries.last()),
            entry_value(entries.last()),
        )
    }
}

/// Whether each of the entries holds a `=`.
pub open spec fn well_formed_entries(entries: Seq<Seq<char>>) -> bool {
    forall|i: int| 0 <= i < entries.len() ==> (#[trigger] entries[i]).contains('=')
}

/// The table of a tag block, given without its leading `@`: its entries stand
/// between `;`. There is none where an entry holds no `=`.
pub open spec fn tag_map(block: Seq<char>) -> Option<Map<Seq<char>, Seq<char>>> {
    if well_formed_entries(split(block, ';')) {
        Some(entries_map(split(block, ';')))
    } else {
        None
    }
}

/// The short name in a prefix token: the token without its first character,
/// cut before the first `@` and then before the first `!`.
pub open spec fn nickname(prefix: Seq<char>) -> Seq<char> {
    before(before(prefix.drop_first(), '@'), '!')
}

/// A trailing parameter without the one colon that may mark it.
pub open spec fn trailing(rest: Seq<char>) -> Seq<char> {
    if begins_with(rest, ':') {
        rest.drop_first()
    } else {
        rest
    }
}

/// What the tokens behind the tag block decode to: prefix, command, and where
/// more tokens follow, the target and the others joined again by single spaces.
pub open spec fn parse_tokens(
    metadata: Map<Seq<char>, Seq<char>>,
    tokens: Seq<Seq<char>>,
) -> Result<MessageView, ProtocolParseError> {
    if tokens.len() == 0 || !begins_with(tokens[0], ':') {
        Err(ProtocolParseError::MissingPrefix)
    } else if tokens.len() == 1 {
        Err(ProtocolParseError::MissingCommand)
    } else if tokens.len() == 2 {
        Ok(
            MessageView {
                metadata,
                from: nickname(tokens[0]),
                command: tokens[1],
                target: None,
                params: Seq::empty(),
            },
        )
    } else {
        Ok(
            MessageView {
                metadata,
                from: nickname(tokens[0]),
                command: tokens[1],
                target: Some(tokens[2]),
                params: trailing(join(tokens.skip(3), ' ')),
            },
        )
    }
}

/// What a line decodes to. Its tokens stand between single spaces; a first
/// token that begins with `@` is the tag block.
pub open spec fn parse_line(line: Seq<char>) -> Result<MessageView, ProtocolParseError> {
    let tokens = split(line, ' ');
    if begins_with(tokens[0], '@') {
        match tag_map(tokens[0].drop_first()) {
            Some(metadata) => parse_tokens(metadata, tokens.drop_first()),
            None => Err(ProtocolParseError::MalformedTag),
        }
    } else {
        parse_tokens(Map::empty(), tokens)
    }
}

/// The outcome of decoding, the message taken by its view.
pub open spec fn decoded(
    outcome: Result<DecodedMessage, ProtocolParseError>,
) -> Result<MessageView, ProtocolParseError> {
    match outcome {
        Ok(message) => Ok(message@),
        Err(error) => Err(error),
    }
}

/// Decodes the tag block that stands in `from..to`.
fn parse_tags(line: &str, chars: &Vec<char>, from: usize, to: usize) -> (outcome: Result<
    StringHashMap<String>,
    ProtocolParseError,
>)
    requires
        chars@ == line@,
        from <= to <= chars.len(),
    ensures
        match tag_map(chars@.subrange(from as int, to as int)) {
            Some(metadata) => outcome is Ok && tags_view(outcome->Ok_0@) == metadata,
            None => outcome == Err::<StringHashMap<String>, _>(ProtocolParseError::MalformedTag),
        },
{
    let ghost block = chars@.subrange(from as int, to as int);
    let ghost mut done: Seq<Seq<char>> = Seq::empty();
    let mut tags: StringHashMap<String> = StringHashMap::new();
    let mut pos: usize = from;
    proof {
        lemma_tags_view_empty();
        assert(chars@.subrange(pos as int, to as int) == block);
        assert(done + split(block, ';') =~= split(block, ';'));
    }
    loop
        invariant_except_break
            split(block, ';') == done + split(chars@.subrange(pos as int, to as int), ';'),
        invariant
            chars@ == line@,
            from <= pos <= to <= chars.len(),
            block == chars@.subrange(from as int, to as int),
            well_formed_entries(done),
            tags_view(tags@) == entries_map(done),
        ensures
            tag_map(block) == Some(tags_view(tags@)),
        decreases to - pos,
    {
        let ghost current = chars@.subrange(pos as int, to as int);
        let end = find_char(chars, pos, to, ';');
        proof {
            lemma_index_of(current, ';');
        }
        let ghost entry = chars@.subrange(pos as int, end as int);
        let eq = find_char(chars, pos, end, '=');
        proof {
            lemma_split_step(current, ';');
            assert(current.take(end - pos) =~= entry);
            lemma_index_of(entry, '=');
            assert(split(block, ';')[done.len() as int] == entry);
        }
        if eq == end {
            proof {
                assert(!split(block, ';')[done.len() as int].contains('='));
            }
            return Err(ProtocolParseError::MalformedTag);
        }
        let key = substring(line, pos, eq);
        let value = substring(line, eq + 1, end);
        proof {
            assert(entry_key(entry) =~= key@);
            assert(entry_value(entry) =~= value@);
            lemma_tags_view_insert(tags@, key@, value);
            assert(done.push(entry).drop_last() =~= done);
        }
        tags.insert(key, value);
        proof {
            done = done.push(entry);
        }
        if end == to {
            proof {
                assert(split(block, ';') =~= done);
            }
            break;
        }
        proof {
            assert(current.skip(end - pos + 1) =~= chars@.subrange(end + 1, to as int));
            assert(split(block, ';') =~= done + split(
                chars@.subrange(end + 1, to as int),
                ';',
            ));
        }
        pos = end + 1;
    }
    Ok(tags)
}

/// The first token of a line begins with `@` just when the line does.
pub proof fn lemma_tag_marker(line: Seq<char>)
    ensures
        begins_with(split(line, ' ')[0], '@') == begins_with(line, '@'),
{
    lemma_index_of(line, ' ');
    lemma_split_step(line, ' ');
}

/// A line that does not begin with `@` has no tags: where it decodes, the
/// message's table is empty.
pub proof fn lemma_untagged_line(line: Seq<char>)
    requires
        !begins_with(line, '@'),
    ensures
        parse_line(line) == parse_tokens(Map::empty(), split(line, ' ')),
        parse_line(line) matches Ok(message) ==> message.metadata == Map::<
            Seq<char>,
            Seq<char>,
        >::empty(),
{
    lemma_tag_marker(line);
}

/// An entry that holds a `=` is its key, one `=` and its value; the key holds
/// no `=`, the value may hold any number of them and may be empty.
pub proof fn lemma_entry_parts(entry: Seq<char>)
    requires
        entry.contains('='),
    ensures
        entry == entry_key(entry) + seq!['='] + entry_value(entry),
        !entry_key(entry).contains('='),
{
    lemma_index_of(entry, '=');
    let key = entry_key(entry);
    assert(entry =~= key + seq!['='] + entry_value(entry));
    if key.contains('=') {
        let j = choose|j: int| 0 <= j < key.len() && key[j] == '=';
        assert(entry[j] == '=');
    }
}

/// An entry made of a key without `=`, one `=` and a value has that key and that value.
pub proof fn lemma_entry_of_parts(key: Seq<char>, value: Seq<char>)
    requires
        !key.contains('='),
    ensures
        (key + seq!['='] + value).contains('='),
        entry_key(key + seq!['='] + value) == key,
        entry_value(key + seq!['='] + value) == value,
{
    let entry = key + seq!['='] + value;
    assert(entry[key.len() as int] == '=');
    assert forall|j: int| 0 <= j < key.len() implies entry[j] != '=' by {
        assert(entry[j] == key[j]);
    }
    lemma_index_of_is(entry, '=', key.len() as int);
    assert(entry_key(entry) =~= key);
    assert(entry_value(entry) =~= value);
}

/// The table holds, under the key of an entry that no later entry shares its
/// key with, that entry's value.
pub proof fn lemma_entries_map_holds(entries: Seq<Seq<char>>, i: int)
    requires
        0 <= i < entries.len(),
        forall|j: int| i < j < entries.len() ==> entry_key(#[trigger] entries[j]) != entry_key(entries[i]),
    ensures
        entries_map(entries).contains_key(entry_key(entries[i])),
        entries_map(entries)[entry_key(entries[i])] == entry_value(entries[i]),
    decreases entries.len(),
{
    if i < entries.len() - 1 {
        let front = entries.drop_last();
        assert(front[i] == entries[i]);
        assert forall|j: int| i < j < front.len() implies entry_key(#[trigger] front[j]) != entry_key(
            front[i],
        ) by {
            assert(front[j] == entries[j]);
        }
        lemma_entries_map_holds(front, i);
        assert(entries.last() == entries[entries.len() - 1]);
    }
}

/// The keys of the table are the keys of the entries, and no others.
pub proof fn lemma_entries_map_keys(entries: Seq<Seq<char>>, key: Seq<char>)
    ensures
        entries_map(entries).contains_key(key) <==> exists|i: int|
            0 <= i < entries.len() && entry_key(#[trigger] entries[i]) == key,
    decreases entries.len(),
{
    if entries.len() > 0 {
        let front = entries.drop_last();
        lemma_entries_map_keys(front, key);
        if entries_map(entries).contains_key(key) {
            if entry_key(entries.last()) == key {
                assert(entry_key(entries[entries.len() - 1]) == key);
            } else {
                let i = choose|i: int| 0 <= i < front.len() && entry_key(#[trigger] front[i]) == key;
                assert(entries[i] == front[i]);
            }
        }
        if exists|i: int| 0 <= i < entries.len() && entry_key(#[trigger] entries[i]) == key {
            let i = choose|i: int| 0 <= i < entries.len() && entry_key(#[trigger] entries[i]) == key;
            if i < entries.len() - 1 {
                assert(front[i] == entries[i]);
            }
        }
    }
}

/// The entries of the tag block of a line that begins with `@`.
pub open spec fn tag_entries(line: Seq<char>) -> Seq<Seq<char>> {
    split(split(line, ' ')[0].drop_first(), ';')
}

/// How many tokens a line has behind its tag block, if it has one.
pub open spec fn token_count(line: Seq<char>) -> int {
    if begins_with(line, '@') {
        split(line, ' ').len() - 1
    } else {
        split(line, ' ').len() as int
    }
}

/// Every entry of a tagged line that decodes is recovered exactly: the entry
/// is its key, a `=` and its value, and the message's table holds that value
/// under that key, unless a later entry of the same key has taken its place.
pub proof fn lemma_tags_recovered(line: Seq<char>, i: int)
    requires
        begins_with(line, '@'),
        parse_line(line) is Ok,
        0 <= i < tag_entries(line).len(),
        forall|j: int|
            i < j < tag_entries(line).len() ==> entry_key(#[trigger] tag_entries(line)[j])
                != entry_key(tag_entries(line)[i]),
    ensures
        ({
            let entry = tag_entries(line)[i];
            let metadata = parse_line(line)->Ok_0.metadata;
            &&& entry == entry_key(entry) + seq!['='] + entry_value(entry)
            &&& metadata.contains_key(entry_key(entry))
            &&& metadata[entry_key(entry)] == entry_value(entry)
        }),
{
    lemma_tag_marker(line);
    let entries = tag_entries(line);
    assert(entries[i].contains('='));
    lemma_entry_parts(entries[i]);
    lemma_entries_map_holds(entries, i);
}

/// The table of a tagged line that decodes has the keys of its entries, and no others.
pub proof fn lemma_tags_keys(line: Seq<char>, key: Seq<char>)
    requires
        begins_with(line, '@'),
        parse_line(line) is Ok,
    ensures
        parse_line(line)->Ok_0.metadata.contains_key(key) <==> exists|i: int|
            0 <= i < tag_entries(line).len() && entry_key(#[trigger] tag_entries(line)[i]) == key,
{
    lemma_tag_marker(line);
    lemma_entries_map_keys(tag_entries(line), key);
}

/// The entry of a key and a value.
pub open spec fn tag_entry(key: Seq<char>, value: Seq<char>) -> Seq<char> {
    key + seq!['='] + value
}

/// A line with a tag block of the given keys and values, a space, and `rest`.
pub open spec fn tagged_line(keys: Seq<Seq<char>>, values: Seq<Seq<char>>, rest: Seq<char>) -> Seq<
    char,
> {
    seq!['@'] + join(Seq::new(keys.len(), |k: int| tag_entry(keys[k], values[k])), ';') + seq![' ']
        + rest
}

/// A line written with a tag block decodes as what follows the block does,
/// and its table holds each value under its key: a value that is empty or
/// holds `=` like any other. Of two entries with one key the later counts.
pub proof fn lemma_tagged_line(
    keys: Seq<Seq<char>>,
    values: Seq<Seq<char>>,
    rest: Seq<char>,
    i: int,
)
    requires
        keys.len() == values.len(),
        forall|k: int|
            0 <= k < keys.len() ==> !(#[trigger] keys[k]).contains('=') && !keys[k].contains(';')
                && !keys[k].contains(' '),
        forall|k: int|
            0 <= k < values.len() ==> !(#[trigger] values[k]).contains(';') && !values[k].contains(
                ' ',
            ),
        0 <= i < keys.len(),
        forall|j: int| i < j < keys.len() ==> #[trigger] keys[j] != keys[i],
    ensures
        parse_line(tagged_line(keys, values, rest)) is Ok <==> parse_tokens(
            Map::empty(),
            split(rest, ' '),
        ) is Ok,
        parse_line(tagged_line(keys, values, rest)) matches Ok(message) ==> {
            &&& message.metadata.contains_key(keys[i])
            &&& message.metadata[keys[i]] == values[i]
            &&& parse_tokens(Map::empty(), split(rest, ' ')) matches Ok(plain)
            &&& message.from == plain.from
            &&& message.command == plain.command
            &&& message.target == plain.target
            &&& message.params == plain.params
        },
{
    let entries = Seq::new(keys.len(), |k: int| tag_entry(keys[k], values[k]));
    let block = join(entries, ';');
    let line = tagged_line(keys, values, rest);
    let first = seq!['@'] + block;
    assert forall|k: int| 0 <= k < entries.len() implies {
        &&& !(#[trigger] entries[k]).contains(';')
        &&& !entries[k].contains(' ')
        &&& entries[k].contains('=')
        &&& entry_key(entries[k]) == keys[k]
        &&& entry_value(entries[k]) == values[k]
    } by {
        let e = entries[k];
        lemma_entry_of_parts(keys[k], values[k]);
        assert forall|j: int| 0 <= j < e.len() implies e[j] != ';' && e[j] != ' ' by {
            if j < keys[k].len() {
                assert(e[j] == keys[k][j]);
            } else if j > keys[k].len() {
                assert(e[j] == values[k][j - keys[k].len() - 1]);
            }
        }
    }
    lemma_join_lacks(entries, ';', ' ');
    lemma_split_join(entries, ';');
    assert forall|j: int| 0 <= j < first.len() implies first[j] != ' ' by {
        if j > 0 {
            assert(first[j] == block[j - 1]);
        }
    }
    assert forall|j: int| 0 <= j < first.len() implies line[j] != ' ' by {
        assert(line[j] == first[j]);
    }
    lemma_index_of_is(line, ' ', first.len() as int);
    lemma_index_of(line, ' ');
    lemma_split_step(line, ' ');
    assert(split(line, ' ')[0] =~= first);
    assert(first.drop_first() =~= block);
    assert(after(line, ' ') =~= rest);
    assert(well_formed_entries(entries));
    assert forall|j: int| i < j < entries.len() implies entry_key(#[trigger] entries[j])
        != entry_key(entries[i]) by {
        assert(keys[j] != keys[i]);
    }
    lemma_entries_map_holds(entries, i);
}

/// The short name is the longest beginning of the prefix, its first
/// character left out, that holds neither `@` nor `!`.
pub proof fn lemma_nickname(prefix: Seq<char>)
    requires
        prefix.len() > 0,
    ensures
        nickname(prefix).is_prefix_of(prefix.drop_first()),
        !nickname(prefix).contains('@'),
        !nickname(prefix).contains('!'),
        nickname(prefix).len() < prefix.len() - 1 ==> {
            let next = prefix.drop_first()[nickname(prefix).len() as int];
            next == '@' || next == '!'
        },
{
    let full = prefix.drop_first();
    let host_cut = before(full, '@');
    let name = before(host_cut, '!');
    lemma_index_of(full, '@');
    lemma_index_of(host_cut, '!');
    assert(name =~= full.subrange(0, name.len() as int));
    assert forall|j: int| 0 <= j < name.len() implies name[j] != '@' && name[j] != '!' by {
        assert(name[j] == host_cut[j]);
        assert(host_cut[j] == full[j]);
    }
    if name.len() < full.len() {
        if name.len() < host_cut.len() {
            assert(host_cut[name.len() as int] == '!');
        } else {
            assert(full[host_cut.len() as int] == '@');
        }
    }
}

/// Whichever form the prefix has, a name with user and host, a name with
/// host, or a bare name, the short name is the name: exactly one leading
/// colon is left out, and a name that begins with a colon keeps it.
pub proof fn lemma_nickname_forms(name: Seq<char>, user: Seq<char>, host: Seq<char>)
    requires
        !name.contains('@'),
        !name.contains('!'),
    ensures
        nickname(seq![':'] + name) == name,
        nickname(seq![':'] + name + seq!['@'] + host) == name,
        nickname(seq![':'] + name + seq!['!'] + user + seq!['@'] + host) == name,
{
    lemma_index_of(name, '@');
    lemma_index_of(name, '!');
    assert(before(name, '@') =~= name);
    assert(before(name, '!') =~= name);
    assert((seq![':'] + name).drop_first() =~= name);

    let with_host = name + seq!['@'] + host;
    assert((seq![':'] + name + seq!['@'] + host).drop_first() =~= with_host);
    assert forall|j: int| 0 <= j < name.len() implies with_host[j] != '@' by {
        assert(with_host[j] == name[j]);
    }
    lemma_index_of_is(with_host, '@', name.len() as int);
    assert(before(with_host, '@') =~= name);

    let with_user = name + seq!['!'] + user + seq!['@'] + host;
    assert((seq![':'] + name + seq!['!'] + user + seq!['@'] + host).drop_first() =~= with_user);
    lemma_index_of(with_user, '@');
    let cut = before(with_user, '@');
    assert(cut.len() > name.len()) by {
        if cut.len() <= name.len() {
            assert(with_user[cut.len() as int] == '@');
            if cut.len() < name.len() {
                assert(with_user[cut.len() as int] == name[cut.len() as int]);
            }
        }
    }
    assert forall|j: int| 0 <= j < name.len() implies cut[j] != '!' by {
        assert(cut[j] == name[j]);
    }
    assert(cut[name.len() as int] == '!');
    lemma_index_of_is(cut, '!', name.len() as int);
    assert(before(cut, '!') =~= name);
}

/// A line that decodes has a target just when a token follows the command;
/// when none does, its parameter is empty.
pub proof fn lemma_no_target(line: Seq<char>)
    requires
        parse_line(line) is Ok,
    ensures
        token_count(line) >= 2,
        parse_line(line)->Ok_0.target is None <==> token_count(line) == 2,
        token_count(line) == 2 ==> parse_line(line)->Ok_0.params == Seq::<char>::empty(),
{
    lemma_tag_marker(line);
}

/// Where the token that begins at `start` ends: at the next space, or at the
/// end of the line.
fn token_end(chars: &Vec<char>, start: usize) -> (end: usize)
    requires
        start <= chars.len(),
    ensures
        start <= end <= chars.len(),
        split(chars@.skip(start as int), ' ')[0] == chars@.subrange(start as int, end as int),
        end == chars.len() ==> split(chars@.skip(start as int), ' ').len() == 1,
        end < chars.len() ==> split(chars@.skip(start as int), ' ').drop_first() == split(
            chars@.skip(end + 1),
            ' ',
        ),
{
    let end = find_char(chars, start, chars.len(), ' ');
    proof {
        let rest = chars@.skip(start as int);
        assert(chars@.subrange(start as int, chars.len() as int) =~= rest);
        lemma_index_of(rest, ' ');
        lemma_split_step(rest, ' ');
        assert(before(rest, ' ') =~= chars@.subrange(start as int, end as int));
        if end < chars.len() {
            assert(after(rest, ' ') =~= chars@.skip(end + 1));
        }
    }
    end
}

/// The sender's short name, from the prefix token that stands in `start..end`.
fn sender_name(line: &str, chars: &Vec<char>, start: usize, end: usize) -> (name: String)
    requires
        chars@ == line@,
        start < end <= chars.len(),
    ensures
        name@ == nickname(chars@.subrange(start as int, end as int)),
{
    let at = find_char(chars, start + 1, end, '@');
    proof {
        lemma_index_of(chars@.subrange(start + 1, end as int), '@');
    }
    let bang = find_char(chars, start + 1, at, '!');
    proof {
        lemma_index_of(chars@.subrange(start + 1, at as int), '!');
        let full = chars@.subrange(start as int, end as int).drop_first();
        assert(full =~= chars@.subrange(start + 1, end as int));
        assert(before(full, '@') =~= chars@.subrange(start + 1, at as int));
        assert(before(before(full, '@'), '!') =~= chars@.subrange(start + 1, bang as int));
    }
    substring(line, start + 1, bang)
}

/// The trailing parameter that begins at `start` and runs to the end of the line.
fn trailing_parameter(line: &str, chars: &Vec<char>, start: usize) -> (params: String)
    requires
        chars@ == line@,
        start <= chars.len(),
    ensures
        params@ == trailing(chars@.skip(start as int)),
{
    let n = chars.len();
    if start < n && chars[start] == ':' {
        proof {
            assert(chars@.skip(start as int).drop_first() =~= chars@.subrange(start + 1, n as int));
        }
        substring(line, start + 1, n)
    } else {
        proof {
            assert(chars@.skip(start as int) =~= chars@.subrange(start as int, n as int));
        }
        substring(line, start, n)
    }
}

/// Decodes the tokens that begin at `start`: the prefix, the command and what follows.
fn parse_body(line: &str, chars: &Vec<char>, start: usize, metadata: StringHashMap<String>) -> (outcome:
    Result<DecodedMessage, ProtocolParseError>)
    requires
        chars@ == line@,
        start <= chars.len(),
    ensures
        decoded(outcome) == parse_tokens(
            tags_view(metadata@),
            split(chars@.skip(start as int), ' '),
        ),
{
    let n = chars.len();
    let ghost tokens = split(chars@.skip(start as int), ' ');
    let end0 = token_end(chars, start);
    if end0 == start || chars[start] != ':' {
        return Err(ProtocolParseError::MissingPrefix);
    }
    if end0 == n {
        return Err(ProtocolParseError::MissingCommand);
    }
    let from = sender_name(line, chars, start, end0);
    let end1 = token_end(chars, end0 + 1);
    let command = substring(line, end0 + 1, end1);
    proof {
        assert(tokens[1] == tokens.drop_first()[0]);
    }
    if end1 == n {
        return Ok(DecodedMessage { metadata, from, command, target: None, params: String::new() });
    }
    let end2 = token_end(chars, end1 + 1);
    let target = substring(line, end1 + 1, end2);
    proof {
        assert(tokens.skip(2) =~= tokens.drop_first().drop_first());
        assert(tokens[2] == tokens.skip(2)[0]);
    }
    let params = if end2 == n {
        proof {
            assert(tokens.skip(3) =~= Seq::<Seq<char>>::empty());
        }
        String::new()
    } else {
        proof {
            assert(tokens.skip(3) =~= tokens.skip(2).drop_first());
            lemma_join_split(chars@.skip(end2 + 1), ' ');
        }
        trailing_parameter(line, chars, end2 + 1)
    };
    Ok(DecodedMessage { metadata, from, command, target: Some(target), params })
}

/// Decodes one received line, given without its line terminator.
///
/// A line that begins with `@` carries a tag block, whose entries are stored
/// by key. The prefix gives the sender's short name, the next token is the
/// command, the one after it the target, and the rest of the line is the
/// trailing parameter, less the colon that may mark it. A line that does not
/// fit comes back as the error that names what is wrong with it.
pub fn parse_message(message: String) -> (outcome: Result<DecodedMessage, ProtocolParseError>)
    ensures
        decoded(outcome) == parse_line(message@),
{
    let line = message.as_str();
    let chars = chars_of(line);
    let end = token_end(&chars, 0);
    proof {
        assert(chars@.skip(0) =~= chars@);
        lemma_tags_view_empty();
    }
    if end > 0 && chars[0] == '@' {
        proof {
            assert(split(chars@, ' ')[0].drop_first() =~= chars@.subrange(1, end as int));
        }
        match parse_tags(line, &chars, 1, end) {
            Err(error) => Err(error),
            Ok(metadata) => {
                if end == chars.len() {
                    proof {
                        assert(split(chars@, ' ').drop_first() =~= Seq::<Seq<char>>::empty());
                    }
                    Err(ProtocolParseError::MissingPrefix)
                } else {
                    parse_body(line, &chars, end + 1, metadata)
                }
            },
        }
    } else {
        parse_body(line, &chars, 0, StringHashMap::new())
    }
}

} // verus!
