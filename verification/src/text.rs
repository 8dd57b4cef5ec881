//! Character sequences: searching, splitting and joining.

use vstd::prelude::*;

verus! {

/// The position of the first `c` in `s`, or `s.len()` where `s` holds none.
pub open spec fn index_of(s: Seq<char>, c: char) -> int
    decreases s.len(),
{
    if s.len() == 0 || s[0] == c {
        0
    } else {
        1 + index_of(s.drop_first(), c)
    }
}

/// What stands in `s` before the first `c`: all of `s` where it holds none.
pub open spec fn before(s: Seq<char>, c: char) -> Seq<char> {
    s.take(index_of(s, c))
}

/// What stands in `s` after the first `c`: nothing where it holds none.
pub open spec fn after(s: Seq<char>, c: char) -> Seq<char> {
    if s.contains(c) {
        s.skip(index_of(s, c) + 1)
    } else {
        Seq::empty()
    }
}

/// The pieces of `s` between its occurrences of `c`, in order. There is always
/// at least one piece, and a piece is empty where two separators touch or one
/// stands at either end.
pub open spec fn split(s: Seq<char>, c: char) -> Seq<Seq<char>>
    decreases s.len(),
{
    let i = index_of(s, c);
    if 0 <= i < s.len() {
        seq![s.take(i)] + split(s.skip(i + 1), c)
    } else {
        seq![s]
    }
}

/// The pieces written one after another with one `c` between neighbours.
pub open spec fn join(parts: Seq<Seq<char>>, c: char) -> Seq<char>
    decreases parts.len(),
{
    if parts.len() == 0 {
        Seq::empty()
    } else if parts.len() == 1 {
        parts[0]
    } else {
        parts[0] + seq![c] + join(parts.drop_first(), c)
    }
}

/// `index_of` is the least position that holds `c`, and the length when none does.
pub proof fn lemma_index_of(s: Seq<char>, c: char)
    ensures
        0 <= index_of(s, c) <= s.len(),
        forall|j: int| 0 <= j < index_of(s, c) ==> s[j] != c,
        index_of(s, c) < s.len() ==> s[index_of(s, c)] == c,
        index_of(s, c) < s.len() <==> s.contains(c),
    decreases s.len(),
{
    if s.len() == 0 || s[0] == c {
    } else {
        let t = s.drop_first();
        lemma_index_of(t, c);
        let k = index_of(t, c);
        assert forall|j: int| 0 <= j < index_of(s, c) implies s[j] != c by {
            if j > 0 {
                assert(s[j] == t[j - 1]);
            }
        }
        if k < t.len() {
            assert(s[k + 1] == t[k]);
        }
        if s.contains(c) {
            let i = choose|i: int| 0 <= i < s.len() && s[i] == c;
            assert(t[i - 1] == c);
        }
    }
}

/// A position that holds the first `c`, or the length where there is none, is `index_of`.
pub proof fn lemma_index_of_is(s: Seq<char>, c: char, k: int)
    requires
        0 <= k <= s.len(),
        forall|j: int| 0 <= j < k ==> s[j] != c,
        k < s.len() ==> s[k] == c,
    ensures
        index_of(s, c) == k,
{
    lemma_index_of(s, c);
}

/// How `split` takes its first piece and goes on behind the separator.
pub proof fn lemma_split_step(s: Seq<char>, c: char)
    ensures
        split(s, c).len() >= 1,
        split(s, c)[0] == before(s, c),
        !s.contains(c) ==> split(s, c) == seq![s],
        s.contains(c) ==> split(s, c).drop_first() == split(after(s, c), c),
{
    lemma_index_of(s, c);
    let i = index_of(s, c);
    if i < s.len() {
        assert(split(s, c).drop_first() =~= split(s.skip(i + 1), c));
    } else {
        assert(s.take(i) =~= s);
    }
}

/// Joining the pieces of a split gives the sequence back.
pub proof fn lemma_join_split(s: Seq<char>, c: char)
    ensures
        join(split(s, c), c) == s,
    decreases s.len(),
{
    lemma_index_of(s, c);
    lemma_split_step(s, c);
    let i = index_of(s, c);
    if i < s.len() {
        let rest = s.skip(i + 1);
        lemma_join_split(rest, c);
        lemma_split_step(rest, c);
        let parts = split(s, c);
        assert(parts.len() >= 2);
        assert(join(parts, c) == parts[0] + seq![c] + join(parts.drop_first(), c));
        assert(s.take(i) + seq![c] + rest =~= s);
    }
}

/// Splitting what was joined gives the pieces back, where none of them holds
/// the separator.
pub proof fn lemma_split_join(parts: Seq<Seq<char>>, c: char)
    requires
        parts.len() >= 1,
        forall|i: int| 0 <= i < parts.len() ==> !(#[trigger] parts[i]).contains(c),
    ensures
        split(join(parts, c), c) == parts,
    decreases parts.len(),
{
    let s = join(parts, c);
    lemma_index_of(parts[0], c);
    if parts.len() == 1 {
        assert(split(s, c) =~= parts);
    } else {
        let rest = parts.drop_first();
        assert forall|i: int| 0 <= i < rest.len() implies !(#[trigger] rest[i]).contains(c) by {
            assert(rest[i] == parts[i + 1]);
        }
        lemma_split_join(rest, c);
        let n = parts[0].len() as int;
        assert forall|j: int| 0 <= j < n implies s[j] != c by {
            assert(s[j] == parts[0][j]);
        }
        lemma_index_of_is(s, c, n);
        assert(s.take(n) =~= parts[0]);
        assert(s.skip(n + 1) =~= join(rest, c));
        assert(split(s, c) =~= parts);
    }
}

/// What was joined holds a character only where a piece or the separator does.
pub proof fn lemma_join_lacks(parts: Seq<Seq<char>>, c: char, d: char)
    requires
        c != d,
        forall|i: int| 0 <= i < parts.len() ==> !(#[trigger] parts[i]).contains(d),
    ensures
        !join(parts, c).contains(d),
    decreases parts.len(),
{
    let s = join(parts, c);
    if parts.len() >= 2 {
        let rest = parts.drop_first();
        assert forall|i: int| 0 <= i < rest.len() implies !(#[trigger] rest[i]).contains(d) by {
            assert(rest[i] == parts[i + 1]);
        }
        lemma_join_lacks(rest, c, d);
        if s.contains(d) {
            let j = choose|j: int| 0 <= j < s.len() && s[j] == d;
            let n = parts[0].len() as int;
            if j < n {
                assert(parts[0][j] == d);
            } else if j > n {
                assert(join(rest, c)[j - n - 1] == d);
            }
        }
    }
}

/// The characters of a string slice, one element for each.
pub fn chars_of(s: &str) -> (chars: Vec<char>)
    ensures
        chars@ == s@,
{
    let mut chars: Vec<char> = Vec::new();
    for c in it: s.chars()
        invariant
            it.seq() == s@,
            chars@ == s@.take(it.index() as int),
    {
        chars.push(c);
    }
    chars
}

/// The characters `from..to` of `line` as a string of their own.
pub fn substring(line: &str, from: usize, to: usize) -> (piece: String)
    requires
        from <= to <= line@.len(),
    ensures
        piece@ == line@.subrange(from as int, to as int),
{
    line.substring_char(from, to).to_owned()
}

/// Whether `chars` begins with the characters of `word`.
pub fn has_prefix(chars: &Vec<char>, word: &Vec<char>) -> (yes: bool)
    ensures
        yes == word@.is_prefix_of(chars@),
{
    if word.len() > chars.len() {
        return false;
    }
    let mut i: usize = 0;
    while i < word.len()
        invariant
            i <= word.len() <= chars.len(),
            forall|j: int| 0 <= j < i ==> word[j] == chars[j],
        decreases word.len() - i,
    {
        if word[i] != chars[i] {
            proof {
                assert(chars@.subrange(0, word.len() as int)[i as int] != word[i as int]);
            }
            return false;
        }
        i += 1;
    }
    proof {
        assert(chars@.subrange(0, word.len() as int) =~= word@);
    }
    true
}

/// The first position in `from..to` that holds `c`, or `to` where none does.
pub fn find_char(chars: &Vec<char>, from: usize, to: usize, c: char) -> (at: usize)
    requires
        from <= to <= chars.len(),
    ensures
        at == from + index_of(chars@.subrange(from as int, to as int), c),
{
    let mut i: usize = from;
    while i < to && chars[i] != c
        invariant
            from <= i <= to <= chars.len(),
            forall|j: int| from <= j < i ==> chars[j] != c,
        decreases to - i,
    {
        i += 1;
    }
    proof {
        lemma_index_of_is(chars@.subrange(from as int, to as int), c, i - from);
    }
    i
}

} // verus!
