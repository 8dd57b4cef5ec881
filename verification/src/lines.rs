//! Protocol lines within the text of one read. A line ends with a carriage
//! return followed by a line feed.

use vstd::prelude::*;

verus! {

/// Whether `c` is one of the two characters of a line terminator.
pub open spec fn is_line_end(c: char) -> bool {
    c == '\r' || c == '\n'
}

/// `s` without the carriage returns and line feeds at its end.
pub open spec fn trim_line_end(s: Seq<char>) -> Seq<char>
    decreases s.len(),
{
    if s.len() > 0 && is_line_end(s.last()) {
        trim_line_end(s.drop_last())
    } else {
        s
    }
}

/// Whether a line terminator begins at position `i` of `s`.
pub open spec fn break_at(s: Seq<char>, i: int) -> bool {
    0 <= i && i + 1 < s.len() && s[i] == '\r' && s[i + 1] == '\n'
}

/// The position of the first line terminator in `s`, or `s.len()` where `s` holds none.
pub open spec fn first_break(s: Seq<char>) -> int
    decreases s.len(),
{
    if s.len() < 2 {
        s.len() as int
    } else if s[0] == '\r' && s[1] == '\n' {
        0
    } else {
        1 + first_break(s.drop_first())
    }
}

/// The lines of `s`: the pieces between its line terminators, in order. There
/// is always at least one, and an empty one where two terminators touch or one
/// stands at either end.
pub open spec fn split_lines(s: Seq<char>) -> Seq<Seq<char>>
    decreases s.len(),
{
    let i = first_break(s);
    if 0 <= i && i + 2 <= s.len() {
        seq![s.take(i)] + split_lines(s.skip(i + 2))
    } else {
        seq![s]
    }
}

/// The lines written one after another with a line terminator between neighbours.
pub open spec fn join_lines(lines: Seq<Seq<char>>) -> Seq<char>
    decreases lines.len(),
{
    if lines.len() == 0 {
        Seq::empty()
    } else if lines.len() == 1 {
        lines[0]
    } else {
        lines[0] + seq!['\r', '\n'] + join_lines(lines.drop_first())
    }
}

/// The lines that the text of one read holds, the terminators at its end left out.
pub open spec fn read_lines(data: Seq<char>) -> Seq<Seq<char>> {
    split_lines(trim_line_end(data))
}

/// `first_break` is the least position at which a terminator begins, and the
/// length when there is none.
pub proof fn lemma_first_break(s: Seq<char>)
    ensures
        0 <= first_break(s) <= s.len(),
        forall|j: int| 0 <= j < first_break(s) ==> !break_at(s, j),
        first_break(s) < s.len() ==> break_at(s, first_break(s)),
    decreases s.len(),
{
    if s.len() < 2 {
    } else if s[0] == '\r' && s[1] == '\n' {
    } else {
        let t = s.drop_first();
        lemma_first_break(t);
        let k = first_break(t);
        assert forall|j: int| 0 <= j < first_break(s) implies !break_at(s, j) by {
            if j > 0 {
                assert(break_at(s, j) ==> break_at(t, j - 1));
            }
        }
        if k < t.len() {
            assert(break_at(t, k));
            assert(s[k + 1] == t[k] && s[k + 2] == t[k + 1]);
        }
    }
}

/// A position at which the first terminator begins, or the length where there
/// is none, is `first_break`.
pub proof fn lemma_first_break_is(s: Seq<char>, k: int)
    requires
        0 <= k <= s.len(),
        forall|j: int| 0 <= j < k ==> !break_at(s, j),
        k < s.len() ==> break_at(s, k),
    ensures
        first_break(s) == k,
{
    lemma_first_break(s);
}

/// How `split_lines` takes its first line and goes on behind the terminator.
pub proof fn lemma_split_lines_step(s: Seq<char>)
    ensures
        split_lines(s).len() >= 1,
        split_lines(s)[0] == s.take(first_break(s)),
        first_break(s) == s.len() ==> split_lines(s) == seq![s],
        first_break(s) < s.len() ==> split_lines(s).drop_first() == split_lines(
            s.skip(first_break(s) + 2),
        ),
{
    lemma_first_break(s);
    let i = first_break(s);
    if i < s.len() {
        assert(split_lines(s).drop_first() =~= split_lines(s.skip(i + 2)));
    } else {
        assert(s.take(i) =~= s);
    }
}

/// Whether `line` holds neither a carriage return nor a line feed.
pub open spec fn free_of_line_ends(line: Seq<char>) -> bool {
    forall|j: int| 0 <= j < line.len() ==> !is_line_end(#[trigger] line[j])
}

/// Cutting what was joined gives the lines back, where none of them holds a
/// carriage return or a line feed.
pub proof fn lemma_split_lines_join(lines: Seq<Seq<char>>)
    requires
        lines.len() >= 1,
        forall|i: int| 0 <= i < lines.len() ==> free_of_line_ends(#[trigger] lines[i]),
    ensures
        split_lines(join_lines(lines)) == lines,
    decreases lines.len(),
{
    let s = join_lines(lines);
    let n = lines[0].len() as int;
    assert(free_of_line_ends(lines[0]));
    if lines.len() == 1 {
        assert forall|j: int| 0 <= j < n implies !break_at(s, j) by {
            assert(!is_line_end(s[j]));
        }
        lemma_first_break_is(s, n);
        assert(split_lines(s) =~= lines);
    } else {
        let rest = lines.drop_first();
        assert forall|i: int| 0 <= i < rest.len() implies free_of_line_ends(#[trigger] rest[i]) by {
            assert(rest[i] == lines[i + 1]);
        }
        lemma_split_lines_join(rest);
        assert forall|j: int| 0 <= j < n implies !break_at(s, j) by {
            assert(s[j] == lines[0][j]);
            assert(!is_line_end(lines[0][j]));
        }
        assert(s[n] == '\r' && s[n + 1] == '\n');
        lemma_first_break_is(s, n);
        assert(s.take(n) =~= lines[0]);
        assert(s.skip(n + 2) =~= join_lines(rest));
        assert(split_lines(s) =~= lines);
    }
}

/// What was joined ends as its last line does, where that line is not empty.
pub proof fn lemma_join_lines_last(lines: Seq<Seq<char>>)
    requires
        lines.len() >= 1,
        lines.last().len() > 0,
    ensures
        join_lines(lines).len() > 0,
        join_lines(lines).last() == lines.last().last(),
    decreases lines.len(),
{
    if lines.len() > 1 {
        let rest = lines.drop_first();
        assert(rest.last() == lines.last());
        lemma_join_lines_last(rest);
    }
}

/// A terminator at the end of a text is trimmed away with the line ends before it.
pub proof fn lemma_trim_terminator(s: Seq<char>)
    ensures
        trim_line_end(s + seq!['\r', '\n']) == trim_line_end(s),
{
    let once = s + seq!['\r'];
    let twice = s + seq!['\r', '\n'];
    assert(twice.drop_last() =~= once);
    assert(once.drop_last() =~= s);
    assert(is_line_end(twice.last()));
    assert(is_line_end(once.last()));
    assert(trim_line_end(twice) == trim_line_end(once));
}

/// The text of several lines, each free of line ends and the last not empty,
/// is read as those lines, with or without a terminator behind the last.
pub proof fn lemma_read_lines_join(lines: Seq<Seq<char>>)
    requires
        lines.len() >= 1,
        forall|i: int| 0 <= i < lines.len() ==> free_of_line_ends(#[trigger] lines[i]),
        lines.last().len() > 0,
    ensures
        read_lines(join_lines(lines)) == lines,
        read_lines(join_lines(lines) + seq!['\r', '\n']) == lines,
{
    let s = join_lines(lines);
    lemma_join_lines_last(lines);
    assert(free_of_line_ends(lines.last()));
    assert(!is_line_end(lines.last()[lines.last().len() - 1]));
    assert(trim_line_end(s) == s);
    lemma_trim_terminator(s);
    lemma_split_lines_join(lines);
}

/// The length of `chars` without the carriage returns and line feeds at its end.
pub fn trimmed_len(chars: &Vec<char>) -> (n: usize)
    ensures
        n <= chars.len(),
        trim_line_end(chars@) == chars@.take(n as int),
{
    let mut n: usize = chars.len();
    proof {
        assert(chars@.take(n as int) =~= chars@);
    }
    while n > 0 && (chars[n - 1] == '\r' || chars[n - 1] == '\n')
        invariant
            n <= chars.len(),
            trim_line_end(chars@) == trim_line_end(chars@.take(n as int)),
        decreases n,
    {
        proof {
            assert(chars@.take(n as int).drop_last() =~= chars@.take(n - 1));
        }
        n -= 1;
    }
    n
}

/// The first position in `from..to` at which a line terminator begins and
/// ends before `to`, or `to` where there is none.
pub fn find_break(chars: &Vec<char>, from: usize, to: usize) -> (at: usize)
    requires
        from <= to <= chars.len(),
    ensures
        at == from + first_break(chars@.subrange(from as int, to as int)),
{
    let ghost s = chars@.subrange(from as int, to as int);
    let mut i: usize = from;
    while i < to
        invariant
            from <= i <= to <= chars.len(),
            s == chars@.subrange(from as int, to as int),
            forall|j: int| 0 <= j < i - from ==> !break_at(s, j),
        decreases to - i,
    {
        if to - i >= 2 && chars[i] == '\r' && chars[i + 1] == '\n' {
            proof {
                assert(break_at(s, i - from));
                lemma_first_break_is(s, i - from);
            }
            return i;
        }
        proof {
            assert(!break_at(s, i - from));
        }
        i += 1;
    }
    proof {
        lemma_first_break_is(s, to - from);
    }
    to
}

} // verus!
