//! Lines of a byte sequence, each kept with its terminator.
use vstd::prelude::*;

verus! {

/// The line feed byte that ends every line but possibly the last.
pub const LINE_FEED: u8 = 10;

/// The carriage return byte that may stand before a line feed.
pub const CARRIAGE_RETURN: u8 = 13;

/// Length of the first line of `s`: up to and including its first line feed,
/// or the whole of `s` where it has none.
pub open spec fn first_line_len(s: Seq<u8>) -> nat
    decreases s.len(),
{
    if s.len() == 0 {
        0
    } else if s[0] == LINE_FEED {
        1
    } else {
        1 + first_line_len(s.drop_first())
    }
}

/// The raw lines of `s` in order, each with its terminator; their
/// concatenation is `s` (see `lemma_lines_flatten`).
pub open spec fn lines_of(s: Seq<u8>) -> Seq<Seq<u8>>
    decreases s.len() via lines_of_decreases
{
    if s.len() == 0 {
        Seq::empty()
    } else {
        let n = first_line_len(s) as int;
        seq![s.take(n)] + lines_of(s.skip(n))
    }
}

#[via_fn]
proof fn lines_of_decreases(s: Seq<u8>) {
    if s.len() > 0 {
        lemma_first_line_len_bounds(s);
    }
}

/// What a line holds without its terminator: a final line feed goes, and a
/// carriage return just before it goes too.
pub open spec fn line_content(l: Seq<u8>) -> Seq<u8> {
    if l.len() > 0 && l.last() == LINE_FEED {
        let c = l.drop_last();
        if c.len() > 0 && c.last() == CARRIAGE_RETURN {
            c.drop_last()
        } else {
            c
        }
    } else {
        l
    }
}

/// A line's content ended by a single line feed.
pub open spec fn reterminated(l: Seq<u8>) -> Seq<u8> {
    line_content(l).push(LINE_FEED)
}

pub proof fn lemma_first_line_len_bounds(s: Seq<u8>)
    requires
        s.len() > 0,
    ensures
        0 < first_line_len(s) <= s.len(),
    decreases s.len(),
{
    if s[0] != LINE_FEED {
        if s.len() > 1 {
            lemma_first_line_len_bounds(s.drop_first());
        } else {
            assert(first_line_len(s.drop_first()) == 0);
        }
    }
}

/// The first line of `s` ends after position `m` where `s[m]` is the first
/// line feed, and at the end of `s` where there is none.
pub proof fn lemma_first_line_len_at(s: Seq<u8>, m: int)
    requires
        0 <= m <= s.len(),
        forall|j: int| 0 <= j < m ==> s[j] != LINE_FEED,
        m == s.len() || s[m] == LINE_FEED,
    ensures
        first_line_len(s) == if m < s.len() { m + 1 } else { m },
    decreases m,
{
    if m > 0 {
        let t = s.drop_first();
        assert forall|j: int| 0 <= j < m - 1 implies t[j] != LINE_FEED by {
            assert(t[j] == s[j + 1]);
        }
        lemma_first_line_len_at(t, m - 1);
    }
}

/// The lines of `s` put back together give `s`.
pub proof fn lemma_lines_flatten(s: Seq<u8>)
    ensures
        lines_of(s).flatten() == s,
    decreases s.len(),
{
    if s.len() > 0 {
        let n = first_line_len(s) as int;
        lemma_first_line_len_bounds(s);
        lemma_lines_flatten(s.skip(n));
        let ls = lines_of(s);
        assert(ls == seq![s.take(n)] + lines_of(s.skip(n)));
        vstd::seq_lib::lemma_flatten_concat(seq![s.take(n)], lines_of(s.skip(n)));
        seq![s.take(n)].lemma_flatten_one_element();
        assert(s.take(n) + s.skip(n) =~= s);
    }
}

/// Every line is non-empty.
pub proof fn lemma_lines_nonempty(s: Seq<u8>)
    ensures
        forall|i: int| 0 <= i < lines_of(s).len() ==> #[trigger] lines_of(s)[i].len() > 0,
    decreases s.len(),
{
    if s.len() > 0 {
        let n = first_line_len(s) as int;
        lemma_first_line_len_bounds(s);
        lemma_lines_nonempty(s.skip(n));
        let ls = lines_of(s);
        assert forall|i: int| 0 <= i < ls.len() implies #[trigger] ls[i].len() > 0 by {
            if i > 0 {
                assert(ls[i] == lines_of(s.skip(n))[i - 1]);
            }
        }
    }
}

/// Position just past the line that starts at `start`.
pub fn line_end(input: &[u8], start: usize) -> (end: usize)
    requires
        start < input@.len(),
    ensures
        end == start + first_line_len(input@.skip(start as int)),
        start < end <= input@.len(),
{
    let mut j: usize = start;
    while j < input.len() && input[j] != LINE_FEED
        invariant
            start <= j <= input@.len(),
            forall|k: int| start <= k < j ==> input@[k] != LINE_FEED,
        decreases input@.len() - j,
    {
        j = j + 1;
    }
    let s = Ghost(input@.skip(start as int));
    proof {
        assert forall|k: int| 0 <= k < j - start implies s@[k] != LINE_FEED by {
            assert(s@[k] == input@[start + k]);
        }
        lemma_first_line_len_at(s@, j - start);
    }
    if j < input.len() {
        j + 1
    } else {
        j
    }
}

/// Length of a line's content, without its terminator.
pub fn content_len(line: &[u8]) -> (n: usize)
    ensures
        n <= line@.len(),
        line_content(line@) == line@.take(n as int),
{
    let len = line.len();
    if len > 0 && line[len - 1] == LINE_FEED {
        if len > 1 && line[len - 2] == CARRIAGE_RETURN {
            assert(line_content(line@) =~= line@.take(len - 2));
            len - 2
        } else {
            assert(line_content(line@) =~= line@.take(len - 1));
            len - 1
        }
    } else {
        assert(line_content(line@) =~= line@.take(len as int));
        len
    }
}

} // verus!
