//! Header capture and the line scanner that turns a line quota into byte ranges.
use vstd::prelude::*;
use vstd::slice::slice_subrange;
use vstd::arithmetic::div_mod::{lemma_fundamental_div_mod, lemma_fundamental_div_mod_converse};
use crate::lines::{lines_of, line_content, reterminated, line_end, content_len, lemma_first_line_len_bounds, LINE_FEED};

verus! {

/// Total number of bytes in a sequence of raw lines.
pub open spec fn raw_len(ls: Seq<Seq<u8>>) -> int {
    ls.flatten().len() as int
}

/// How many of the lines `ls` belong to a header of `k` lines.
pub open spec fn header_seen(ls: Seq<Seq<u8>>, k: int) -> int {
    if ls.len() < k {
        ls.len() as int
    } else {
        k
    }
}

/// The raw header lines among `ls`.
pub open spec fn header_lines(ls: Seq<Seq<u8>>, k: int) -> Seq<Seq<u8>> {
    ls.take(header_seen(ls, k))
}

/// The data lines: every line after the header.
pub open spec fn data_lines(ls: Seq<Seq<u8>>, k: int) -> Seq<Seq<u8>> {
    ls.skip(header_seen(ls, k))
}

/// The header block: each header line with its content re-terminated by a
/// single line feed.
pub open spec fn header_block(ls: Seq<Seq<u8>>, k: int) -> Seq<u8> {
    header_lines(ls, k).map_values(|l: Seq<u8>| reterminated(l)).flatten()
}

/// Number of full parts of `f` data lines; an under-quota remainder forms none.
pub open spec fn part_count(ls: Seq<Seq<u8>>, k: int, f: int) -> int {
    (data_lines(ls, k).len() as int) / f
}

/// The data lines of part `i`.
pub open spec fn chunk(ls: Seq<Seq<u8>>, k: int, f: int, i: int) -> Seq<Seq<u8>> {
    data_lines(ls, k).subrange(i * f, i * f + f)
}

/// Offset in the input of the first byte of part `i`.
pub open spec fn part_start(ls: Seq<Seq<u8>>, k: int, f: int, i: int) -> int {
    raw_len(header_lines(ls, k)) + raw_len(data_lines(ls, k).take(i * f))
}

/// Number of input bytes that part `i` copies.
pub open spec fn part_len(ls: Seq<Seq<u8>>, k: int, f: int, i: int) -> int {
    raw_len(chunk(ls, k, f, i))
}

/// Data lines left over after the last full part.
pub open spec fn dropped_lines(ls: Seq<Seq<u8>>, k: int, f: int) -> Seq<Seq<u8>> {
    data_lines(ls, k).skip(part_count(ls, k, f) * f)
}

/// The byte range of one output part and its place in the sequence of parts.
#[derive(Clone, Copy, Debug, PartialEq, Eq, Structural)]
pub struct Boundary {
    pub start_offset: u64,
    pub byte_length: usize,
    pub sequence_index: usize,
    pub is_first: bool,
}

/// `b` describes part `i` of the lines `ls`.
pub open spec fn is_boundary(b: Boundary, ls: Seq<Seq<u8>>, k: int, f: int, i: int) -> bool {
    &&& b.start_offset == part_start(ls, k, f, i)
    &&& b.byte_length == part_len(ls, k, f, i)
    &&& b.sequence_index == i
    &&& b.is_first == (i == 0)
}

/// Why a split cannot be made.
#[derive(Clone, Copy, Debug, PartialEq, Eq, Structural)]
pub enum SplitError {
    /// The input has fewer lines than the header is to hold.
    TruncatedInput,
}

/// A complete split of an input: the header block, the number of raw header
/// bytes, and the byte range of every part in order.
pub struct SplitPlan {
    pub header: Vec<u8>,
    pub header_len: u64,
    pub boundaries: Vec<Boundary>,
}

/// The concatenation of the raw lines is the concatenation of any prefix and
/// the rest.
pub proof fn lemma_raw_len_split(ls: Seq<Seq<u8>>, m: int)
    requires
        0 <= m <= ls.len(),
    ensures
        raw_len(ls) == raw_len(ls.take(m)) + raw_len(ls.skip(m)),
        ls.flatten() == ls.take(m).flatten() + ls.skip(m).flatten(),
{
    vstd::seq_lib::lemma_flatten_concat(ls.take(m), ls.skip(m));
    assert(ls.take(m) + ls.skip(m) =~= ls);
}

/// Parts that are complete stay as they are when more lines follow.
proof fn lemma_boundary_stable(b: Boundary, ls: Seq<Seq<u8>>, l: Seq<u8>, k: int, f: int, i: int)
    requires
        f > 0,
        k >= 0,
        0 <= i < part_count(ls, k, f),
        is_boundary(b, ls, k, f, i),
    ensures
        is_boundary(b, ls.push(l), k, f, i),
{
    let d = data_lines(ls, k);
    let d2 = data_lines(ls.push(l), k);
    assert(ls.len() >= k) by {
        if ls.len() < k {
            assert(d.len() == 0);
        }
    }
    assert(d2 =~= d.push(l));
    assert(header_lines(ls.push(l), k) =~= header_lines(ls, k));
    assert((i + 1) * f <= d.len()) by {
        lemma_fundamental_div_mod(d.len() as int, f);
        assert((i + 1) * f <= f * ((d.len() as int) / f)) by (nonlinear_arith)
            requires i + 1 <= (d.len() as int) / f, f > 0;
    }
    assert(i * f + f == (i + 1) * f) by (nonlinear_arith);
    assert(0 <= i * f) by (nonlinear_arith) requires i >= 0, f > 0;
    assert(d2.take(i * f) =~= d.take(i * f));
    assert(d2.subrange(i * f, i * f + f) =~= d.subrange(i * f, i * f + f));
    assert((d2.len() as int) / f >= (d.len() as int) / f) by {
        vstd::arithmetic::div_mod::lemma_div_is_ordered(d.len() as int, d2.len() as int, f);
    }
}

/// Appends the content of `line` and a single line feed to `out`.
fn append_reterminated(out: &mut Vec<u8>, line: &[u8])
    ensures
        final(out)@ == old(out)@ + reterminated(line@),
{
    let n = content_len(line);
    let mut j: usize = 0;
    while j < n
        invariant
            n <= line@.len(),
            0 <= j <= n,
            line_content(line@) == line@.take(n as int),
            out@ == old(out)@ + line@.take(j as int),
        decreases n - j,
    {
        out.push(line[j]);
        proof {
            assert(line@.take(j as int + 1) =~= line@.take(j as int).push(line@[j as int]));
        }
        j = j + 1;
    }
    out.push(LINE_FEED);
    proof {
        assert(out@ =~= old(out)@ + reterminated(line@));
    }
}

/// Scans raw lines one at a time: captures the header, then emits the byte
/// range of a part each time the line quota is reached.
pub struct Scanner {
    file_lines: usize,
    header_count: usize,
    header: Vec<u8>,
    header_len: u64,
    header_left: usize,
    chunk_lines: usize,
    chunk_bytes: usize,
    start: u64,
    next_index: usize,
    fed: Ghost<Seq<Seq<u8>>>,
}

impl Scanner {
    /// The raw lines fed so far.
    pub closed spec fn lines(&self) -> Seq<Seq<u8>> {
        self.fed@
    }

    /// The configured number of data lines per part.
    pub closed spec fn quota(&self) -> int {
        self.file_lines as int
    }

    /// The configured number of header lines.
    pub closed spec fn header_quota(&self) -> int {
        self.header_count as int
    }

    /// The scanner's counters agree with the lines fed so far.
    pub closed spec fn wf(&self) -> bool {
        let ls = self.fed@;
        let k = self.header_count as int;
        let f = self.file_lines as int;
        let d = data_lines(ls, k);
        &&& f > 0
        &&& self.header@ == header_block(ls, k)
        &&& self.header_len == raw_len(header_lines(ls, k))
        &&& self.header_left == k - header_seen(ls, k)
        &&& self.next_index == (d.len() as int) / f
        &&& self.chunk_lines == (d.len() as int) % f
        &&& self.start == self.header_len + raw_len(d.take(self.next_index * f))
        &&& self.chunk_bytes == raw_len(d.skip(self.next_index * f))
        &&& ls.len() <= raw_len(ls) <= usize::MAX
    }

    /// A scanner that has seen no line.
    pub fn new(file_lines: usize, header_count: usize) -> (r: Scanner)
        requires
            file_lines > 0,
        ensures
            r.wf(),
            r.lines() == Seq::<Seq<u8>>::empty(),
            r.quota() == file_lines,
            r.header_quota() == header_count,
    {
        let r = Scanner {
            file_lines,
            header_count,
            header: Vec::new(),
            header_len: 0,
            header_left: header_count,
            chunk_lines: 0,
            chunk_bytes: 0,
            start: 0,
            next_index: 0,
            fed: Ghost(Seq::empty()),
        };
        proof {
            let ls = Seq::<Seq<u8>>::empty();
            assert(header_lines(ls, header_count as int) =~= ls);
            assert(header_lines(ls, header_count as int).map_values(|l: Seq<u8>| reterminated(l)) =~= Seq::<Seq<u8>>::empty());
            assert(data_lines(ls, header_count as int) =~= ls);
            assert(ls.take(0) =~= ls);
            assert(ls.skip(0) =~= ls);
        }
        r
    }

    /// The header block captured so far.
    pub fn header(&self) -> (r: &Vec<u8>)
        requires
            self.wf(),
        ensures
            r@ == header_block(self.lines(), self.header_quota()),
    {
        &self.header
    }

    /// Number of raw input bytes that the header lines took.
    pub fn header_len(&self) -> (r: u64)
        requires
            self.wf(),
        ensures
            r == raw_len(header_lines(self.lines(), self.header_quota())),
    {
        self.header_len
    }

    /// Whether every header line has been seen.
    pub fn header_complete(&self) -> (r: bool)
        requires
            self.wf(),
        ensures
            r == (self.lines().len() >= self.header_quota()),
    {
        self.header_left == 0
    }

    /// Feeds the next raw line, terminator included. Returns the part that this
    /// line completes, if it completes one.
    pub fn feed(&mut self, line: &[u8]) -> (r: Option<Boundary>)
        requires
            old(self).wf(),
            line@.len() > 0,
            raw_len(old(self).lines()) + line@.len() <= usize::MAX,
        ensures
            final(self).wf(),
            final(self).lines() == old(self).lines().push(line@),
            final(self).quota() == old(self).quota(),
            final(self).header_quota() == old(self).header_quota(),
            ({
                let ls = final(self).lines();
                let k = final(self).header_quota();
                let f = final(self).quota();
                match r {
                    Some(b) => old(self).lines().len() >= k
                        && part_count(ls, k, f) == part_count(old(self).lines(), k, f) + 1
                        && is_boundary(b, ls, k, f, part_count(ls, k, f) - 1),
                    None => part_count(ls, k, f) == part_count(old(self).lines(), k, f),
                }
            }),
    {
        let ghost ls = self.fed@;
        let ghost l = line@;
        let ghost k = self.header_count as int;
        let ghost f = self.file_lines as int;
        let ghost ls2 = ls.push(l);
        proof {
            vstd::seq_lib::lemma_flatten_concat(ls, seq![l]);
            seq![l].lemma_flatten_one_element();
            assert(ls + seq![l] =~= ls2);
        }
        if self.header_left > 0 {
            append_reterminated(&mut self.header, line);
            proof {
                assert(header_lines(ls, k) =~= ls);
                assert(usize::MAX <= u64::MAX);
            }
            self.header_len = self.header_len + line.len() as u64;
            self.header_left = self.header_left - 1;
            self.start = self.header_len;
            self.fed = Ghost(ls2);
            proof {
                assert(header_lines(ls, k) =~= ls);
                assert(header_lines(ls2, k) =~= ls2);
                let g = |x: Seq<u8>| reterminated(x);
                assert(ls2.map_values(g) =~= ls.map_values(g).push(reterminated(l)));
                ls.map_values(g).lemma_flatten_push(reterminated(l));
                assert(data_lines(ls, k).len() == 0);
                assert(data_lines(ls2, k) =~= Seq::<Seq<u8>>::empty());
                assert(data_lines(ls2, k).take(0) =~= Seq::<Seq<u8>>::empty());
                assert(data_lines(ls2, k).skip(0) =~= Seq::<Seq<u8>>::empty());
            }
            None
        } else {
            let ghost d = data_lines(ls, k);
            let ghost d2 = data_lines(ls2, k);
            let ghost m = self.next_index * f;
            proof {
                assert(header_lines(ls2, k) =~= header_lines(ls, k));
                assert(d2 =~= d.push(l));
                lemma_fundamental_div_mod(d.len() as int, f);
                assert(0 <= m <= d.len()) by (nonlinear_arith)
                    requires m == self.next_index * f, f > 0, self.next_index >= 0,
                        d.len() == f * self.next_index + self.chunk_lines, self.chunk_lines >= 0;
                lemma_raw_len_split(ls, k);
                lemma_raw_len_split(d, m);
                assert(d2.take(m) =~= d.take(m));
                assert(d2.skip(m) =~= d.skip(m).push(l));
                d.skip(m).lemma_flatten_push(l);
            }
            self.fed = Ghost(ls2);
            self.chunk_bytes = self.chunk_bytes + line.len();
            if self.chunk_lines + 1 == self.file_lines {
                let b = Boundary {
                    start_offset: self.start,
                    byte_length: self.chunk_bytes,
                    sequence_index: self.next_index,
                    is_first: self.next_index == 0,
                };
                proof {
                    let q = self.next_index + 1;
                    assert(d2.len() == q * f + 0) by (nonlinear_arith)
                        requires d2.len() == d.len() + 1, d.len() == f * self.next_index + self.chunk_lines,
                            self.chunk_lines + 1 == f, q == self.next_index + 1;
                    lemma_fundamental_div_mod_converse(d2.len() as int, f, q, 0);
                    assert(m + f == q * f) by (nonlinear_arith) requires m == self.next_index * f, q == self.next_index + 1;
                    assert(d2.subrange(m, m + f) =~= d2.skip(m));
                    assert(d2.take(q * f) =~= d2.take(m) + d2.subrange(m, m + f));
                    vstd::seq_lib::lemma_flatten_concat(d2.take(m), d2.subrange(m, m + f));
                    assert(d2.skip(q * f) =~= Seq::<Seq<u8>>::empty());
                    assert((d.len() as int) / f == self.next_index);
                }
                self.start = self.start + self.chunk_bytes as u64;
                self.next_index = self.next_index + 1;
                self.chunk_lines = 0;
                self.chunk_bytes = 0;
                Some(b)
            } else {
                proof {
                    assert(d2.len() == self.next_index * f + (self.chunk_lines + 1)) by (nonlinear_arith)
                        requires d2.len() == d.len() + 1, d.len() == f * self.next_index + self.chunk_lines;
                    lemma_fundamental_div_mod_converse(d2.len() as int, f, self.next_index as int, self.chunk_lines + 1);
                }
                self.chunk_lines = self.chunk_lines + 1;
                None
            }
        }
    }
    /// Ends the scan: fails where the input held fewer lines than the header.
    pub fn finish(&self) -> (r: Result<(), SplitError>)
        requires
            self.wf(),
        ensures
            r is Ok <==> self.lines().len() >= self.header_quota(),
            r is Err ==> r == Err::<(), SplitError>(SplitError::TruncatedInput),
    {
        if self.header_left == 0 {
            Ok(())
        } else {
            Err(SplitError::TruncatedInput)
        }
    }
}

/// The lines of `s` from a line start on are that line and the lines after it.
proof fn lemma_lines_step(s: Seq<u8>, p: int, e: int)
    requires
        0 <= p < s.len(),
        e == p + crate::lines::first_line_len(s.skip(p)),
    ensures
        p < e <= s.len(),
        lines_of(s.skip(p)) == seq![s.subrange(p, e)] + lines_of(s.skip(e)),
{
    let t = s.skip(p);
    lemma_first_line_len_bounds(t);
    let n = e - p;
    assert(t.take(n) =~= s.subrange(p, e));
    assert(t.skip(n) =~= s.skip(e));
}

/// Plans the split of a whole input: the header block of `header_count` lines
/// and the byte range of every full part of `file_lines` data lines. Data lines
/// after the last full part belong to no part.
pub fn plan_split(input: &[u8], header_count: usize, file_lines: usize) -> (r: Result<SplitPlan, SplitError>)
    requires
        file_lines > 0,
    ensures
        ({
            let ls = lines_of(input@);
            let k = header_count as int;
            let f = file_lines as int;
            match r {
                Ok(p) => {
                    &&& ls.len() >= k
                    &&& p.header@ == header_block(ls, k)
                    &&& p.header_len == raw_len(header_lines(ls, k))
                    &&& p.boundaries@.len() == part_count(ls, k, f)
                    &&& forall|i: int| 0 <= i < p.boundaries@.len()
                        ==> is_boundary(#[trigger] p.boundaries@[i], ls, k, f, i)
                    &&& forall|i: int| 0 <= i < p.boundaries@.len()
                        ==> #[trigger] p.boundaries@[i].start_offset + p.boundaries@[i].byte_length
                            <= input@.len()
                },
                Err(e) => ls.len() < k && e == SplitError::TruncatedInput,
            }
        }),
{
    let mut scanner = Scanner::new(file_lines, header_count);
    let mut parts: Vec<Boundary> = Vec::new();
    let mut pos: usize = 0;
    let ghost k = header_count as int;
    let ghost f = file_lines as int;
    proof {
        assert(input@.take(0) =~= Seq::<u8>::empty());
        assert(input@.skip(0) =~= input@);
        assert(Seq::<Seq<u8>>::empty() + lines_of(input@) =~= lines_of(input@));
    }
    while pos < input.len()
        invariant
            scanner.wf(),
            scanner.quota() == f,
            scanner.header_quota() == k,
            f > 0,
            pos <= input@.len(),
            scanner.lines().flatten() == input@.take(pos as int),
            lines_of(input@) == scanner.lines() + lines_of(input@.skip(pos as int)),
            parts@.len() == part_count(scanner.lines(), k, f),
            forall|i: int| 0 <= i < parts@.len()
                ==> is_boundary(#[trigger] parts@[i], scanner.lines(), k, f, i),
        decreases input@.len() - pos,
    {
        let end = line_end(input, pos);
        let line = slice_subrange(input, pos, end);
        let ghost before = scanner.lines();
        proof {
            lemma_lines_step(input@, pos as int, end as int);
            assert(line@.len() > 0);
        }
        let next = scanner.feed(line);
        proof {
            assert forall|i: int| 0 <= i < parts@.len()
                implies #[trigger] is_boundary(parts@[i], scanner.lines(), k, f, i) by {
                lemma_boundary_stable(parts@[i], before, line@, k, f, i);
            }
            before.lemma_flatten_push(line@);
            assert(input@.take(end as int) =~= input@.take(pos as int) + line@);
            assert(before + (seq![line@] + lines_of(input@.skip(end as int)))
                =~= before.push(line@) + lines_of(input@.skip(end as int)));
        }
        match next {
            Some(b) => {
                parts.push(b);
            },
            None => {},
        }
        pos = end;
    }
    proof {
        assert(input@.skip(pos as int) =~= Seq::<u8>::empty());
        assert(scanner.lines() + Seq::<Seq<u8>>::empty() =~= scanner.lines());
    }
    match scanner.finish() {
        Ok(()) => {
            proof {
                assert forall|i: int| 0 <= i < parts@.len() implies
                    #[trigger] parts@[i].start_offset + parts@[i].byte_length <= input@.len() by {
                    crate::laws::lemma_part_data(input@, k, f, i);
                }
            }
            let header = scanner.header().clone();
            let header_len = scanner.header_len();
            Ok(SplitPlan { header, header_len, boundaries: parts })
        },
        Err(e) => Err(e),
    }
}

} // verus!
