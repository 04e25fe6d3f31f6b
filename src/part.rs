//! The bytes of one output part, the bounded copy of its range, and its name.
use vstd::prelude::*;
use vstd::slice::slice_subrange;
use crate::scan::Boundary;

verus! {

/// The UTF-8 byte-order mark that opens every part but the first.
pub open spec fn bom() -> Seq<u8> {
    seq![0xEFu8, 0xBBu8, 0xBFu8]
}

/// What a part holds before its data: the byte-order mark unless it is the
/// first part, then the header block.
pub open spec fn prefix_of(header: Seq<u8>, is_first: bool) -> Seq<u8> {
    if is_first {
        header
    } else {
        bom() + header
    }
}

/// The bytes that open a part, ahead of the data it copies.
pub fn part_prefix(header: &[u8], is_first: bool) -> (r: Vec<u8>)
    ensures
        r@ == prefix_of(header@, is_first),
{
    let mut out: Vec<u8> = Vec::new();
    if !is_first {
        out.push(0xEF);
        out.push(0xBB);
        out.push(0xBF);
    }
    append_bytes(&mut out, header);
    proof {
        assert(out@ =~= prefix_of(header@, is_first));
    }
    out
}

/// Appends `src` to `out`.
fn append_bytes(out: &mut Vec<u8>, src: &[u8])
    ensures
        final(out)@ == old(out)@ + src@,
{
    let mut j: usize = 0;
    while j < src.len()
        invariant
            0 <= j <= src@.len(),
            out@ == old(out)@ + src@.take(j as int),
        decreases src@.len() - j,
    {
        out.push(src[j]);
        proof {
            assert(src@.take(j as int + 1) =~= src@.take(j as int).push(src@[j as int]));
        }
        j = j + 1;
    }
    proof {
        assert(src@.take(j as int) =~= src@);
    }
}

/// The full bytes of the part that `b` describes, copied from an input held
/// in memory: its prefix, then exactly `b.byte_length` bytes from
/// `b.start_offset` on.
pub fn part_bytes(input: &[u8], header: &[u8], b: &Boundary) -> (r: Vec<u8>)
    requires
        b.start_offset + b.byte_length <= input@.len(),
    ensures
        r@ == prefix_of(header@, b.is_first) + input@.subrange(
            b.start_offset as int,
            b.start_offset + b.byte_length,
        ),
{
    let mut out = part_prefix(header, b.is_first);
    proof {
        assert(input@.len() == input.len());
    }
    let start = b.start_offset as usize;
    let data = slice_subrange(input, start, start + b.byte_length);
    append_bytes(&mut out, data);
    out
}

/// One step of copying a range of `wanted` bytes through a buffer: how many of
/// the `got` bytes just read to write, and whether the copy is over.
#[derive(Clone, Copy, Debug, PartialEq, Eq, Structural)]
pub struct CopyStep {
    pub write: usize,
    pub done: bool,
}

/// Decides a copy step after `copied` bytes of the range were written and a read
/// returned `got` bytes. The last read is cut so that no byte past the range
/// is written; a read of nothing ends the copy.
pub fn copy_step(copied: usize, wanted: usize, got: usize) -> (r: CopyStep)
    requires
        copied <= wanted,
    ensures
        r.write == if got <= wanted - copied { got } else { (wanted - copied) as usize },
        r.done == (got == 0 || copied + r.write == wanted),
        copied + r.write <= wanted,
{
    let room = wanted - copied;
    if got <= room {
        CopyStep { write: got, done: got == 0 || got == room }
    } else {
        CopyStep { write: room, done: true }
    }
}

/// The decimal digits of `n`, most significant first, as ASCII bytes.
pub open spec fn decimal(n: nat) -> Seq<u8>
    decreases n,
{
    if n < 10 {
        seq![(48 + n) as u8]
    } else {
        decimal(n / 10).push((48 + n % 10) as u8)
    }
}

/// Appends the decimal digits of `n` to `out`.
fn append_decimal(out: &mut Vec<u8>, n: usize)
    ensures
        final(out)@ == old(out)@ + decimal(n as nat),
    decreases n,
{
    if n >= 10 {
        append_decimal(out, n / 10);
    }
    out.push((48 + n % 10) as u8);
    proof {
        assert(out@ =~= old(out)@ + decimal(n as nat));
    }
}

/// The file name of part `index` of an input whose name without extension is
/// `stem`: the stem, an underscore, the index in decimal and `.csv`.
pub open spec fn part_name(stem: Seq<u8>, index: nat) -> Seq<u8> {
    stem + seq![95u8] + decimal(index) + seq![46u8, 99u8, 115u8, 118u8]
}

/// The file name of part `index`, as bytes.
pub fn part_file_name(stem: &[u8], index: usize) -> (r: Vec<u8>)
    ensures
        r@ == part_name(stem@, index as nat),
{
    let mut out: Vec<u8> = Vec::new();
    append_bytes(&mut out, stem);
    out.push(95);
    append_decimal(&mut out, index);
    out.push(46);
    out.push(99);
    out.push(115);
    out.push(118);
    proof {
        assert(out@ =~= part_name(stem@, index as nat));
    }
    out
}

} // verus!
