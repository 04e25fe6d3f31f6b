//! What holds of a split as a whole.
use vstd::prelude::*;
use vstd::arithmetic::div_mod::lemma_fundamental_div_mod;
use crate::lines::{lines_of, lemma_lines_flatten, lemma_lines_nonempty};
use crate::scan::{
    raw_len, header_lines, data_lines, header_block, part_count, chunk, part_start, part_len,
    dropped_lines, lemma_raw_len_split,
};
use crate::part::{bom, prefix_of};

verus! {

/// The input bytes that part `i` copies.
pub open spec fn part_data(input: Seq<u8>, k: int, f: int, i: int) -> Seq<u8> {
    let ls = lines_of(input);
    input.subrange(part_start(ls, k, f, i), part_start(ls, k, f, i) + part_len(ls, k, f, i))
}

/// The data of the first `n` parts, one after the other.
pub open spec fn parts_data(input: Seq<u8>, k: int, f: int, n: int) -> Seq<u8>
    decreases n,
{
    if n <= 0 {
        Seq::empty()
    } else {
        parts_data(input, k, f, n - 1) + part_data(input, k, f, n - 1)
    }
}

/// The sum of the byte lengths of the first `n` parts.
pub open spec fn parts_len(ls: Seq<Seq<u8>>, k: int, f: int, n: int) -> int
    decreases n,
{
    if n <= 0 {
        0
    } else {
        parts_len(ls, k, f, n - 1) + part_len(ls, k, f, n - 1)
    }
}

proof fn lemma_index_bounds(d: int, f: int, i: int)
    requires
        f > 0,
        d >= 0,
        0 <= i < d / f,
    ensures
        0 <= i * f,
        i * f + f <= d,
        i * f + f == (i + 1) * f,
{
    lemma_fundamental_div_mod(d, f);
    assert(i * f + f == (i + 1) * f) by (nonlinear_arith);
    assert(0 <= i * f) by (nonlinear_arith) requires i >= 0, f > 0;
    assert((i + 1) * f <= f * (d / f)) by (nonlinear_arith) requires i + 1 <= d / f, f > 0;
}

/// Part `i` copies exactly the raw bytes of its data lines, and its range lies
/// inside the input.
pub proof fn lemma_part_data(input: Seq<u8>, k: int, f: int, i: int)
    requires
        f > 0,
        k >= 0,
        0 <= i < part_count(lines_of(input), k, f),
    ensures
        part_start(lines_of(input), k, f, i) + part_len(lines_of(input), k, f, i) <= input.len(),
        part_data(input, k, f, i) == chunk(lines_of(input), k, f, i).flatten(),
{
    let ls = lines_of(input);
    let h = header_lines(ls, k);
    let d = data_lines(ls, k);
    lemma_index_bounds(d.len() as int, f, i);
    let a = d.take(i * f);
    let c = chunk(ls, k, f, i);
    let z = d.skip(i * f + f);
    lemma_lines_flatten(input);
    lemma_raw_len_split(ls, h.len() as int);
    assert(d.take(i * f + f) =~= a + c);
    assert(d =~= d.take(i * f + f) + z);
    vstd::seq_lib::lemma_flatten_concat(a, c);
    vstd::seq_lib::lemma_flatten_concat(a + c, z);
    assert(input =~= h.flatten() + a.flatten() + c.flatten() + z.flatten());
    assert(part_data(input, k, f, i) =~= c.flatten());
}

proof fn lemma_parts_prefix(input: Seq<u8>, k: int, f: int, n: int)
    requires
        f > 0,
        k >= 0,
        0 <= n <= part_count(lines_of(input), k, f),
    ensures
        parts_data(input, k, f, n) == data_lines(lines_of(input), k).take(n * f).flatten(),
        parts_len(lines_of(input), k, f, n) == raw_len(data_lines(lines_of(input), k).take(n * f)),
    decreases n,
{
    let ls = lines_of(input);
    let d = data_lines(ls, k);
    if n == 0 {
        assert(d.take(0) =~= Seq::<Seq<u8>>::empty());
    } else {
        let i = n - 1;
        lemma_parts_prefix(input, k, f, i);
        lemma_part_data(input, k, f, i);
        lemma_index_bounds(d.len() as int, f, i);
        assert(d.take(n * f) =~= d.take(i * f) + chunk(ls, k, f, i));
        vstd::seq_lib::lemma_flatten_concat(d.take(i * f), chunk(ls, k, f, i));
    }
}

/// Where the data lines fill whole parts, the parts' data put back together in
/// order is exactly the input after its header lines.
pub proof fn lemma_parts_rebuild_data(input: Seq<u8>, k: int, f: int)
    requires
        f > 0,
        k >= 0,
        lines_of(input).len() >= k,
        data_lines(lines_of(input), k).len() as int % f == 0,
    ensures
        parts_data(input, k, f, part_count(lines_of(input), k, f))
            == input.skip(raw_len(header_lines(lines_of(input), k))),
{
    let ls = lines_of(input);
    let d = data_lines(ls, k);
    let n = part_count(ls, k, f);
    lemma_parts_prefix(input, k, f, n);
    lemma_fundamental_div_mod(d.len() as int, f);
    assert(n * f == d.len()) by (nonlinear_arith)
        requires d.len() == f * n + 0;
    assert(d.take(n * f) =~= d);
    lemma_lines_flatten(input);
    lemma_raw_len_split(ls, k);
    assert(input.skip(raw_len(header_lines(ls, k))) =~= d.flatten());
}

/// The header bytes, the bytes of every part and the bytes of the data lines
/// left after the last full part add up to the input's length; those left-over
/// bytes are none exactly when the data lines fill whole parts.
pub proof fn lemma_bytes_accounted(input: Seq<u8>, k: int, f: int)
    requires
        f > 0,
        k >= 0,
        lines_of(input).len() >= k,
    ensures
        parts_len(lines_of(input), k, f, part_count(lines_of(input), k, f))
            + raw_len(header_lines(lines_of(input), k))
            + raw_len(dropped_lines(lines_of(input), k, f)) == input.len(),
        dropped_lines(lines_of(input), k, f).len()
            == data_lines(lines_of(input), k).len() as int % f,
        (raw_len(dropped_lines(lines_of(input), k, f)) == 0)
            <==> (data_lines(lines_of(input), k).len() as int % f == 0),
{
    let ls = lines_of(input);
    let d = data_lines(ls, k);
    let n = part_count(ls, k, f);
    let rest = dropped_lines(ls, k, f);
    lemma_parts_prefix(input, k, f, n);
    lemma_fundamental_div_mod(d.len() as int, f);
    assert(0 <= n * f <= d.len()) by (nonlinear_arith)
        requires d.len() == f * n + d.len() as int % f, 0 <= d.len() as int % f, n >= 0, f > 0;
    lemma_raw_len_split(d, n * f);
    lemma_raw_len_split(ls, k);
    lemma_lines_flatten(input);
    assert(rest.len() == d.len() as int % f) by (nonlinear_arith)
        requires rest.len() == d.len() - n * f, d.len() == f * n + d.len() as int % f;
    if rest.len() > 0 {
        lemma_lines_nonempty(input);
        assert(rest[0] == ls[k + n * f]);
        rest.lemma_flatten_length_ge_single_element_length(0);
        rest.lemma_flatten_and_flatten_alt_are_equivalent();
    } else {
        assert(rest =~= Seq::<Seq<u8>>::empty());
    }
}

/// Every part opens with the byte-order mark exactly when it is not the first,
/// then holds the header block, the input's first `k` lines re-terminated,
/// then the raw bytes of its data lines.
pub proof fn lemma_part_layout(input: Seq<u8>, k: int, f: int, i: int)
    requires
        f > 0,
        k >= 0,
        lines_of(input).len() >= k,
        0 <= i < part_count(lines_of(input), k, f),
    ensures
        ({
            let ls = lines_of(input);
            let p = prefix_of(header_block(ls, k), i == 0) + part_data(input, k, f, i);
            let m = if i == 0 { 0int } else { 3int };
            let hb = header_block(ls, k);
            &&& i != 0 ==> p.take(3) == bom()
            &&& i == 0 && hb.len() >= 3 ==> p.take(3) == hb.take(3)
            &&& p.subrange(m, m + hb.len()) == hb
            &&& p.skip(m + hb.len()) == chunk(ls, k, f, i).flatten()
        }),
{
    lemma_part_data(input, k, f, i);
    let ls = lines_of(input);
    let hb = header_block(ls, k);
    let p = prefix_of(hb, i == 0) + part_data(input, k, f, i);
    let m = if i == 0 { 0int } else { 3int };
    assert(p.subrange(m, m + hb.len()) =~= hb);
    assert(p.skip(m + hb.len()) =~= chunk(ls, k, f, i).flatten());
    if i != 0 {
        assert(p.take(3) =~= bom());
    } else if hb.len() >= 3 {
        assert(p.take(3) =~= hb.take(3));
    }
}

} // verus!
