//! Splitting an input held in memory into the bytes of all its parts.
use vstd::prelude::*;
use crate::lines::lines_of;
use crate::scan::{plan_split, header_block, part_count, SplitError};
use crate::part::{part_bytes, prefix_of};
use crate::laws::part_data;

verus! {

/// Splits `input` into parts of `file_lines` data lines after a header of
/// `header_count` lines. Part `i` holds the byte-order mark unless it is the
/// first, the header block, then the raw bytes of its data lines; data lines
/// after the last full part go into no part.
pub fn split_parts(input: &[u8], header_count: usize, file_lines: usize) -> (r: Result<
    Vec<Vec<u8>>,
    SplitError,
>)
    requires
        file_lines > 0,
    ensures
        ({
            let ls = lines_of(input@);
            let k = header_count as int;
            let f = file_lines as int;
            match r {
                Ok(parts) => {
                    &&& ls.len() >= k
                    &&& parts@.len() == part_count(ls, k, f)
                    &&& forall|i: int| 0 <= i < parts@.len()
                        ==> (#[trigger] parts@[i])@ == prefix_of(header_block(ls, k), i == 0)
                            + part_data(input@, k, f, i)
                },
                Err(e) => ls.len() < k && e == SplitError::TruncatedInput,
            }
        }),
{
    let plan = match plan_split(input, header_count, file_lines) {
        Ok(p) => p,
        Err(e) => {
            return Err(e);
        },
    };
    let ghost ls = lines_of(input@);
    let ghost k = header_count as int;
    let ghost f = file_lines as int;
    let mut parts: Vec<Vec<u8>> = Vec::new();
    let mut i: usize = 0;
    while i < plan.boundaries.len()
        invariant
            ls == lines_of(input@),
            k == header_count,
            f == file_lines,
            ls.len() >= k,
            plan.header@ == header_block(ls, k),
            plan.boundaries@.len() == part_count(ls, k, f),
            forall|j: int| 0 <= j < plan.boundaries@.len()
                ==> crate::scan::is_boundary(#[trigger] plan.boundaries@[j], ls, k, f, j),
            forall|j: int| 0 <= j < plan.boundaries@.len()
                ==> #[trigger] plan.boundaries@[j].start_offset + plan.boundaries@[j].byte_length
                    <= input@.len(),
            0 <= i <= plan.boundaries@.len(),
            parts@.len() == i,
            forall|j: int| 0 <= j < i
                ==> (#[trigger] parts@[j])@ == prefix_of(header_block(ls, k), j == 0)
                    + part_data(input@, k, f, j),
        decreases plan.boundaries@.len() - i,
    {
        let b = &plan.boundaries[i];
        let bytes = part_bytes(input, &plan.header, b);
        parts.push(bytes);
        i = i + 1;
    }
    Ok(parts)
}

} // verus!
