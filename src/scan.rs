use vstd::prelude::*;

verus! {

/// Width of the blocks that the chunked scans test at once.
pub const CHUNK: usize = 16;

/// No byte in `[from, to)` equals `needle`.
pub open spec fn absent_in(b: Seq<u8>, from: int, to: int, needle: u8) -> bool {
    forall|k: int| from <= k < to ==> b[k] != needle
}

/// Tests a whole block of `CHUNK` bytes for `needle` and reports the first
/// position that holds it, as a vector compare followed by a count of
/// trailing zeros would.
pub fn first_in_chunk(bytes: &[u8], from: usize, needle: u8) -> (r: Option<usize>)
    requires
        from + CHUNK <= bytes@.len(),
    ensures
        match r {
            None => absent_in(bytes@, from as int, from + CHUNK, needle),
            Some(j) => from <= j < from + CHUNK && bytes@[j as int] == needle && absent_in(
                bytes@,
                from as int,
                j as int,
                needle,
            ),
        },
{
    let n = bytes.len();
    let end = from + CHUNK;
    let mut j: usize = from;
    while j < end
        invariant
            from <= j <= end,
            end == from + CHUNK,
            from + CHUNK <= bytes@.len(),
            absent_in(bytes@, from as int, j as int, needle),
        decreases end - j,
    {
        if bytes[j] == needle {
            return Some(j);
        }
        j = j + 1;
    }
    None
}

} // verus!
